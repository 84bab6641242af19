//! A verified domain-name registry and marketplace.
//!
//! Accounts mint uniquely named domain records, price them, transfer them
//! directly, or sell them through an atomic pay-and-transfer purchase. The
//! registry keeps a bidirectional index between records and bounded per-owner
//! ownership lists, plus a counter of existing records, and every operation
//! is proved to preserve the consistency invariants that tie them together.

pub mod hashing;
pub mod ledger;
pub mod registry;
pub mod types;
