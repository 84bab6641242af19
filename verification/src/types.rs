//! The registry's data model: domain records, errors, and events.

use vstd::prelude::*;

verus! {

/// One registered domain.
///
/// The record is created only by minting, mutated by the price, wallet and
/// ownership operations, and never destroyed. Its `name` is immutable after
/// creation, and its identifier is always `hashing::name_id(name@)`.
pub struct Domain {
    /// The registered name, as raw bytes.
    pub name: Vec<u8>,
    /// The ask price; `None` means the domain is not for sale.
    pub price: Option<u64>,
    /// An optional external payout address, settable by the owner only.
    pub wallet: Option<Vec<u8>>,
    /// The account that owns the domain.
    pub owner: u64,
    /// The timestamp captured when the domain was minted.
    pub created_at: u64,
}

/// The terminal failure of a registry operation.
///
/// Every operation returns a single terminal outcome; a failure inside a
/// multi-step operation leaves the state exactly as it was before the call.
#[derive(Clone, Copy, Debug, PartialEq, Eq)]
pub enum Error {
    /// The name's identifier is already registered.
    AlreadyRegistered,
    /// Incrementing the domain counter would overflow its integer range.
    CounterOverflow,
    /// The receiving account already owns the configured maximum of domains.
    CapacityExceeded,
    /// The caller does not own the domain.
    NotOwner,
    /// The buyer already owns the domain.
    BuyerIsOwner,
    /// A domain cannot be transferred to its current owner.
    SelfTransfer,
    /// No domain is registered under the identifier.
    NotFound,
    /// The domain has no ask price set.
    NotForSale,
    /// The buyer's declared maximum is below the ask price.
    BidTooLow,
    /// The ledger reports that the buyer cannot cover the ask price.
    InsufficientFunds,
    /// The ledger refused to move the payment.
    PaymentFailed,
    /// The ownership index lacks an entry the record implies must exist;
    /// this marks a prior invariant breach, not a user error.
    InconsistentState,
}

/// An optional byte sequence, abstracted to its mathematical view.
pub open spec fn bytes_opt_view(w: Option<Vec<u8>>) -> Option<Seq<u8>> {
    match w {
        Some(v) => Some(v@),
        None => None,
    }
}

/// A domain event, one per successful operation, in order of occurrence.
#[derive(Clone, Debug, PartialEq, Eq)]
pub enum Event {
    /// A new domain was minted. (owner, domain id)
    Created(u64, u64),
    /// A domain's ask price was set. (owner, domain id, new price)
    PriceSet(u64, u64, Option<u64>),
    /// A domain's payout wallet was set. (owner, domain id, new wallet)
    WalletSet(u64, u64, Option<Vec<u8>>),
    /// A domain changed hands directly. (previous owner, new owner, domain id)
    Transferred(u64, u64, u64),
    /// A domain was bought. (buyer, seller, domain id, paid price)
    Bought(u64, u64, u64, u64),
}

} // verus!
