//! External collaborators of the registry: the balance ledger and the clock.
//!
//! The ledger owns account balances exclusively; the registry only queries
//! balances and requests transfers through the [`Ledger`] capability. The
//! clock supplies the timestamp captured at mint time. Both are traits that
//! the host environment implements; this module also provides verified
//! in-memory implementations.

use std::collections::HashMap;
use vstd::prelude::*;

verus! {

broadcast use vstd::std_specs::hash::group_hash_axioms;

/// A balance-transfer ledger: balance queries and atomic value transfer.
///
/// An implementation may refuse a transfer for reasons of its own (for
/// example to keep the paying account viable), but a refusal must leave
/// every balance unchanged, and a successful transfer must move exactly
/// `amount` from `from` to `to` and touch no other account.
pub trait Ledger: Sized {
    /// The balance the ledger holds for account `a`.
    spec fn balance_of(&self, a: u64) -> u64;

    /// Reports the available balance of account `a`.
    fn free_balance(&self, a: u64) -> (r: u64)
        ensures
            r == self.balance_of(a),
    ;

    /// Moves `amount` from `from` to `to`: either both balances change or
    /// neither does.
    fn transfer(&mut self, from: u64, to: u64, amount: u64) -> (r: Result<(), ()>)
        requires
            from != to,
        ensures
            match r {
                Ok(()) => {
                    &&& old(self).balance_of(from) >= amount
                    &&& final(self).balance_of(from) == old(self).balance_of(from) - amount
                    &&& final(self).balance_of(to) == old(self).balance_of(to) + amount
                    &&& forall|a: u64|
                        a != from && a != to ==> (#[trigger] final(self).balance_of(a))
                            == old(self).balance_of(a)
                },
                Err(()) => forall|a: u64|
                    (#[trigger] final(self).balance_of(a)) == old(self).balance_of(a),
            },
    ;
}

/// A time source for mint timestamps.
pub trait Clock: Sized {
    /// The moment the clock currently reports.
    spec fn time(&self) -> u64;

    /// Reads the current moment.
    fn now(&self) -> (t: u64)
        ensures
            t == self.time(),
    ;
}

/// A verified in-memory [`Ledger`]: a map from account to balance, where an
/// absent account holds zero. A transfer fails only when the payer cannot
/// cover the amount or the recipient's balance would overflow.
pub struct InMemoryLedger {
    /// The balance of every account with a non-default entry.
    pub balances: HashMap<u64, u64>,
}

impl InMemoryLedger {
    /// The balance of account `a`: its entry, or zero when it has none.
    pub open spec fn spec_balance(self, a: u64) -> u64 {
        if self.balances@.contains_key(a) {
            self.balances@[a]
        } else {
            0
        }
    }

    /// Creates a ledger in which every account holds zero.
    pub fn new() -> (r: Self)
        ensures
            forall|a: u64| #[trigger] r.spec_balance(a) == 0,
    {
        InMemoryLedger { balances: HashMap::new() }
    }

    /// Sets the balance of account `a` to `amount`.
    pub fn set_balance(&mut self, a: u64, amount: u64)
        ensures
            final(self).spec_balance(a) == amount,
            forall|x: u64|
                x != a ==> (#[trigger] final(self).spec_balance(x)) == old(self).spec_balance(x),
    {
        self.balances.insert(a, amount);
    }
}

impl Ledger for InMemoryLedger {
    open spec fn balance_of(&self, a: u64) -> u64 {
        self.spec_balance(a)
    }

    fn free_balance(&self, a: u64) -> (r: u64) {
        match self.balances.get(&a) {
            Some(b) => *b,
            None => 0,
        }
    }

    fn transfer(&mut self, from: u64, to: u64, amount: u64) -> (r: Result<(), ()>) {
        let from_bal = self.free_balance(from);
        if from_bal < amount {
            return Err(());
        }
        let to_bal = self.free_balance(to);
        match to_bal.checked_add(amount) {
            None => Err(()),
            Some(new_to_bal) => {
                self.balances.insert(from, from_bal - amount);
                self.balances.insert(to, new_to_bal);
                Ok(())
            },
        }
    }
}

/// A [`Clock`] that reports a fixed moment.
pub struct FixedClock {
    /// The moment every reading reports.
    pub timestamp: u64,
}

impl Clock for FixedClock {
    open spec fn time(&self) -> u64 {
        self.timestamp
    }

    fn now(&self) -> (t: u64) {
        self.timestamp
    }
}

} // verus!
