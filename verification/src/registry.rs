//! The registry service: record storage, the ownership index, the counter,
//! and the operations that keep them consistent.
//!
//! Every operation either completes and emits one event, or returns the
//! precise error of the first failing check and leaves the observable state
//! exactly as it was: no partial mutation survives a failure.

use std::collections::HashMap;
use vstd::prelude::*;

use crate::hashing;
use crate::ledger::{Clock, Ledger};
use crate::types::{bytes_opt_view, Domain, Error, Event};

verus! {

broadcast use vstd::std_specs::hash::group_hash_axioms;

/// The domain registry and marketplace.
///
/// Holds the domain records keyed by their content-addressed identifier, the
/// per-account bounded ownership lists, the counter of existing records, and
/// the log of emitted events. Every operation preserves [`Registry::wf`].
pub struct Registry {
    /// Domain records, keyed by identifier.
    pub domains: HashMap<u64, Domain>,
    /// Per-account list of owned identifiers; an absent account owns none.
    pub owned: HashMap<u64, Vec<u64>>,
    /// The number of domain records in existence.
    pub counter: u32,
    /// The maximum number of domains a single account can own.
    pub max_owned: u32,
    /// The events emitted so far, one per successful operation, in order.
    pub event_log: Vec<Event>,
}

/// The position of `x` in `v`, if it occurs there.
fn find_index(v: &Vec<u64>, x: u64) -> (r: Option<usize>)
    ensures
        match r {
            Some(i) => i < v@.len() && v@[i as int] == x,
            None => !v@.contains(x),
        },
{
    let mut i: usize = 0;
    while i < v.len()
        invariant
            i <= v@.len(),
            forall|j: int| 0 <= j < i ==> v@[j] != x,
        decreases v@.len() - i,
    {
        if v[i] == x {
            return Some(i);
        }
        i = i + 1;
    }
    None
}

/// What removing the entry at position `i` by swapping in the last entry
/// does to a sequence: the length shrinks by one, no entry appears that was
/// not there before, every entry other than the removed one stays, and a
/// duplicate-free sequence stays duplicate-free and loses the removed entry.
proof fn lemma_swap_remove_at(s: Seq<u64>, i: int)
    requires
        0 <= i < s.len(),
    ensures
        ({
            let t = s.update(i, s.last()).drop_last();
            &&& t.len() == s.len() - 1
            &&& forall|x: u64| #[trigger] t.contains(x) ==> s.contains(x)
            &&& forall|x: u64| x != s[i] && s.contains(x) ==> #[trigger] t.contains(x)
            &&& (s.no_duplicates() ==> t.no_duplicates() && !t.contains(s[i]))
        }),
{
    let t = s.update(i, s.last()).drop_last();
    let last = s.len() - 1;
    assert forall|x: u64| #[trigger] t.contains(x) implies s.contains(x) by {
        let j = choose|j: int| 0 <= j < t.len() && t[j] == x;
        if j == i {
            assert(s[last] == x);
        } else {
            assert(s[j] == x);
        }
    }
    assert forall|x: u64| x != s[i] && s.contains(x) implies #[trigger] t.contains(x) by {
        let k = choose|k: int| 0 <= k < s.len() && s[k] == x;
        if k < last {
            assert(t[k] == x);
        } else {
            assert(i < last);
            assert(t[i] == x);
        }
    }
    if s.no_duplicates() {
        assert forall|j1: int, j2: int|
            0 <= j1 < t.len() && 0 <= j2 < t.len() && j1 != j2 implies t[j1] != t[j2] by {
            let k1: int = if j1 == i { last } else { j1 };
            let k2: int = if j2 == i { last } else { j2 };
            assert(t[j1] == s[k1]);
            assert(t[j2] == s[k2]);
            assert(k1 != k2);
        }
        assert forall|j: int| 0 <= j < t.len() implies t[j] != s[i] by {
            if j == i {
                assert(t[j] == s[last]);
                assert(i != last);
            } else {
                assert(t[j] == s[j]);
            }
        }
        assert(!t.contains(s[i]));
    }
}

/// Replacing one record with a record of the same name and owner, while
/// keys, ownership lists, counter and capacity stay the same, preserves the
/// registry invariant.
proof fn lemma_wf_after_record_update(pre: Registry, post: Registry, id: u64)
    requires
        pre.wf(),
        pre.domains@.contains_key(id),
        post.domains@.contains_key(id),
        post.domains@[id].owner == pre.domains@[id].owner,
        post.domains@[id].name@ == pre.domains@[id].name@,
        post.domains@.remove(id) == pre.domains@.remove(id),
        post.domains@.dom() == pre.domains@.dom(),
        post.owned == pre.owned,
        post.counter == pre.counter,
        post.max_owned == pre.max_owned,
    ensures
        post.wf(),
{
    assert forall|a: u64| #[trigger] post.owned_seq(a) == pre.owned_seq(a) by {
        assert(post.owned@ == pre.owned@);
    }
    assert(post.domains@.len() == pre.domains@.len());
    assert forall|id2: u64|
        #[trigger] post.domains@.contains_key(id2) && id2 != id implies post.domains@[id2]
        == pre.domains@[id2] by {
        assert(post.domains@.remove(id) == pre.domains@.remove(id));
        assert(post.domains@.remove(id)[id2] == post.domains@[id2]);
        assert(pre.domains@.remove(id)[id2] == pre.domains@[id2]);
    }
    assert forall|id2: u64| #[trigger]
        post.domains@.contains_key(id2) implies hashing::name_id(post.domains@[id2].name@)
        == id2 by {
        assert(pre.domains@.contains_key(id2));
    }
    assert forall|id2: u64| #[trigger]
        post.domains@.contains_key(id2) implies post.owned_seq(
        post.domains@[id2].owner,
    ).contains(id2) by {
        assert(pre.domains@.contains_key(id2));
        assert(post.domains@[id2].owner == pre.domains@[id2].owner);
        assert(pre.owned_seq(pre.domains@[id2].owner).contains(id2));
    }
    assert forall|a: u64, j: int| 0 <= j < post.owned_seq(a).len() implies {
        &&& post.domains@.contains_key(#[trigger] post.owned_seq(a)[j])
        &&& post.domains@[post.owned_seq(a)[j]].owner == a
    } by {
        let e = post.owned_seq(a)[j];
        assert(pre.owned_seq(a)[j] == e);
        assert(pre.domains@.contains_key(e) && pre.domains@[e].owner == a);
    }
}

/// What appending an entry does to a sequence: the length grows by one, the
/// new entry is present, membership of the others is kept both ways, and a
/// duplicate-free sequence without the entry stays duplicate-free.
proof fn lemma_push_facts(s: Seq<u64>, id: u64)
    ensures
        ({
            let t = s.push(id);
            &&& t.len() == s.len() + 1
            &&& t.contains(id)
            &&& forall|x: u64| #[trigger] s.contains(x) ==> t.contains(x)
            &&& forall|x: u64| #[trigger] t.contains(x) ==> x == id || s.contains(x)
            &&& (s.no_duplicates() && !s.contains(id) ==> t.no_duplicates())
        }),
{
    let t = s.push(id);
    assert(t[s.len() as int] == id);
    assert(t.contains(id));
    assert forall|x: u64| #[trigger] s.contains(x) implies t.contains(x) by {
        let j = choose|j: int| 0 <= j < s.len() && s[j] == x;
        assert(t[j] == x);
    }
    assert forall|x: u64| #[trigger] t.contains(x) implies x == id || s.contains(x) by {
        let j = choose|j: int| 0 <= j < t.len() && t[j] == x;
        if j < s.len() {
            assert(s[j] == x);
        }
    }
    if s.no_duplicates() && !s.contains(id) {
        assert forall|j1: int, j2: int|
            0 <= j1 < t.len() && 0 <= j2 < t.len() && j1 != j2 implies t[j1] != t[j2] by {
            if j1 < s.len() && j2 < s.len() {
                assert(s[j1] != s[j2]);
            } else if j1 < s.len() {
                assert(t[j2] == id && t[j1] == s[j1]);
                if s[j1] == id {
                    assert(s.contains(id));
                }
            } else {
                assert(t[j1] == id && t[j2] == s[j2]);
                if s[j2] == id {
                    assert(s.contains(id));
                }
            }
        }
    }
}

/// Re-keying one record to a new owner, with the ownership lists adjusted
/// accordingly, preserves the registry invariant.
proof fn lemma_wf_after_move(pre: Registry, post: Registry, id: u64, to: u64)
    requires
        pre.wf(),
        pre.domains@.contains_key(id),
        post.domains@.contains_key(id),
        post.domains@[id].owner == to,
        post.domains@[id].name@ == pre.domains@[id].name@,
        post.domains@.remove(id) == pre.domains@.remove(id),
        post.domains@.dom() == pre.domains@.dom(),
        post.counter == pre.counter,
        post.max_owned == pre.max_owned,
        post.owned_seq(to).contains(id),
        post.owned_seq(to).no_duplicates(),
        post.owned_seq(to).len() <= pre.max_owned,
        forall|x: u64|
            (#[trigger] post.owned_seq(to).contains(x)) ==> x == id || pre.owned_seq(
                to,
            ).contains(x),
        forall|x: u64|
            x != id && pre.owned_seq(to).contains(x) ==> #[trigger] post.owned_seq(
                to,
            ).contains(x),
        pre.domains@[id].owner != to ==> ({
            let prev = pre.domains@[id].owner;
            &&& !post.owned_seq(prev).contains(id)
            &&& post.owned_seq(prev).no_duplicates()
            &&& post.owned_seq(prev).len() <= pre.max_owned
            &&& forall|x: u64|
                (#[trigger] post.owned_seq(prev).contains(x)) ==> pre.owned_seq(prev).contains(x)
            &&& forall|x: u64|
                x != id && pre.owned_seq(prev).contains(x) ==> #[trigger] post.owned_seq(
                    prev,
                ).contains(x)
        }),
        forall|a: u64|
            a != pre.domains@[id].owner && a != to ==> (#[trigger] post.owned_seq(a))
                == pre.owned_seq(a),
    ensures
        post.wf(),
{
    let prev = pre.domains@[id].owner;
    assert forall|id2: u64|
        #[trigger] post.domains@.contains_key(id2) && id2 != id implies pre.domains@.contains_key(
        id2,
    ) && post.domains@[id2] == pre.domains@[id2] by {
        assert(post.domains@.remove(id)[id2] == post.domains@[id2]);
        assert(pre.domains@.remove(id)[id2] == pre.domains@[id2]);
    }
    assert(post.domains@.len() == pre.domains@.len());
    assert forall|id2: u64| #[trigger]
        post.domains@.contains_key(id2) implies hashing::name_id(post.domains@[id2].name@)
        == id2 by {
        if id2 != id {
            assert(post.domains@[id2] == pre.domains@[id2]);
        }
    }
    assert forall|id2: u64| #[trigger]
        post.domains@.contains_key(id2) implies post.owned_seq(
        post.domains@[id2].owner,
    ).contains(id2) by {
        if id2 != id {
            let o2 = post.domains@[id2].owner;
            assert(o2 == pre.domains@[id2].owner);
            assert(pre.owned_seq(o2).contains(id2));
        }
    }
    assert forall|a: u64, j: int| 0 <= j < post.owned_seq(a).len() implies {
        &&& post.domains@.contains_key(#[trigger] post.owned_seq(a)[j])
        &&& post.domains@[post.owned_seq(a)[j]].owner == a
    } by {
        let e = post.owned_seq(a)[j];
        assert(post.owned_seq(a).contains(e));
        if a == to {
            if e != id {
                assert(pre.owned_seq(to).contains(e));
                let k = choose|k: int|
                    0 <= k < pre.owned_seq(to).len() && pre.owned_seq(to)[k] == e;
                assert(pre.domains@.contains_key(pre.owned_seq(to)[k]));
                assert(pre.domains@[e].owner == to);
                assert(post.domains@[e] == pre.domains@[e]);
            }
        } else if a == prev {
            assert(prev != to);
            assert(pre.owned_seq(prev).contains(e));
            assert(e != id);
            let k = choose|k: int| 0 <= k < pre.owned_seq(prev).len() && pre.owned_seq(prev)[k]
                == e;
            assert(pre.domains@.contains_key(pre.owned_seq(prev)[k]));
            assert(pre.domains@[e].owner == prev);
            assert(post.domains@[e] == pre.domains@[e]);
        } else {
            assert(pre.owned_seq(a)[j] == e);
            assert(pre.domains@.contains_key(e) && pre.domains@[e].owner == a);
            assert(e != id);
            assert(post.domains@[e] == pre.domains@[e]);
        }
    }
    assert forall|a: u64| (#[trigger] post.owned_seq(a)).no_duplicates() by {
        if a != to && a != prev {
            assert(post.owned_seq(a) == pre.owned_seq(a));
        }
    }
    assert forall|a: u64| (#[trigger] post.owned_seq(a)).len() <= post.max_owned by {
        if a != to && a != prev {
            assert(post.owned_seq(a) == pre.owned_seq(a));
        }
    }
}

/// A change that only appends to the event log preserves the registry
/// invariant and every ownership list.
proof fn lemma_wf_event_only(pre: Registry, post: Registry)
    requires
        pre.wf(),
        post.domains == pre.domains,
        post.owned == pre.owned,
        post.counter == pre.counter,
        post.max_owned == pre.max_owned,
    ensures
        post.wf(),
        forall|a: u64| #[trigger] post.owned_seq(a) == pre.owned_seq(a),
{
    assert forall|a: u64| #[trigger] post.owned_seq(a) == pre.owned_seq(a) by {
        assert(post.owned@ == pre.owned@);
    }
    assert forall|id2: u64| #[trigger]
        post.domains@.contains_key(id2) implies post.owned_seq(
        post.domains@[id2].owner,
    ).contains(id2) by {
        assert(pre.owned_seq(pre.domains@[id2].owner).contains(id2));
    }
    assert forall|a: u64, j: int| 0 <= j < post.owned_seq(a).len() implies {
        &&& post.domains@.contains_key(#[trigger] post.owned_seq(a)[j])
        &&& post.domains@[post.owned_seq(a)[j]].owner == a
    } by {
        assert(pre.owned_seq(a)[j] == post.owned_seq(a)[j]);
    }
}

/// Adding one fresh record under a fresh identifier, appended to its owner's
/// ownership list while that list has spare capacity, preserves the registry
/// invariant.
proof fn lemma_wf_after_mint(pre: Registry, post: Registry, owner: u64, id: u64)
    requires
        pre.wf(),
        !pre.domains@.contains_key(id),
        pre.counter < u32::MAX,
        pre.owned_seq(owner).len() < pre.max_owned,
        post.domains@.contains_key(id),
        post.domains@[id].owner == owner,
        hashing::name_id(post.domains@[id].name@) == id,
        post.domains@.remove(id) == pre.domains@,
        post.domains@.dom() == pre.domains@.dom().insert(id),
        post.owned_seq(owner) == pre.owned_seq(owner).push(id),
        forall|a: u64| a != owner ==> (#[trigger] post.owned_seq(a)) == pre.owned_seq(a),
        post.counter == pre.counter + 1,
        post.max_owned == pre.max_owned,
    ensures
        post.wf(),
{
    let s_pre = pre.owned_seq(owner);
    let s_post = post.owned_seq(owner);
    assert forall|id2: u64|
        #[trigger] post.domains@.contains_key(id2) && id2 != id implies pre.domains@.contains_key(
        id2,
    ) && post.domains@[id2] == pre.domains@[id2] by {
        assert(post.domains@.remove(id)[id2] == post.domains@[id2]);
    }
    assert forall|a: u64| !(#[trigger] pre.owned_seq(a).contains(id)) by {
        if pre.owned_seq(a).contains(id) {
            let j = choose|j: int| 0 <= j < pre.owned_seq(a).len() && pre.owned_seq(a)[j] == id;
            assert(pre.domains@.contains_key(pre.owned_seq(a)[j]));
            assert(false);
        }
    }
    assert(post.domains@.len() == pre.domains@.len() + 1);
    assert forall|id2: u64| #[trigger]
        post.domains@.contains_key(id2) implies hashing::name_id(post.domains@[id2].name@)
        == id2 by {
        if id2 != id {
            assert(post.domains@[id2] == pre.domains@[id2]);
        }
    }
    assert forall|id2: u64| #[trigger]
        post.domains@.contains_key(id2) implies post.owned_seq(
        post.domains@[id2].owner,
    ).contains(id2) by {
        if id2 == id {
            assert(s_post[s_post.len() - 1] == id);
        } else {
            let o2 = post.domains@[id2].owner;
            assert(pre.owned_seq(o2).contains(id2));
            if o2 == owner {
                let j = choose|j: int| 0 <= j < s_pre.len() && s_pre[j] == id2;
                assert(s_post[j] == id2);
            }
        }
    }
    assert forall|a: u64, j: int| 0 <= j < post.owned_seq(a).len() implies {
        &&& post.domains@.contains_key(#[trigger] post.owned_seq(a)[j])
        &&& post.domains@[post.owned_seq(a)[j]].owner == a
    } by {
        if a == owner {
            if j < s_pre.len() {
                assert(post.owned_seq(a)[j] == s_pre[j]);
                assert(pre.domains@.contains_key(s_pre[j]) && pre.domains@[s_pre[j]].owner == a);
                assert(s_pre[j] != id);
            } else {
                assert(post.owned_seq(a)[j] == id);
            }
        } else {
            let e = post.owned_seq(a)[j];
            assert(pre.owned_seq(a)[j] == e);
            assert(pre.domains@.contains_key(e) && pre.domains@[e].owner == a);
            assert(e != id);
        }
    }
    assert forall|a: u64| (#[trigger] post.owned_seq(a)).no_duplicates() by {
        if a == owner {
            assert forall|j1: int, j2: int|
                0 <= j1 < s_post.len() && 0 <= j2 < s_post.len() && j1 != j2 implies s_post[j1]
                != s_post[j2] by {
                if j1 < s_pre.len() && j2 < s_pre.len() {
                    assert(s_pre[j1] != s_pre[j2]);
                } else if j1 < s_pre.len() {
                    assert(s_post[j2] == id && s_post[j1] == s_pre[j1]);
                    assert(!s_pre.contains(id));
                    assert(s_pre[j1] != id) by {
                        if s_pre[j1] == id {
                            assert(s_pre.contains(id));
                        }
                    }
                } else {
                    assert(s_post[j1] == id && s_post[j2] == s_pre[j2]);
                    assert(s_pre[j2] != id) by {
                        if s_pre[j2] == id {
                            assert(s_pre.contains(id));
                        }
                    }
                }
            }
        }
    }
}

impl Registry {
    /// The identifiers account `a` owns, in list order. The order carries no
    /// meaning: a removal may relocate another entry to fill the gap.
    pub open spec fn owned_seq(self, a: u64) -> Seq<u64> {
        if self.owned@.contains_key(a) {
            self.owned@[a]@
        } else {
            Seq::<u64>::empty()
        }
    }

    /// The consistency invariant of the registry, preserved by every
    /// operation:
    /// - the counter equals the number of domain records;
    /// - every record's identifier is the hash of its name, so an identifier,
    ///   once minted, is never reused for a different name;
    /// - every record's owner's ownership list contains the record's id;
    /// - every ownership list entry names an existing record owned by that
    ///   account, so no id appears in two accounts' lists;
    /// - no ownership list repeats an entry;
    /// - every ownership list is within the configured capacity.
    pub open spec fn wf(self) -> bool {
        &&& self.counter as nat == self.domains@.len()
        &&& forall|id: u64| #[trigger]
            self.domains@.contains_key(id) ==> hashing::name_id(self.domains@[id].name@) == id
        &&& forall|id: u64| #[trigger]
            self.domains@.contains_key(id) ==> self.owned_seq(self.domains@[id].owner).contains(id)
        &&& forall|a: u64, j: int|
            0 <= j < self.owned_seq(a).len() ==> {
                &&& self.domains@.contains_key(#[trigger] self.owned_seq(a)[j])
                &&& self.domains@[self.owned_seq(a)[j]].owner == a
            }
        &&& forall|a: u64| (#[trigger] self.owned_seq(a)).no_duplicates()
        &&& forall|a: u64| (#[trigger] self.owned_seq(a)).len() <= self.max_owned
    }

    /// True when `self` presents the same externally observable state as
    /// `pre`: the same records, ownership lists, counter, capacity and
    /// events.
    pub open spec fn same_state(self, pre: Registry) -> bool {
        &&& self.domains@ == pre.domains@
        &&& forall|a: u64| #[trigger] self.owned_seq(a) == pre.owned_seq(a)
        &&& self.counter == pre.counter
        &&& self.max_owned == pre.max_owned
        &&& self.event_log@ == pre.event_log@
    }

    /// The first check that fails when `owner` mints `name`, or `None` when
    /// minting must succeed.
    pub open spec fn mint_check(self, owner: u64, name: Seq<u8>) -> Option<Error> {
        if self.domains@.contains_key(hashing::name_id(name)) {
            Some(Error::AlreadyRegistered)
        } else if self.counter == u32::MAX {
            Some(Error::CounterOverflow)
        } else if self.owned_seq(owner).len() >= self.max_owned {
            Some(Error::CapacityExceeded)
        } else {
            None
        }
    }

    /// The first check that fails when `sender` updates the price or wallet
    /// of domain `id`, or `None` when the update must succeed.
    pub open spec fn update_check(self, sender: u64, id: u64) -> Option<Error> {
        if !self.domains@.contains_key(id) {
            Some(Error::NotFound)
        } else if self.domains@[id].owner != sender {
            Some(Error::NotOwner)
        } else {
            None
        }
    }

    /// The first check that fails when `from` transfers domain `id` to `to`,
    /// or `None` when the transfer must succeed.
    pub open spec fn transfer_check(self, from: u64, to: u64, id: u64) -> Option<Error> {
        if !self.domains@.contains_key(id) {
            Some(Error::NotFound)
        } else if self.domains@[id].owner != from {
            Some(Error::NotOwner)
        } else if from == to {
            Some(Error::SelfTransfer)
        } else if self.owned_seq(to).len() >= self.max_owned {
            Some(Error::CapacityExceeded)
        } else {
            None
        }
    }

    /// The first check that fails when ownership of domain `id` moves to
    /// `to`, or `None` when the move must succeed.
    pub open spec fn move_check(self, id: u64, to: u64) -> Option<Error> {
        if !self.domains@.contains_key(id) {
            Some(Error::NotFound)
        } else if self.domains@[id].owner != to && self.owned_seq(to).len() >= self.max_owned {
            Some(Error::CapacityExceeded)
        } else {
            None
        }
    }

    /// The first check that fails when `buyer`, holding `buyer_balance` and
    /// declaring the maximum `max_price`, buys domain `id`; `None` when only
    /// the ledger can still refuse.
    pub open spec fn buy_check(self, buyer_balance: u64, buyer: u64, id: u64, max_price: u64) -> Option<Error> {
        if !self.domains@.contains_key(id) {
            Some(Error::NotFound)
        } else if self.domains@[id].owner == buyer {
            Some(Error::BuyerIsOwner)
        } else {
            match self.domains@[id].price {
                None => Some(Error::NotForSale),
                Some(ask) => if max_price < ask {
                    Some(Error::BidTooLow)
                } else if buyer_balance < ask {
                    Some(Error::InsufficientFunds)
                } else if self.owned_seq(buyer).len() >= self.max_owned {
                    Some(Error::CapacityExceeded)
                } else {
                    None
                },
            }
        }
    }

    /// How `post` relates to `self` after ownership of domain `id` moved to
    /// `to`: the record keeps its name, wallet and timestamp, its owner
    /// becomes `to`, its price is reset to `None`; the id leaves the previous
    /// owner's list and joins `to`'s; every other record, list, the counter
    /// and the capacity are untouched.
    pub open spec fn moved_domain(self, post: Registry, id: u64, to: u64) -> bool {
        let prev = self.domains@[id].owner;
        &&& post.domains@.contains_key(id)
        &&& post.domains@[id].owner == to
        &&& post.domains@[id].price is None
        &&& post.domains@[id].name@ == self.domains@[id].name@
        &&& post.domains@[id].wallet == self.domains@[id].wallet
        &&& post.domains@[id].created_at == self.domains@[id].created_at
        &&& post.domains@.remove(id) == self.domains@.remove(id)
        &&& post.counter == self.counter
        &&& post.max_owned == self.max_owned
        &&& forall|a: u64|
            a != prev && a != to ==> (#[trigger] post.owned_seq(a)) == self.owned_seq(a)
        &&& post.owned_seq(to).contains(id)
        &&& if prev != to {
            &&& post.owned_seq(prev).len() == self.owned_seq(prev).len() - 1
            &&& !post.owned_seq(prev).contains(id)
            &&& forall|x: u64|
                x != id ==> ((#[trigger] post.owned_seq(prev).contains(x))
                    <==> self.owned_seq(prev).contains(x))
            &&& post.owned_seq(to).len() == self.owned_seq(to).len() + 1
            &&& forall|x: u64|
                x != id ==> ((#[trigger] post.owned_seq(to).contains(x))
                    <==> self.owned_seq(to).contains(x))
        } else {
            &&& post.owned_seq(to).len() == self.owned_seq(to).len()
            &&& forall|x: u64|
                (#[trigger] post.owned_seq(to).contains(x)) <==> self.owned_seq(to).contains(x)
        }
    }

    /// How `post` relates to `self` after `owner` minted `name` at moment
    /// `t`: one fresh record exists under `id`, not for sale, without a
    /// wallet; the id joins the owner's list; the counter grew by one;
    /// everything else is untouched.
    pub open spec fn minted_domain(self, post: Registry, owner: u64, name: Seq<u8>, t: u64, id: u64) -> bool {
        &&& post.domains@.contains_key(id)
        &&& post.domains@[id].name@ == name
        &&& post.domains@[id].owner == owner
        &&& post.domains@[id].price is None
        &&& post.domains@[id].wallet is None
        &&& post.domains@[id].created_at == t
        &&& post.domains@.remove(id) == self.domains@
        &&& post.owned_seq(owner) == self.owned_seq(owner).push(id)
        &&& forall|a: u64| a != owner ==> (#[trigger] post.owned_seq(a)) == self.owned_seq(a)
        &&& post.counter == self.counter + 1
        &&& post.max_owned == self.max_owned
    }

    /// Creates an empty registry in which a single account may own at most
    /// `max_owned` domains.
    pub fn new(max_owned: u32) -> (r: Registry)
        ensures
            r.wf(),
            r.domains@ == Map::<u64, Domain>::empty(),
            r.counter == 0,
            r.max_owned == max_owned,
            r.event_log@ == Seq::<Event>::empty(),
            forall|a: u64| #[trigger] r.owned_seq(a) == Seq::<u64>::empty(),
    {
        let r = Registry {
            domains: HashMap::new(),
            owned: HashMap::new(),
            counter: 0,
            max_owned,
            event_log: Vec::new(),
        };
        proof {
            assert(r.domains@.dom() =~= Set::<u64>::empty());
        }
        r
    }

    /// The number of domains in existence.
    pub fn get_domain_count(&self) -> (r: u32)
        ensures
            r == self.counter,
    {
        self.counter
    }

    /// The record registered under `id`, if any.
    pub fn get_domain(&self, id: u64) -> (r: Option<&Domain>)
        ensures
            match r {
                Some(d) => self.domains@.contains_key(id) && *d == self.domains@[id],
                None => !self.domains@.contains_key(id),
            },
    {
        self.domains.get(&id)
    }

    /// The identifiers account `a` currently owns.
    pub fn owned_ids(&self, a: u64) -> (v: Vec<u64>)
        ensures
            v@ == self.owned_seq(a),
    {
        match self.owned.get(&a) {
            Some(list) => {
                let v = list.clone();
                proof {
                    assert(v@ =~= list@);
                }
                v
            },
            None => Vec::new(),
        }
    }

    /// The events emitted so far, in order.
    pub fn events(&self) -> (r: &Vec<Event>)
        ensures
            r@ == self.event_log@,
    {
        &self.event_log
    }

    /// Whether account `acct` owns domain `id`; fails when no such domain
    /// exists.
    pub fn is_domain_owner(&self, id: u64, acct: u64) -> (r: Result<bool, Error>)
        ensures
            match r {
                Ok(b) => self.domains@.contains_key(id) && (b <==> self.domains@[id].owner
                    == acct),
                Err(e) => e == Error::NotFound && !self.domains@.contains_key(id),
            },
    {
        match self.domains.get(&id) {
            Some(d) => Ok(d.owner == acct),
            None => Err(Error::NotFound),
        }
    }

    /// Confirms that no domain is registered under `id` yet; fails when one
    /// is.
    pub fn is_domain_isset(&self, id: u64) -> (r: Result<bool, Error>)
        ensures
            match r {
                Ok(b) => b && !self.domains@.contains_key(id),
                Err(e) => e == Error::AlreadyRegistered && self.domains@.contains_key(id),
            },
    {
        match self.domains.get(&id) {
            Some(_) => Err(Error::AlreadyRegistered),
            None => Ok(true),
        }
    }

    /// The current length of account `a`'s ownership list.
    fn owned_len(&self, a: u64) -> (n: usize)
        ensures
            n == self.owned_seq(a).len(),
    {
        match self.owned.get(&a) {
            Some(v) => v.len(),
            None => 0,
        }
    }

    /// Appends `id` to account `a`'s ownership list, touching nothing else.
    fn owned_push(&mut self, a: u64, id: u64)
        ensures
            final(self).owned_seq(a) == old(self).owned_seq(a).push(id),
            forall|x: u64|
                x != a ==> (#[trigger] final(self).owned_seq(x)) == old(self).owned_seq(x),
            final(self).domains == old(self).domains,
            final(self).counter == old(self).counter,
            final(self).max_owned == old(self).max_owned,
            final(self).event_log == old(self).event_log,
    {
        let ghost pre = *self;
        let taken = self.owned.remove(&a);
        let mut v = match taken {
            Some(v) => v,
            None => Vec::new(),
        };
        proof {
            assert(v@ == pre.owned_seq(a));
        }
        v.push(id);
        self.owned.insert(a, v);
        proof {
            assert forall|x: u64| x != a implies (#[trigger] self.owned_seq(x))
                == pre.owned_seq(x) by {
                if pre.owned@.contains_key(x) {
                    assert(self.owned@[x] == pre.owned@[x]);
                }
            }
        }
    }

    /// Removes one occurrence of `id` from account `a`'s ownership list,
    /// touching nothing else; the removal may relocate another entry to
    /// fill the gap. Fails, mutating nothing, when the list lacks `id`.
    fn owned_remove(&mut self, a: u64, id: u64) -> (r: Result<(), ()>)
        ensures
            final(self).domains == old(self).domains,
            final(self).counter == old(self).counter,
            final(self).max_owned == old(self).max_owned,
            final(self).event_log == old(self).event_log,
            forall|x: u64|
                x != a ==> (#[trigger] final(self).owned_seq(x)) == old(self).owned_seq(x),
            match r {
                Ok(()) => {
                    &&& old(self).owned_seq(a).contains(id)
                    &&& final(self).owned_seq(a).len() == old(self).owned_seq(a).len() - 1
                    &&& forall|x: u64| (#[trigger] final(self).owned_seq(a).contains(x))
                        ==> old(self).owned_seq(a).contains(x)
                    &&& forall|x: u64|
                        x != id && old(self).owned_seq(a).contains(x)
                            ==> #[trigger] final(self).owned_seq(a).contains(x)
                    &&& (old(self).owned_seq(a).no_duplicates() ==> {
                        &&& final(self).owned_seq(a).no_duplicates()
                        &&& !final(self).owned_seq(a).contains(id)
                    })
                },
                Err(()) => *final(self) == *old(self) && !old(self).owned_seq(a).contains(id),
            },
    {
        let ghost pre = *self;
        let found = match self.owned.get(&a) {
            Some(v) => find_index(v, id),
            None => None,
        };
        match found {
            None => Err(()),
            Some(i) => {
                let taken = self.owned.remove(&a);
                let mut v = match taken {
                    Some(v) => v,
                    None => {
                        proof {
                            assert(false);
                        }
                        Vec::new()
                    },
                };
                proof {
                    assert(v@ == pre.owned_seq(a));
                }
                let ghost s = v@;
                v.swap_remove(i);
                proof {
                    lemma_swap_remove_at(s, i as int);
                }
                self.owned.insert(a, v);
                proof {
                    assert forall|x: u64| x != a implies (#[trigger] self.owned_seq(x))
                        == pre.owned_seq(x) by {
                        if pre.owned@.contains_key(x) {
                            assert(self.owned@[x] == pre.owned@[x]);
                        }
                    }
                    assert(pre.owned_seq(a).contains(id)) by {
                        assert(pre.owned_seq(a)[i as int] == id);
                    }
                }
                Ok(())
            },
        }
    }

    /// Mints a new record for `owner` under the hash of `name`, timestamped
    /// by `clock`. The commit is all-or-nothing: when any check fails,
    /// nothing has changed. The caller emits the corresponding event.
    pub fn mint<C: Clock>(&mut self, clock: &C, owner: u64, name: &Vec<u8>) -> (r: Result<
        u64,
        Error,
    >)
        requires
            old(self).wf(),
        ensures
            final(self).wf(),
            match old(self).mint_check(owner, name@) {
                Some(e) => r == Err::<u64, Error>(e) && final(self).same_state(*old(self)),
                None => ({
                    &&& r == Ok::<u64, Error>(hashing::name_id(name@))
                    &&& old(self).minted_domain(
                        *final(self),
                        owner,
                        name@,
                        clock.time(),
                        hashing::name_id(name@),
                    )
                    &&& final(self).event_log == old(self).event_log
                }),
            },
    {
        let id = hashing::hash_of(name);
        if self.domains.contains_key(&id) {
            return Err(Error::AlreadyRegistered);
        }
        let new_cnt = match self.counter.checked_add(1) {
            None => return Err(Error::CounterOverflow),
            Some(c) => c,
        };
        let len = self.owned_len(owner);
        if len >= (self.max_owned as usize) {
            return Err(Error::CapacityExceeded);
        }
        let ghost pre = *self;
        let name_copy = name.clone();
        proof {
            assert(name_copy@ =~= name@);
        }
        let record = Domain {
            name: name_copy,
            price: None,
            wallet: None,
            owner,
            created_at: clock.now(),
        };
        self.owned_push(owner, id);
        let ghost mid = *self;
        self.domains.insert(id, record);
        self.counter = new_cnt;
        proof {
            assert forall|a: u64| #[trigger] self.owned_seq(a) == mid.owned_seq(a) by {
                assert(self.owned@ == mid.owned@);
            }
            assert(self.domains@.remove(id) =~= pre.domains@);
            assert(self.domains@.dom() =~= pre.domains@.dom().insert(id));
            lemma_wf_after_mint(pre, *self, owner, id);
        }
        Ok(id)
    }

    /// Mints the domain `name` for `sender` and emits the creation event.
    /// Fails with [`Error::AlreadyRegistered`] when the name's identifier is
    /// already taken, and then changes nothing.
    pub fn create_domain<C: Clock>(&mut self, clock: &C, sender: u64, name: Vec<u8>) -> (r: Result<
        u64,
        Error,
    >)
        requires
            old(self).wf(),
        ensures
            final(self).wf(),
            match old(self).mint_check(sender, name@) {
                Some(e) => r == Err::<u64, Error>(e) && final(self).same_state(*old(self)),
                None => ({
                    &&& r == Ok::<u64, Error>(hashing::name_id(name@))
                    &&& old(self).minted_domain(
                        *final(self),
                        sender,
                        name@,
                        clock.time(),
                        hashing::name_id(name@),
                    )
                    &&& final(self).event_log@ == old(self).event_log@.push(
                        Event::Created(sender, hashing::name_id(name@)),
                    )
                }),
            },
    {
        let id0 = hashing::hash_of(&name);
        match self.is_domain_isset(id0) {
            Err(e) => return Err(e),
            Ok(_) => {},
        };
        let ghost pre = *self;
        let id = match self.mint(clock, sender, &name) {
            Err(e) => return Err(e),
            Ok(id) => id,
        };
        let ghost mid = *self;
        self.event_log.push(Event::Created(sender, id));
        proof {
            lemma_wf_event_only(mid, *self);
        }
        Ok(id)
    }

    /// Sets the ask price of domain `id`. Only the owner may do so; a price
    /// of `None` takes the domain off the market.
    pub fn set_price(&mut self, sender: u64, id: u64, new_price: Option<u64>) -> (r: Result<
        (),
        Error,
    >)
        requires
            old(self).wf(),
        ensures
            final(self).wf(),
            match old(self).update_check(sender, id) {
                Some(e) => r == Err::<(), Error>(e) && final(self).same_state(*old(self)),
                None => ({
                    &&& r == Ok::<(), Error>(())
                    &&& final(self).domains@.contains_key(id)
                    &&& final(self).domains@[id].price == new_price
                    &&& final(self).domains@[id].owner == old(self).domains@[id].owner
                    &&& final(self).domains@[id].name@ == old(self).domains@[id].name@
                    &&& final(self).domains@[id].wallet == old(self).domains@[id].wallet
                    &&& final(self).domains@[id].created_at == old(self).domains@[id].created_at
                    &&& final(self).domains@.remove(id) == old(self).domains@.remove(id)
                    &&& forall|a: u64| #[trigger]
                        final(self).owned_seq(a) == old(self).owned_seq(a)
                    &&& final(self).counter == old(self).counter
                    &&& final(self).event_log@ == old(self).event_log@.push(
                        Event::PriceSet(sender, id, new_price),
                    )
                }),
            },
    {
        let owns = match self.domains.get(&id) {
            None => return Err(Error::NotFound),
            Some(d) => d.owner == sender,
        };
        if !owns {
            return Err(Error::NotOwner);
        }
        let ghost pre = *self;
        let taken = self.domains.remove(&id);
        let mut d = match taken {
            Some(d) => d,
            None => {
                proof {
                    assert(false);
                }
                return Err(Error::NotFound);
            },
        };
        d.price = new_price;
        self.domains.insert(id, d);
        self.event_log.push(Event::PriceSet(sender, id, new_price));
        proof {
            assert(self.domains@.remove(id) =~= pre.domains@.remove(id));
            assert(self.domains@.dom() =~= pre.domains@.dom());
            lemma_wf_after_record_update(pre, *self, id);
        }
        Ok(())
    }

    /// Sets the payout wallet of domain `id`. Only the owner may do so.
    pub fn set_wallet(&mut self, sender: u64, id: u64, new_wallet: Option<Vec<u8>>) -> (r: Result<
        (),
        Error,
    >)
        requires
            old(self).wf(),
        ensures
            final(self).wf(),
            match old(self).update_check(sender, id) {
                Some(e) => r == Err::<(), Error>(e) && final(self).same_state(*old(self)),
                None => ({
                    &&& r == Ok::<(), Error>(())
                    &&& final(self).domains@.contains_key(id)
                    &&& bytes_opt_view(final(self).domains@[id].wallet) == bytes_opt_view(
                        new_wallet,
                    )
                    &&& final(self).domains@[id].price == old(self).domains@[id].price
                    &&& final(self).domains@[id].owner == old(self).domains@[id].owner
                    &&& final(self).domains@[id].name@ == old(self).domains@[id].name@
                    &&& final(self).domains@[id].created_at == old(self).domains@[id].created_at
                    &&& final(self).domains@.remove(id) == old(self).domains@.remove(id)
                    &&& forall|a: u64| #[trigger]
                        final(self).owned_seq(a) == old(self).owned_seq(a)
                    &&& final(self).counter == old(self).counter
                    &&& final(self).event_log@ == old(self).event_log@.push(
                        Event::WalletSet(sender, id, new_wallet),
                    )
                }),
            },
    {
        let owns = match self.domains.get(&id) {
            None => return Err(Error::NotFound),
            Some(d) => d.owner == sender,
        };
        if !owns {
            return Err(Error::NotOwner);
        }
        let wallet_copy: Option<Vec<u8>> = match &new_wallet {
            Some(w) => {
                let c = w.clone();
                proof {
                    assert(c@ =~= w@);
                }
                Some(c)
            },
            None => None,
        };
        let ghost pre = *self;
        let taken = self.domains.remove(&id);
        let mut d = match taken {
            Some(d) => d,
            None => {
                proof {
                    assert(false);
                }
                return Err(Error::NotFound);
            },
        };
        d.wallet = wallet_copy;
        self.domains.insert(id, d);
        self.event_log.push(Event::WalletSet(sender, id, new_wallet));
        proof {
            assert(self.domains@.remove(id) =~= pre.domains@.remove(id));
            assert(self.domains@.dom() =~= pre.domains@.dom());
            lemma_wf_after_record_update(pre, *self, id);
        }
        Ok(())
    }
    /// Moves ownership of domain `id` to `to` and resets its ask price: the
    /// shared primitive behind direct transfers and purchases. All steps are
    /// all-or-nothing: when any check fails, nothing has changed.
    ///
    /// The body also guards against an ownership index that lacks the entry
    /// the record implies, answering [`Error::InconsistentState`]; on a
    /// well-formed registry that branch is proved unreachable, so the
    /// contract promises only the two reachable failures.
    pub fn transfer_domain_to(&mut self, id: u64, to: u64) -> (r: Result<(), Error>)
        requires
            old(self).wf(),
        ensures
            final(self).wf(),
            final(self).event_log == old(self).event_log,
            match old(self).move_check(id, to) {
                Some(e) => r == Err::<(), Error>(e) && final(self).same_state(*old(self)),
                None => r == Ok::<(), Error>(()) && old(self).moved_domain(*final(self), id, to),
            },
    {
        let prev = match self.domains.get(&id) {
            None => return Err(Error::NotFound),
            Some(d) => d.owner,
        };
        if to != prev {
            let to_len = self.owned_len(to);
            if to_len >= (self.max_owned as usize) {
                return Err(Error::CapacityExceeded);
            }
        }
        let ghost pre = *self;
        match self.owned_remove(prev, id) {
            Err(()) => {
                proof {
                    assert(false);
                }
                Err(Error::InconsistentState)
            },
            Ok(()) => {
                let ghost m1 = *self;
                let taken = self.domains.remove(&id);
                let mut d = match taken {
                    Some(d) => d,
                    None => {
                        proof {
                            assert(false);
                        }
                        return Err(Error::NotFound);
                    },
                };
                d.owner = to;
                d.price = None;
                self.domains.insert(id, d);
                let ghost m2 = *self;
                self.owned_push(to, id);
                proof {
                    assert forall|a: u64| #[trigger] m2.owned_seq(a) == m1.owned_seq(a) by {
                        assert(m2.owned@ == m1.owned@);
                    }
                    assert(self.domains@.remove(id) =~= pre.domains@.remove(id));
                    assert(self.domains@.dom() =~= pre.domains@.dom());
                    if to != prev {
                        assert(!pre.owned_seq(to).contains(id)) by {
                            if pre.owned_seq(to).contains(id) {
                                let j = choose|j: int|
                                    0 <= j < pre.owned_seq(to).len() && pre.owned_seq(to)[j] == id;
                                assert(pre.domains@.contains_key(pre.owned_seq(to)[j]));
                                assert(pre.domains@[id].owner == to);
                                assert(false);
                            }
                        }
                        assert(self.owned_seq(to) == pre.owned_seq(to).push(id));
                        lemma_push_facts(pre.owned_seq(to), id);
                    } else {
                        assert(self.owned_seq(to) == m1.owned_seq(to).push(id));
                        lemma_push_facts(m1.owned_seq(to), id);
                        assert forall|x: u64|
                            x != id && pre.owned_seq(to).contains(x) implies #[trigger] self
                            .owned_seq(to).contains(x) by {
                            assert(m1.owned_seq(to).contains(x));
                        }
                    }
                    assert forall|a: u64|
                        a != prev && a != to implies (#[trigger] self.owned_seq(a))
                            == pre.owned_seq(a) by {
                        assert(self.owned_seq(a) == m2.owned_seq(a));
                        assert(m1.owned_seq(a) == pre.owned_seq(a));
                    }
                    if to != prev {
                        assert(self.owned_seq(prev) == m1.owned_seq(prev));
                    }
                    lemma_wf_after_move(pre, *self, id, to);
                }
                Ok(())
            },
        }
    }

    /// Transfers domain `id` from its owner `from` to `to`, resetting the
    /// ask price, and emits the transfer event. Fails, changing nothing,
    /// unless `from` owns the domain, `to` is a different account, and `to`
    /// has spare ownership capacity.
    pub fn transfer(&mut self, from: u64, to: u64, id: u64) -> (r: Result<(), Error>)
        requires
            old(self).wf(),
        ensures
            final(self).wf(),
            match old(self).transfer_check(from, to, id) {
                Some(e) => r == Err::<(), Error>(e) && final(self).same_state(*old(self)),
                None => ({
                    &&& r == Ok::<(), Error>(())
                    &&& old(self).moved_domain(*final(self), id, to)
                    &&& final(self).event_log@ == old(self).event_log@.push(
                        Event::Transferred(from, to, id),
                    )
                }),
            },
    {
        match self.is_domain_owner(id, from) {
            Err(e) => return Err(e),
            Ok(false) => return Err(Error::NotOwner),
            Ok(true) => {},
        }
        if from == to {
            return Err(Error::SelfTransfer);
        }
        let to_len = self.owned_len(to);
        if to_len >= (self.max_owned as usize) {
            return Err(Error::CapacityExceeded);
        }
        let ghost pre = *self;
        match self.transfer_domain_to(id, to) {
            Ok(()) => {
                let ghost mid = *self;
                self.event_log.push(Event::Transferred(from, to, id));
                proof {
                    lemma_wf_event_only(mid, *self);
                }
                Ok(())
            },
            Err(e) => {
                proof {
                    assert(false);
                }
                Err(e)
            },
        }
    }

    /// Buys domain `id` for `buyer`, who declares `max_price` as the most
    /// they accept to pay, and pays the ask price through `ledger`. The
    /// payment and the ownership move form one atomic unit: on any failure,
    /// the ledger's refusal included, every balance, every record and every
    /// ownership list is exactly as before the call.
    pub fn buy_domain<L: Ledger>(
        &mut self,
        ledger: &mut L,
        buyer: u64,
        id: u64,
        max_price: u64,
    ) -> (r: Result<(), Error>)
        requires
            old(self).wf(),
        ensures
            final(self).wf(),
            match old(self).buy_check(old(ledger).balance_of(buyer), buyer, id, max_price) {
                Some(e) => ({
                    &&& r == Err::<(), Error>(e)
                    &&& final(self).same_state(*old(self))
                    &&& forall|a: u64|
                        (#[trigger] final(ledger).balance_of(a)) == old(ledger).balance_of(a)
                }),
                None => match r {
                    Ok(()) => (match old(self).domains@[id].price {
                        Some(ask) => ({
                            let seller = old(self).domains@[id].owner;
                            &&& old(self).moved_domain(*final(self), id, buyer)
                            &&& final(self).event_log@ == old(self).event_log@.push(
                                Event::Bought(buyer, seller, id, ask),
                            )
                            &&& old(ledger).balance_of(buyer) >= ask
                            &&& final(ledger).balance_of(buyer) == old(ledger).balance_of(buyer)
                                - ask
                            &&& final(ledger).balance_of(seller) == old(ledger).balance_of(seller)
                                + ask
                            &&& forall|a: u64|
                                a != buyer && a != seller ==> (
                                #[trigger] final(ledger).balance_of(a)) == old(
                                    ledger,
                                ).balance_of(a)
                        }),
                        None => false,
                    }),
                    Err(e) => ({
                        &&& e == Error::PaymentFailed
                        &&& final(self).same_state(*old(self))
                        &&& forall|a: u64|
                            (#[trigger] final(ledger).balance_of(a)) == old(ledger).balance_of(a)
                    }),
                },
            },
    {
        let (seller, price_opt) = match self.domains.get(&id) {
            None => return Err(Error::NotFound),
            Some(d) => (d.owner, d.price),
        };
        if seller == buyer {
            return Err(Error::BuyerIsOwner);
        }
        let ask = match price_opt {
            None => return Err(Error::NotForSale),
            Some(p) => p,
        };
        if max_price < ask {
            return Err(Error::BidTooLow);
        }
        let bal = ledger.free_balance(buyer);
        if bal < ask {
            return Err(Error::InsufficientFunds);
        }
        let buyer_len = self.owned_len(buyer);
        if buyer_len >= (self.max_owned as usize) {
            return Err(Error::CapacityExceeded);
        }
        match ledger.transfer(buyer, seller, ask) {
            Err(()) => Err(Error::PaymentFailed),
            Ok(()) => {
                match self.transfer_domain_to(id, buyer) {
                    Ok(()) => {
                        let ghost mid = *self;
                        self.event_log.push(Event::Bought(buyer, seller, id, ask));
                        proof {
                            lemma_wf_event_only(mid, *self);
                        }
                        Ok(())
                    },
                    Err(e) => {
                        proof {
                            assert(false);
                        }
                        Err(e)
                    },
                }
            },
        }
    }

    /// Law: in every well-formed registry, each domain's id occurs in its
    /// owner's ownership list exactly once, and every ownership list is
    /// within the configured capacity.
    pub proof fn lemma_ownership_invariant(self, id: u64)
        requires
            self.wf(),
            self.domains@.contains_key(id),
        ensures
            self.owned_seq(self.domains@[id].owner).to_multiset().count(id) == 1,
            forall|a: u64| (#[trigger] self.owned_seq(a)).len() <= self.max_owned,
    {
        broadcast use vstd::seq_lib::group_to_multiset_ensures;

        let s = self.owned_seq(self.domains@[id].owner);
        assert(s.contains(id));
        s.lemma_multiset_has_no_duplicates();
    }

    /// Law: in every well-formed registry the counter equals the number of
    /// domain records.
    pub proof fn lemma_counter_invariant(self)
        requires
            self.wf(),
        ensures
            self.counter as nat == self.domains@.len(),
    {
    }
}

} // verus!
