//! Content-addressed domain identifiers.
//!
//! A domain's identifier is a deterministic 64-bit hash of its name, so
//! identical names always yield the identical id; duplicate detection is then
//! just a lookup. The registry treats a hash collision as two names being
//! "the same domain", which callers accept as a property of the scheme.

use vstd::prelude::*;

verus! {

/// Seed of the 64-bit FNV-1a hash.
pub const FNV_OFFSET_BASIS: u64 = 0xcbf2_9ce4_8422_2325;

/// Multiplier of the 64-bit FNV-1a hash.
pub const FNV_PRIME: u64 = 0x100_0000_01b3;

/// One FNV-1a round: fold the byte `b` into the state `h`.
pub open spec fn fnv_step(h: u64, b: u8) -> u64 {
    (h ^ (b as u64)).wrapping_mul(FNV_PRIME)
}

/// The identifier of a domain name: the 64-bit FNV-1a hash of its bytes.
pub open spec fn name_id(s: Seq<u8>) -> u64
    decreases s.len(),
{
    if s.len() == 0 {
        FNV_OFFSET_BASIS
    } else {
        fnv_step(name_id(s.drop_last()), s.last())
    }
}

/// Computes the content-addressed identifier of `name`.
pub fn hash_of(name: &Vec<u8>) -> (id: u64)
    ensures
        id == name_id(name@),
{
    let mut h: u64 = FNV_OFFSET_BASIS;
    let mut i: usize = 0;
    while i < name.len()
        invariant
            i <= name@.len(),
            h == name_id(name@.subrange(0, i as int)),
        decreases name@.len() - i,
    {
        proof {
            let pre = name@.subrange(0, i as int);
            let post = name@.subrange(0, i as int + 1);
            assert(post.drop_last() =~= pre);
            assert(post.last() == name@[i as int]);
        }
        h = (h ^ (name[i] as u64)).wrapping_mul(FNV_PRIME);
        i = i + 1;
    }
    proof {
        assert(name@.subrange(0, name@.len() as int) =~= name@);
    }
    h
}

} // verus!
