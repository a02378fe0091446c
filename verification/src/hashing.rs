//! The hash by which the store finds a filter it already holds.

use vstd::prelude::*;

verus! {

/// The hashes are the numbers below this bound.
pub const BOUND: u64 = 0xff_ffff_ffff_ffc5;

/// The hash `h` of what was read so far, with `x` read after it.
pub open spec fn mixed(h: u64, x: u64) -> u64 {
    (((h % BOUND) * 31 + x % BOUND) % (BOUND as int)) as u64
}

/// The hash of a byte string.
pub open spec fn hash_of_bytes(b: Seq<u8>) -> u64
    decreases b.len(),
{
    if b.len() == 0 {
        7
    } else {
        mixed(hash_of_bytes(b.drop_last()), b.last() as u64)
    }
}

/// The hash of a sequence of byte strings.
pub open spec fn hash_of_path(p: Seq<Seq<u8>>) -> u64
    decreases p.len(),
{
    if p.len() == 0 {
        11
    } else {
        mixed(hash_of_path(p.drop_last()), hash_of_bytes(p.last()))
    }
}

/// The hash `h` of what was read so far, with `x` read after it.
pub fn mix(h: u64, x: u64) -> (r: u64)
    ensures
        r == mixed(h, x),
{
    ((h % BOUND) * 31 + x % BOUND) % BOUND
}

/// The hash of a byte string.
pub fn hash_bytes(b: &Vec<u8>) -> (h: u64)
    ensures
        h == hash_of_bytes(b@),
{
    let mut h: u64 = 7;
    let mut i: usize = 0;
    assert(b@.take(0) =~= Seq::<u8>::empty());
    while i < b.len()
        invariant
            i <= b.len(),
            h == hash_of_bytes(b@.take(i as int)),
        decreases b.len() - i,
    {
        assert(b@.take(i + 1).drop_last() =~= b@.take(i as int));
        h = mix(h, b[i] as u64);
        i += 1;
    }
    assert(b@.take(b@.len() as int) =~= b@);
    h
}

} // verus!
