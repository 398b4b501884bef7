//! Pairs of 32-bit coordinates as keys of a hash map: each pair is kept under
//! one 64-bit number.

use vstd::prelude::*;

verus! {

/// The key of a pair: both coordinates, made non-negative, side by side in
/// one 64-bit number.
pub open spec fn pair_key(pair: (i32, i32)) -> u64 {
    ((pair.0 + 0x8000_0000) * 0x1_0000_0000 + (pair.1 + 0x8000_0000)) as u64
}

/// Different pairs have different keys.
pub proof fn lemma_pair_key_injective(a: (i32, i32), b: (i32, i32))
    ensures
        pair_key(a) == pair_key(b) <==> a == b,
{
}

/// The key of a pair.
pub fn key_of(pair: (i32, i32)) -> (key: u64)
    ensures
        key == pair_key(pair),
{
    let high: u64 = (pair.0 as i64 + 0x8000_0000) as u64;
    let low: u64 = (pair.1 as i64 + 0x8000_0000) as u64;
    high * 0x1_0000_0000 + low
}

} // verus!
