//! Constant-filled vectors.

use vstd::prelude::*;

verus! {

/// A vector of `len` copies of `value`.
pub fn filled_bools(len: usize, value: bool) -> (filled: Vec<bool>)
    ensures
        filled@ == Seq::new(len as nat, |i: int| value),
{
    let mut filled: Vec<bool> = Vec::with_capacity(len);
    let mut i: usize = 0;
    while i < len
        invariant
            i <= len,
            filled@ == Seq::new(i as nat, |k: int| value),
        decreases len - i,
    {
        filled.push(value);
        i = i + 1;
    }
    filled
}

/// A vector of `len` copies of `value`.
pub fn filled_u32s(len: usize, value: u32) -> (filled: Vec<u32>)
    ensures
        filled@ == Seq::new(len as nat, |i: int| value),
{
    let mut filled: Vec<u32> = Vec::with_capacity(len);
    let mut i: usize = 0;
    while i < len
        invariant
            i <= len,
            filled@ == Seq::new(i as nat, |k: int| value),
        decreases len - i,
    {
        filled.push(value);
        i = i + 1;
    }
    filled
}

} // verus!
