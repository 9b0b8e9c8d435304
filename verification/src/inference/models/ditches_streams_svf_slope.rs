//! Index arithmetic of the stream model's raster padding.

use vstd::prelude::*;

verus! {

/// The position that index `index` reads in NumPy's `pad(mode="reflect")`
/// extension of an array of `length` cells: the array is mirrored about
/// its edge cells, which are not repeated.
pub open spec fn reflected_position(index: int, length: int) -> int {
    let period = 2 * (length - 1);
    let r = index % period;
    if r < length {
        r
    } else {
        period - r
    }
}

/// Index into the reflect-padded extension of an array of `length` cells.
pub fn reflect_index(index: isize, length: usize) -> (position: usize)
    requires
        length >= 2,
        2 * (length - 1) <= isize::MAX,
    ensures
        position == reflected_position(index as int, length as int),
        position < length,
{
    let period: usize = 2 * (length - 1);
    let reflected: usize = if index >= 0 {
        (index as usize) % period
    } else {
        let magnitude = (-(index + 1)) as usize;
        period - 1 - magnitude % period
    };
    proof {
        let p = period as int;
        let i = index as int;
        if i < 0 {
            let m = -(i + 1);
            vstd::arithmetic::div_mod::lemma_fundamental_div_mod(m, p);
            vstd::arithmetic::div_mod::lemma_mod_bound(m, p);
            let q = m / p;
            let r = m % p;
            assert(i == -(q + 1) * p + (p - 1 - r)) by (nonlinear_arith)
                requires
                    m == p * q + r,
                    m == -(i + 1),
            ;
            vstd::arithmetic::div_mod::lemma_fundamental_div_mod_converse(i, p, -(q + 1), p - 1 - r);
        }
    }
    if reflected < length {
        reflected
    } else {
        period - reflected
    }
}

/// Law: indices inside the array read themselves.
pub proof fn lemma_reflect_inside(index: int, length: int)
    requires
        length >= 2,
        0 <= index < length,
    ensures
        reflected_position(index, length) == index,
{
    vstd::arithmetic::div_mod::lemma_small_mod(index as nat, (2 * (length - 1)) as nat);
}

/// Law: the padding mirrors about the first cell: `-i` reads what `i`
/// reads.
pub proof fn lemma_reflect_mirrors(index: int, length: int)
    requires
        length >= 2,
    ensures
        reflected_position(-index, length) == reflected_position(index, length),
{
    let p = 2 * (length - 1);
    vstd::arithmetic::div_mod::lemma_fundamental_div_mod(index, p);
    vstd::arithmetic::div_mod::lemma_mod_bound(index, p);
    let q = index / p;
    let r = index % p;
    if r == 0 {
        assert(-index == (-q) * p + 0) by (nonlinear_arith)
            requires
                index == p * q + r,
                r == 0,
        ;
        vstd::arithmetic::div_mod::lemma_fundamental_div_mod_converse(-index, p, -q, 0);
    } else {
        assert(-index == (-q - 1) * p + (p - r)) by (nonlinear_arith)
            requires
                index == p * q + r,
        ;
        vstd::arithmetic::div_mod::lemma_fundamental_div_mod_converse(-index, p, -q - 1, p - r);
    }
}

} // verus!
