//! Exact rational model of the dirty fraction.
//!
//! The fraction of a region to dirty lies in the closed interval from zero to
//! one. It is held as a rational number so that the dirtied byte count,
//! `round(size * fraction)` with halves rounded up, is computed exactly.

use vstd::prelude::*;

use crate::BenchError;

verus! {

/// A fraction in the closed interval `[0, 1]`, held as `num / den`.
#[derive(Clone, Copy, Debug, PartialEq, Eq, Structural)]
pub struct DirtyFraction {
    pub num: u32,
    pub den: u32,
}

impl DirtyFraction {
    /// A valid fraction has a positive denominator and lies in `[0, 1]`.
    pub open spec fn wf(&self) -> bool {
        0 < self.den && self.num <= self.den
    }

    /// Builds a fraction, rejecting one outside the closed interval `[0, 1]`.
    pub fn new(num: u32, den: u32) -> (r: Result<DirtyFraction, BenchError>)
        ensures
            r is Ok <==> (0 < den && num <= den),
            r matches Ok(f) ==> f == (DirtyFraction { num, den }) && f.wf(),
            r is Err ==> r == Err::<DirtyFraction, BenchError>(BenchError::InvalidFraction),
    {
        if 0 < den && num <= den {
            Ok(DirtyFraction { num, den })
        } else {
            Err(BenchError::InvalidFraction)
        }
    }

    /// The fraction zero.
    pub fn zero() -> (r: DirtyFraction)
        ensures
            r.wf(),
            r.num == 0,
            r.den == 1,
    {
        DirtyFraction { num: 0, den: 1 }
    }

    /// The fraction one.
    pub fn one() -> (r: DirtyFraction)
        ensures
            r.wf(),
            r.num == 1,
            r.den == 1,
    {
        DirtyFraction { num: 1, den: 1 }
    }
}

/// `round(size * num / den)` with halves rounded up: the number of bytes to
/// dirty in a region of `size` bytes.
pub open spec fn dirty_byte_count_spec(size: int, num: int, den: int) -> int
    recommends
        0 < den,
{
    (2 * size * num + den) / (2 * den)
}

/// The dirtied byte count never exceeds the region size when the fraction is
/// at most one, and is zero exactly when `size * num` is small enough that
/// the product rounds down to nothing.
pub proof fn lemma_dirty_byte_count_bounds(size: int, num: int, den: int)
    requires
        0 <= size,
        0 < den,
        0 <= num <= den,
    ensures
        0 <= dirty_byte_count_spec(size, num, den) <= size,
{
    assert(0 <= 2 * size * num + den) by (nonlinear_arith)
        requires
            0 <= size && 0 <= num && 0 < den,
    ;
    let t = 2 * size * num + den;
    assert(t / (2 * den) >= 0) by {
        vstd::arithmetic::div_mod::lemma_div_pos_is_pos(t, 2 * den);
    }
    assert(2 * size * num + den <= 2 * size * den + den) by (nonlinear_arith)
        requires
            0 <= size && num <= den,
    ;
    vstd::arithmetic::div_mod::lemma_div_is_ordered(t, 2 * size * den + den, 2 * den);
    assert(2 * size * den + den == size * (2 * den) + den) by (nonlinear_arith);
    assert((2 * size * den + den) / (2 * den) == size) by {
        vstd::arithmetic::div_mod::lemma_fundamental_div_mod_converse(
            2 * size * den + den,
            2 * den,
            size,
            den,
        );
    }
}

/// The number of bytes that dirtying a region of `size` bytes with fraction
/// `frac` writes: `round(size * frac)`, exactly.
pub fn dirty_byte_count(size: usize, frac: DirtyFraction) -> (r: usize)
    requires
        frac.wf(),
    ensures
        r == dirty_byte_count_spec(size as int, frac.num as int, frac.den as int),
        r <= size,
{
    let s = size as u128;
    let n = frac.num as u128;
    let d = frac.den as u128;
    proof {
        assert(2 * s * n + d < u128::MAX) by (nonlinear_arith)
            requires
                s <= u64::MAX && n < 0x1_0000_0000 && d < 0x1_0000_0000,
        ;
        lemma_dirty_byte_count_bounds(size as int, frac.num as int, frac.den as int);
    }
    let t: u128 = 2 * s * n + d;
    let q: u128 = t / (2 * d);
    q as usize
}

} // verus!
