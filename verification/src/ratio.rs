//! Exact non-negative rational time values.
//!
//! Completion times of fairly shared activities are rationals even when
//! work and bandwidth are integers. Values are kept as numerator and
//! denominator without normalisation; every operation states its result
//! exactly and reports failure precisely when a component would leave the
//! integer range.

use vstd::prelude::*;

verus! {

/// A non-negative rational: `num / den`.
#[derive(Clone, Copy, Debug)]
pub struct Ratio {
    /// Numerator.
    pub num: u64,
    /// Denominator; at least one.
    pub den: u64,
}

/// A valid ratio has a positive denominator.
pub open spec fn ratio_wf(a: Ratio) -> bool {
    a.den >= 1
}

/// Value comparison: `a <= b` as rationals.
pub open spec fn spec_ratio_le(a: Ratio, b: Ratio) -> bool {
    a.num * b.den <= b.num * a.den
}

/// Value comparison: `a < b` as rationals.
pub open spec fn spec_ratio_lt(a: Ratio, b: Ratio) -> bool {
    a.num * b.den < b.num * a.den
}

/// Value equality as rationals.
pub open spec fn spec_ratio_eq(a: Ratio, b: Ratio) -> bool {
    a.num * b.den == b.num * a.den
}

/// The full product of two words.
fn mul_u64(x: u64, y: u64) -> (r: u128)
    ensures
        r == x * y,
{
    proof {
        assert(x <= u64::MAX && y <= u64::MAX ==> x * y <= u128::MAX) by (nonlinear_arith);
    }
    (x as u128) * (y as u128)
}

impl Ratio {
    /// The integer `x` as a ratio.
    pub fn from_int(x: u64) -> (r: Ratio)
        ensures
            ratio_wf(r),
            r.num == x && r.den == 1,
    {
        Ratio { num: x, den: 1 }
    }

    /// Zero.
    pub fn zero() -> (r: Ratio)
        ensures
            ratio_wf(r),
            r.num == 0 && r.den == 1,
    {
        Ratio { num: 0, den: 1 }
    }
}

/// Whether `a <= b` as values.
pub fn ratio_le(a: Ratio, b: Ratio) -> (r: bool)
    requires
        ratio_wf(a),
        ratio_wf(b),
    ensures
        r == spec_ratio_le(a, b),
{
    mul_u64(a.num, b.den) <= mul_u64(b.num, a.den)
}

/// Whether `a < b` as values.
pub fn ratio_lt(a: Ratio, b: Ratio) -> (r: bool)
    requires
        ratio_wf(a),
        ratio_wf(b),
    ensures
        r == spec_ratio_lt(a, b),
{
    mul_u64(a.num, b.den) < mul_u64(b.num, a.den)
}

/// The exact sum's components fit in a word.
pub open spec fn spec_add_fits(a: Ratio, b: Ratio) -> bool {
    a.num * b.den + b.num * a.den <= u64::MAX && a.den * b.den <= u64::MAX
}

/// Adds two ratios exactly; fails exactly when a component overflows.
pub fn ratio_add(a: Ratio, b: Ratio) -> (r: Option<Ratio>)
    requires
        ratio_wf(a),
        ratio_wf(b),
    ensures
        match r {
            Some(c) => {
                &&& spec_add_fits(a, b)
                &&& ratio_wf(c)
                &&& c.num == a.num * b.den + b.num * a.den
                &&& c.den == a.den * b.den
            },
            None => !spec_add_fits(a, b),
        },
{
    let x = mul_u64(a.num, b.den);
    let y = mul_u64(b.num, a.den);
    let den = mul_u64(a.den, b.den);
    proof {
        assert(a.den >= 1 && b.den >= 1 ==> a.den * b.den >= 1) by (nonlinear_arith);
    }
    if x <= u64::MAX as u128 && y <= u64::MAX as u128 && x + y <= u64::MAX as u128 && den
        <= u64::MAX as u128 {
        Some(Ratio { num: (x + y) as u64, den: den as u64 })
    } else {
        None
    }
}

/// The exact difference's components fit in a word.
pub open spec fn spec_sub_fits(a: Ratio, b: Ratio) -> bool {
    a.num * b.den - b.num * a.den <= u64::MAX && a.den * b.den <= u64::MAX
}

/// Subtracts `b` from `a` exactly; `b` must not exceed `a`.
pub fn ratio_sub(a: Ratio, b: Ratio) -> (r: Option<Ratio>)
    requires
        ratio_wf(a),
        ratio_wf(b),
        spec_ratio_le(b, a),
    ensures
        match r {
            Some(c) => {
                &&& spec_sub_fits(a, b)
                &&& ratio_wf(c)
                &&& c.num == a.num * b.den - b.num * a.den
                &&& c.den == a.den * b.den
            },
            None => !spec_sub_fits(a, b),
        },
{
    let x = mul_u64(a.num, b.den);
    let y = mul_u64(b.num, a.den);
    let den = mul_u64(a.den, b.den);
    proof {
        assert(a.den >= 1 && b.den >= 1 ==> a.den * b.den >= 1) by (nonlinear_arith);
    }
    let num = x - y;
    if num <= u64::MAX as u128 && den <= u64::MAX as u128 {
        Some(Ratio { num: num as u64, den: den as u64 })
    } else {
        None
    }
}

/// The exact product's numerator fits in a word.
pub open spec fn spec_mul_int_fits(a: Ratio, k: u64) -> bool {
    a.num * k <= u64::MAX
}

/// Multiplies by an integer exactly; fails exactly on overflow.
pub fn ratio_mul_int(a: Ratio, k: u64) -> (r: Option<Ratio>)
    requires
        ratio_wf(a),
    ensures
        match r {
            Some(c) => {
                &&& spec_mul_int_fits(a, k)
                &&& ratio_wf(c)
                &&& c.num == a.num * k
                &&& c.den == a.den
            },
            None => !spec_mul_int_fits(a, k),
        },
{
    let num = mul_u64(a.num, k);
    if num <= u64::MAX as u128 {
        Some(Ratio { num: num as u64, den: a.den })
    } else {
        None
    }
}

/// The denominator after dividing by `k` fits in a word.
pub open spec fn spec_div_int_fits(a: Ratio, k: u64) -> bool {
    a.den * k <= u64::MAX
}

/// Divides by a positive integer exactly; fails exactly on overflow.
pub fn ratio_div_int(a: Ratio, k: u64) -> (r: Option<Ratio>)
    requires
        ratio_wf(a),
        k >= 1,
    ensures
        match r {
            Some(c) => {
                &&& spec_div_int_fits(a, k)
                &&& ratio_wf(c)
                &&& c.num == a.num
                &&& c.den == a.den * k
            },
            None => !spec_div_int_fits(a, k),
        },
{
    let den = mul_u64(a.den, k);
    proof {
        assert(a.den >= 1 && k >= 1 ==> a.den * k >= 1) by (nonlinear_arith);
    }
    if den <= u64::MAX as u128 {
        Some(Ratio { num: a.num, den: den as u64 })
    } else {
        None
    }
}

} // verus!
