//! Signed fixed point with 65 integer and 63 fractional bits, held as the raw
//! `i128` bit pattern: the value of `x` is `x / 2^63`.

use substrate_fixed::transcendental;
use substrate_fixed::types::I65F63;
use vstd::arithmetic::div_mod::{lemma_fundamental_div_mod, lemma_mod_bound};
use vstd::prelude::*;

verus! {

/// The bit pattern of 1.0.
pub const ONE: i128 = 0x8000_0000_0000_0000;

/// The largest `u32`, the full scale of a quantized weight.
pub const U32_MAX: u64 = 0xffff_ffff;

/// The largest `u64`, the full scale of a committed fraction.
pub const U64_MAX: u64 = 0xffff_ffff_ffff_ffff;

pub open spec fn fits(x: int) -> bool {
    i128::MIN <= x <= i128::MAX
}

/// Bits of the product: the exact product of the values, rounded down.
pub open spec fn mul_spec(a: int, b: int) -> int {
    (a * b) / (ONE as int)
}

/// Bits of the quotient of two non-negative values, rounded down.
pub open spec fn div_spec(a: int, b: int) -> int {
    (a * ONE as int) / b
}

/// What `exp` of substrate-fixed returns on the given bits (`None` for its error).
pub uninterp spec fn exp_of(x: i128) -> Option<i128>;

/// What `log2` of substrate-fixed returns on the given bits (`None` for its error).
pub uninterp spec fn log2_of(x: i128) -> Option<i128>;

/// Relies on `I65F63::checked_mul`: the full product shifted right by the
/// fractional bits, `None` exactly when that does not fit. Its wide product
/// asserts against a negative carry, which two negative operands can produce,
/// so one operand is non-negative.
#[verifier::external_body]
pub(crate) fn checked_mul(a: i128, b: i128) -> (r: Option<i128>)
    requires
        a >= 0 || b >= 0,
    ensures
        r.is_some() <==> fits(mul_spec(a as int, b as int)),
        r.is_some() ==> r.unwrap() == mul_spec(a as int, b as int),
{
    match I65F63::from_bits(a).checked_mul(I65F63::from_bits(b)) {
        Some(x) => Some(x.to_bits()),
        None => None,
    }
}

/// Relies on `I65F63::checked_div`: the quotient, `None` for a zero divisor or
/// when the quotient does not fit. On non-negative operands the quotient
/// rounds down.
#[verifier::external_body]
pub(crate) fn checked_div(a: i128, b: i128) -> (r: Option<i128>)
    requires
        a >= 0,
        b > 0,
    ensures
        r.is_some() <==> fits(div_spec(a as int, b as int)),
        r.is_some() ==> r.unwrap() == div_spec(a as int, b as int) && r.unwrap() >= 0,
{
    match I65F63::from_bits(a).checked_div(I65F63::from_bits(b)) {
        Some(x) => Some(x.to_bits()),
        None => None,
    }
}

/// Relies on `substrate_fixed::transcendental::exp` from `I65F63` to `I65F63`:
/// a fixed series that depends on its argument alone.
#[verifier::external_body]
pub(crate) fn exp(x: i128) -> (r: Option<i128>)
    ensures
        r == exp_of(x),
{
    match transcendental::exp::<I65F63, I65F63>(I65F63::from_bits(x)) {
        Ok(v) => Some(v.to_bits()),
        Err(_) => None,
    }
}

/// Relies on `substrate_fixed::transcendental::log2` from `I65F63` to `I65F63`:
/// it depends on its argument alone, on an argument of at least one it
/// succeeds with a result built up from zero by adding and shifting in bits,
/// and on exactly one it returns zero.
#[verifier::external_body]
pub(crate) fn log2(x: i128) -> (r: Option<i128>)
    ensures
        r == log2_of(x),
        x >= ONE ==> (r.is_some() && r.unwrap() >= 0),
        x == ONE ==> r == Some(0i128),
{
    match transcendental::log2::<I65F63, I65F63>(I65F63::from_bits(x)) {
        Ok(v) => Some(v.to_bits()),
        Err(_) => None,
    }
}

/// Rounding down keeps the quotient within one divisor below the dividend.
pub proof fn lemma_floor_div(a: int, t: int)
    requires
        t > 0,
    ensures
        t * (a / t) <= a < t * (a / t) + t,
{
    lemma_fundamental_div_mod(a, t);
    lemma_mod_bound(a, t);
}

/// A fraction of two token amounts, the smaller over the larger, and its
/// product with a fraction of at most one both lie between zero and one.
pub proof fn lemma_fraction_bounds(b: int, t: int, keep: int)
    requires
        0 <= b <= t,
        t >= 1,
        0 <= keep <= ONE,
    ensures
        0 <= div_spec(b * ONE as int, t * ONE as int) <= ONE,
        0 <= mul_spec(keep, div_spec(b * ONE as int, t * ONE as int)) <= ONE,
{
    let one = ONE as int;
    let a = b * one * one;
    let d = t * one;
    assert(d > 0) by (nonlinear_arith)
        requires t >= 1, one > 0, d == t * one;
    assert(b * one * one == (b * one) * one) by (nonlinear_arith);
    lemma_floor_div(b * one * one, d);
    let f = (b * one * one) / d;
    assert(0 <= a <= d * one) by (nonlinear_arith)
        requires 0 <= b <= t, one > 0, a == b * one * one, d == t * one;
    assert(0 <= f <= one) by (nonlinear_arith)
        requires d * f <= a, a < d * f + d, 0 <= a <= d * one, d > 0;
    assert(div_spec(b * one, t * one) == f);
    lemma_floor_div(keep * f, one);
    let g = (keep * f) / one;
    assert(0 <= keep * f <= one * one) by (nonlinear_arith)
        requires 0 <= keep <= one, 0 <= f <= one;
    assert(0 <= g <= one) by (nonlinear_arith)
        requires one * g <= keep * f, keep * f < one * g + one, 0 <= keep * f <= one * one, one > 0;
}

/// The product of two non-negative values is non-negative.
pub proof fn lemma_mul_nonneg(a: int, b: int)
    requires
        a >= 0,
        b >= 0,
    ensures
        mul_spec(a, b) >= 0,
{
    assert(a * b >= 0) by (nonlinear_arith)
        requires a >= 0, b >= 0;
    lemma_floor_div(a * b, ONE as int);
    assert(mul_spec(a, b) >= 0) by (nonlinear_arith)
        requires ONE as int * mul_spec(a, b) <= a * b, a * b < ONE as int * mul_spec(a, b) + ONE as int, a * b >= 0, ONE > 0;
}

/// Scaling by a fraction between zero and one stays between zero and the
/// value scaled.
pub proof fn lemma_scale_within(s: int, w: int)
    requires
        0 <= w <= ONE,
    ensures
        s >= 0 ==> 0 <= mul_spec(s, w) <= s,
        s < 0 ==> s <= mul_spec(s, w) <= 0,
{
    let one = ONE as int;
    lemma_floor_div(s * w, one);
    let q = (s * w) / one;
    if s >= 0 {
        assert(0 <= s * w <= s * one) by (nonlinear_arith)
            requires s >= 0, 0 <= w <= one;
        assert(0 <= q <= s) by (nonlinear_arith)
            requires one * q <= s * w, s * w < one * q + one, 0 <= s * w <= s * one, one > 0;
    } else {
        assert(s * one <= s * w <= 0) by (nonlinear_arith)
            requires s < 0, 0 <= w <= one;
        assert(s <= q <= 0) by (nonlinear_arith)
            requires one * q <= s * w, s * w < one * q + one, s * one <= s * w <= 0, one > 0;
    }
}

/// Dividing by at least one never grows a non-negative value.
pub proof fn lemma_div_shrinks(a: int, d: int)
    requires
        0 <= a,
        d >= ONE,
    ensures
        0 <= div_spec(a, d) <= a,
{
    let one = ONE as int;
    lemma_floor_div(a * one, d);
    let q = (a * one) / d;
    assert(0 <= q <= a) by (nonlinear_arith)
        requires d * q <= a * one, a * one < d * q + d, d >= one, one > 0, a >= 0;
}

/// The bits of an unsigned integer.
pub fn from_u64(x: u64) -> (r: i128)
    ensures
        r == x as int * ONE as int,
        0 <= r,
{
    assert(x as int * ONE as int <= i128::MAX) by (nonlinear_arith)
        requires x <= U64_MAX, ONE == 0x8000_0000_0000_0000i128;
    (x as i128) * ONE
}

/// The integer part of a non-negative value, rounded toward zero.
pub fn to_u64(x: i128) -> (r: u64)
    requires
        x >= 0,
    ensures
        r as int == x as int / ONE as int,
{
    (x / ONE) as u64
}

} // verus!
