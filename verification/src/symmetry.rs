//! What arithmetic on bit patterns keeps: it depends on numbers alone, not on the
//! sign of a zero, and it treats both signs alike.
use vstd::prelude::*;
use vstd::arithmetic::power2::{lemma_pow2_pos, pow2};
use crate::float32::{
    F32, abs_int, f_abs, f_add, f_div, f_le, f_mul, f_neg, f_sqrt, f_sub, lemma_magnitude_monotone,
    lemma_magnitude_nonneg, lemma_rounding_passes_no_pattern, magnitude,
};

verus! {

/// Two values are the same number, or opposite numbers.
pub open spec fn matches_up_to_sign(x: F32, y: F32, opposite: bool) -> bool {
    ||| x.nan() && y.nan()
    ||| !x.nan() && !y.nan() && x.order() == (if opposite { -y.order() } else { y.order() })
}

/// A value and its negation are opposite.
pub proof fn lemma_negation_is_opposite(x: F32)
    ensures
        matches_up_to_sign(f_neg(x), x, true),
        matches_up_to_sign(x, f_neg(x), true),
        matches_up_to_sign(x, x, false),
{
}

/// What matching patterns have in common.
proof fn lemma_matching_parts(x: F32, y: F32, opposite: bool)
    requires
        matches_up_to_sign(x, y, opposite),
        !x.nan(),
    ensures
        x.unsigned() == y.unsigned(),
        x.infinite() == y.infinite(),
        x.zero() == y.zero(),
        !x.zero() ==> x.negative() == (y.negative() != opposite),
        x.value() == (if opposite { -y.value() } else { y.value() }),
{
    assert(magnitude(0) == 0);
}

pub proof fn lemma_sums_match(a: F32, b: F32, c: F32, d: F32, opposite: bool)
    requires
        matches_up_to_sign(a, c, opposite),
        matches_up_to_sign(b, d, opposite),
    ensures
        matches_up_to_sign(f_add(a, b), f_add(c, d), opposite),
{
    reveal(f_add);
    if !a.nan() && !b.nan() {
        lemma_matching_parts(a, c, opposite);
        lemma_matching_parts(b, d, opposite);
        let x = a.value() + b.value();
        lemma_rounding_passes_no_pattern(abs_int(x), 1, 0);
    }
}

pub proof fn lemma_differences_match(a: F32, b: F32, c: F32, d: F32, opposite: bool)
    requires
        matches_up_to_sign(a, c, opposite),
        matches_up_to_sign(b, d, opposite),
    ensures
        matches_up_to_sign(f_sub(a, b), f_sub(c, d), opposite),
{
    reveal(f_sub);
    if !b.nan() {
        lemma_sums_match(a, f_neg(b), c, f_neg(d), opposite);
    }
}

pub proof fn lemma_products_match(a: F32, b: F32, c: F32, d: F32, first: bool, second: bool)
    requires
        matches_up_to_sign(a, c, first),
        matches_up_to_sign(b, d, second),
    ensures
        matches_up_to_sign(f_mul(a, b), f_mul(c, d), first != second),
{
    reveal(f_mul);
    if !a.nan() && !b.nan() {
        lemma_matching_parts(a, c, first);
        lemma_matching_parts(b, d, second);
        let m = magnitude(a.unsigned());
        let n = magnitude(b.unsigned());
        lemma_magnitude_nonneg(a.unsigned());
        lemma_magnitude_nonneg(b.unsigned());
        lemma_pow2_pos(149);
        assert(m * n >= 0) by (nonlinear_arith)
            requires
                m >= 0,
                n >= 0,
        ;
        lemma_rounding_passes_no_pattern(m * n, pow2(149) as int, 0);
        if (a.zero() || b.zero()) && a.finite() && b.finite() {
            assert(magnitude(0) == 0);
            assert(m * n == 0 && magnitude(0) * pow2(149) == 0) by (nonlinear_arith)
                requires
                    m == 0 || n == 0,
                    magnitude(0) == 0,
            ;
        }
    }
}

pub proof fn lemma_quotients_match(a: F32, b: F32, c: F32, d: F32, first: bool, second: bool)
    requires
        matches_up_to_sign(a, c, first),
        matches_up_to_sign(b, d, second),
        !b.zero(),
    ensures
        matches_up_to_sign(f_div(a, b), f_div(c, d), first != second),
{
    reveal(f_div);
    if !a.nan() && !b.nan() {
        lemma_matching_parts(a, c, first);
        lemma_matching_parts(b, d, second);
        let m = magnitude(a.unsigned()) * pow2(149);
        let n = magnitude(b.unsigned());
        lemma_magnitude_nonneg(a.unsigned());
        lemma_magnitude_monotone(0, b.unsigned());
        assert(magnitude(0) == 0);
        lemma_pow2_pos(149);
        assert(m >= 0) by (nonlinear_arith)
            requires
                m == magnitude(a.unsigned()) * pow2(149),
                magnitude(a.unsigned()) >= 0,
        ;
        lemma_rounding_passes_no_pattern(m, n, 0);
        if a.zero() {
            assert(m == 0) by (nonlinear_arith)
                requires
                    m == magnitude(a.unsigned()) * pow2(149),
                    magnitude(a.unsigned()) == 0,
            ;
            assert(0 <= magnitude(0) * n) by (nonlinear_arith)
                requires
                    magnitude(0) == 0,
            ;
        }
    }
}

pub proof fn lemma_roots_match(a: F32, b: F32)
    requires
        matches_up_to_sign(a, b, false),
        f_le(F32 { bits: 0 }, a),
    ensures
        matches_up_to_sign(f_sqrt(a), f_sqrt(b), false),
{
    reveal(f_sqrt);
    lemma_matching_parts(a, b, false);
}

pub proof fn lemma_sizes_match(a: F32, b: F32, opposite: bool)
    requires
        matches_up_to_sign(a, b, opposite),
    ensures
        matches_up_to_sign(f_abs(a), f_abs(b), false),
        a.nan() == b.nan(),
{
}

}
