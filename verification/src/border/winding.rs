//! What the winding number means.
use vstd::prelude::*;
use vstd::arithmetic::power2::{lemma2_to64, lemma_pow2_adds, lemma_pow2_pos, pow2};
use crate::border::curve::{
    COEFFICIENT_EPSILON_BITS, axis_roots, backwards, curve_winding, eval_axis, is_segment, line, lit, root_winding,
    roots_winding, segment_winding, slope_axis, winding,
};
use crate::float32::{
    F32, FOUR_BITS, ONE_BITS, TWO_BITS, f_abs, f_add, f_div, f_eq, f_le, f_lt, f_mul, f_neg, f_sqrt, f_sub,
    law_differences_are_monotone, law_differences_keep_order, law_products_are_monotone, law_sums_are_monotone,
    law_sums_commute, law_sums_keep_order, lemma_distinct_difference, lemma_magnitude_monotone,
    lemma_magnitude_nonneg, lemma_one_is_neutral, lemma_order_is_value_order, lemma_rounding_passes_no_pattern,
    lemma_self_difference, magnitude,
};
use crate::outline::QuadCurve;
use crate::symmetry::{
    lemma_differences_match, lemma_negation_is_opposite, lemma_products_match, lemma_quotients_match,
    lemma_roots_match, lemma_sizes_match, lemma_sums_match, matches_up_to_sign,
};

verus! {

/// A point seen upside down.
pub open spec fn upside_down(p: [F32; 2]) -> [F32; 2] {
    [p[0], f_neg(p[1])]
}

/// A curve seen upside down.
pub open spec fn mirrored(c: QuadCurve) -> QuadCurve {
    QuadCurve { p1: upside_down(c.p1), p2: upside_down(c.p2), p3: upside_down(c.p3) }
}

/// Curves seen upside down.
pub open spec fn all_mirrored(curves: Seq<QuadCurve>) -> Seq<QuadCurve> {
    Seq::new(curves.len(), |i: int| mirrored(curves[i]))
}

/// The level of a point is not crossed at an end of the curve.
pub open spec fn off_ends(c: QuadCurve, p: [F32; 2]) -> bool {
    if is_segment(c) {
        !f_eq(p[1], c.p1[1]) && !f_eq(p[1], c.p3[1])
    } else {
        forall|i: int|
            0 <= i < axis_roots(c, 1, p[1]).len() ==> !f_eq(#[trigger] axis_roots(c, 1, p[1])[i], lit(0)) && !f_eq(
                axis_roots(c, 1, p[1])[i],
                lit(ONE_BITS),
            )
    }
}

pub open spec fn finite_points(c: QuadCurve) -> bool {
    &&& c.p1[0].finite() && c.p1[1].finite()
    &&& c.p2[0].finite() && c.p2[1].finite()
    &&& c.p3[0].finite() && c.p3[1].finite()
}

/// A curve's coordinate depends on the parameter as a number.
proof fn lemma_eval_matches(c: QuadCurve, d: QuadCurve, t: F32, r: F32, axis: int)
    requires
        c.p1[axis] == d.p1[axis],
        c.p2[axis] == d.p2[axis],
        c.p3[axis] == d.p3[axis],
        matches_up_to_sign(t, r, false),
    ensures
        matches_up_to_sign(eval_axis(c, t, axis), eval_axis(d, r, axis), false),
{
    reveal(eval_axis);
    let one = lit(ONE_BITS);
    let two = lit(TWO_BITS);
    let x = c.p1[axis];
    let y = c.p2[axis];
    let z = c.p3[axis];
    let u = f_sub(one, t);
    let v = f_sub(one, r);
    lemma_negation_is_opposite(one);
    lemma_negation_is_opposite(two);
    lemma_negation_is_opposite(x);
    lemma_negation_is_opposite(y);
    lemma_negation_is_opposite(z);
    lemma_differences_match(one, t, one, r, false);
    lemma_products_match(u, u, v, v, false, false);
    lemma_products_match(f_mul(u, u), x, f_mul(v, v), x, false, false);
    lemma_products_match(two, u, two, v, false, false);
    lemma_products_match(f_mul(two, u), t, f_mul(two, v), r, false, false);
    lemma_products_match(f_mul(f_mul(two, u), t), y, f_mul(f_mul(two, v), r), y, false, false);
    lemma_products_match(t, t, r, r, false, false);
    lemma_products_match(f_mul(t, t), z, f_mul(r, r), z, false, false);
    lemma_sums_match(
        f_mul(f_mul(u, u), x),
        f_mul(f_mul(f_mul(two, u), t), y),
        f_mul(f_mul(v, v), x),
        f_mul(f_mul(f_mul(two, v), r), y),
        false,
    );
    lemma_sums_match(
        f_add(f_mul(f_mul(u, u), x), f_mul(f_mul(f_mul(two, u), t), y)),
        f_mul(f_mul(t, t), z),
        f_add(f_mul(f_mul(v, v), x), f_mul(f_mul(f_mul(two, v), r), y)),
        f_mul(f_mul(r, r), z),
        false,
    );
}

/// A curve's slope turns round with the curve.
proof fn lemma_slope_mirrored(c: QuadCurve, t: F32, r: F32)
    requires
        matches_up_to_sign(r, t, false),
    ensures
        matches_up_to_sign(slope_axis(mirrored(c), r, 1), slope_axis(c, t, 1), true),
{
    reveal(slope_axis);
    let m = mirrored(c);
    let one = lit(ONE_BITS);
    let two = lit(TWO_BITS);
    lemma_negation_is_opposite(one);
    lemma_negation_is_opposite(two);
    lemma_negation_is_opposite(c.p1[1]);
    lemma_negation_is_opposite(c.p2[1]);
    lemma_negation_is_opposite(c.p3[1]);
    assert(m.p1[1] == f_neg(c.p1[1]) && m.p2[1] == f_neg(c.p2[1]) && m.p3[1] == f_neg(c.p3[1]));
    lemma_differences_match(one, r, one, t, false);
    lemma_differences_match(m.p2[1], m.p1[1], c.p2[1], c.p1[1], true);
    lemma_differences_match(m.p3[1], m.p2[1], c.p3[1], c.p2[1], true);
    let a = f_sub(m.p2[1], m.p1[1]);
    let b = f_sub(m.p3[1], m.p2[1]);
    let d = f_sub(c.p2[1], c.p1[1]);
    let e = f_sub(c.p3[1], c.p2[1]);
    lemma_products_match(f_sub(one, r), a, f_sub(one, t), d, false, true);
    lemma_products_match(r, b, t, e, false, true);
    lemma_sums_match(f_mul(f_sub(one, r), a), f_mul(r, b), f_mul(f_sub(one, t), d), f_mul(t, e), true);
    lemma_products_match(
        two,
        f_add(f_mul(f_sub(one, r), a), f_mul(r, b)),
        two,
        f_add(f_mul(f_sub(one, t), d), f_mul(t, e)),
        false,
        true,
    );
}

proof fn lemma_root_mirrored(c: QuadCurve, p: [F32; 2], t: F32, r: F32)
    requires
        matches_up_to_sign(r, t, false),
        !f_eq(t, lit(0)),
        !f_eq(t, lit(ONE_BITS)),
    ensures
        root_winding(mirrored(c), upside_down(p), r) == -root_winding(c, p, t),
{
    reveal(root_winding);
    let m = mirrored(c);
    assert(m.p1[0] == c.p1[0] && m.p2[0] == c.p2[0] && m.p3[0] == c.p3[0]);
    assert(upside_down(p)[0] == p[0]);
    lemma_eval_matches(m, c, r, t, 0);
    lemma_slope_mirrored(c, t, r);
}

/// The roots of a quadratic with the given coefficients, as far as it has any.
spec fn roots_from(a: F32, b: F32, k: F32) -> Seq<F32> {
    if f_lt(f_abs(a), lit(COEFFICIENT_EPSILON_BITS)) {
        if f_le(lit(COEFFICIENT_EPSILON_BITS), f_abs(b)) {
            seq![f_div(f_neg(k), b)]
        } else {
            Seq::empty()
        }
    } else {
        let d = f_sub(f_mul(b, b), f_mul(f_mul(lit(FOUR_BITS), a), k));
        if f_le(lit(0), d) {
            let w = f_mul(lit(TWO_BITS), a);
            seq![f_div(f_sub(f_neg(b), f_sqrt(d)), w), f_div(f_add(f_neg(b), f_sqrt(d)), w)]
        } else {
            Seq::empty()
        }
    }
}

/// Two numbers that were computed alike, one from mirrored input.
proof fn lemma_linear_root(b: F32, k: F32, b2: F32, k2: F32)
    requires
        matches_up_to_sign(b2, b, true),
        matches_up_to_sign(k2, k, true),
        f_le(lit(COEFFICIENT_EPSILON_BITS), f_abs(b)),
    ensures
        matches_up_to_sign(f_div(f_neg(k2), b2), f_div(f_neg(k), b), false),
{
    assert(matches_up_to_sign(f_neg(k2), f_neg(k), true));
    lemma_quotients_match(f_neg(k2), b2, f_neg(k), b, true, true);
}

proof fn lemma_discriminants(a: F32, b: F32, k: F32, a2: F32, b2: F32, k2: F32)
    requires
        matches_up_to_sign(a2, a, true),
        matches_up_to_sign(b2, b, true),
        matches_up_to_sign(k2, k, true),
    ensures
        matches_up_to_sign(
            f_sub(f_mul(b2, b2), f_mul(f_mul(lit(FOUR_BITS), a2), k2)),
            f_sub(f_mul(b, b), f_mul(f_mul(lit(FOUR_BITS), a), k)),
            false,
        ),
{
    let four = lit(FOUR_BITS);
    lemma_negation_is_opposite(four);
    lemma_products_match(b2, b2, b, b, true, true);
    lemma_products_match(four, a2, four, a, false, true);
    lemma_products_match(f_mul(four, a2), k2, f_mul(four, a), k, true, true);
    lemma_differences_match(f_mul(b2, b2), f_mul(f_mul(four, a2), k2), f_mul(b, b), f_mul(f_mul(four, a), k), false);
}

proof fn lemma_quadratic_roots(a: F32, b: F32, d: F32, a2: F32, b2: F32, d2: F32)
    requires
        matches_up_to_sign(a2, a, true),
        matches_up_to_sign(b2, b, true),
        matches_up_to_sign(d2, d, false),
        f_le(lit(0), d2),
        !a2.zero(),
    ensures
        ({
            let w = f_mul(lit(TWO_BITS), a);
            let w2 = f_mul(lit(TWO_BITS), a2);
            &&& matches_up_to_sign(f_div(f_sub(f_neg(b2), f_sqrt(d2)), w2), f_div(f_add(f_neg(b), f_sqrt(d)), w), false)
            &&& matches_up_to_sign(f_div(f_add(f_neg(b2), f_sqrt(d2)), w2), f_div(f_sub(f_neg(b), f_sqrt(d)), w), false)
        }),
{
    let two = lit(TWO_BITS);
    lemma_negation_is_opposite(two);
    lemma_roots_match(d2, d);
    lemma_products_match(two, a2, two, a, false, true);
    lemma_doubled_is_not_zero(a2);
    let s = f_sqrt(d);
    let s2 = f_sqrt(d2);
    let w = f_mul(two, a);
    let w2 = f_mul(two, a2);
    assert(matches_up_to_sign(f_neg(b2), f_neg(b), true));
    assert(matches_up_to_sign(f_neg(s2), s, true));
    assert(matches_up_to_sign(s2, f_neg(s), true));
    lemma_difference_is_sum(f_neg(b2), s2);
    lemma_difference_is_sum(f_neg(b), s);
    lemma_sums_match(f_neg(b2), f_neg(s2), f_neg(b), s, true);
    lemma_sums_match(f_neg(b2), s2, f_neg(b), f_neg(s), true);
    lemma_quotients_match(f_sub(f_neg(b2), s2), w2, f_add(f_neg(b), s), w, true, true);
    lemma_quotients_match(f_add(f_neg(b2), s2), w2, f_sub(f_neg(b), s), w, true, true);
}

proof fn lemma_roots_from_mirrored(a: F32, b: F32, k: F32, a2: F32, b2: F32, k2: F32)
    requires
        matches_up_to_sign(a2, a, true),
        matches_up_to_sign(b2, b, true),
        matches_up_to_sign(k2, k, true),
    ensures
        ({
            let r = roots_from(a2, b2, k2);
            let t = roots_from(a, b, k);
            &&& r.len() == t.len() <= 2
            &&& forall|i: int| 0 <= i < t.len() ==> matches_up_to_sign(r[t.len() - 1 - i], #[trigger] t[i], false)
        }),
{
    lemma_sizes_match(a2, a, true);
    lemma_sizes_match(b2, b, true);
    let d = f_sub(f_mul(b, b), f_mul(f_mul(lit(FOUR_BITS), a), k));
    let d2 = f_sub(f_mul(b2, b2), f_mul(f_mul(lit(FOUR_BITS), a2), k2));
    if f_lt(f_abs(a), lit(COEFFICIENT_EPSILON_BITS)) {
        if f_le(lit(COEFFICIENT_EPSILON_BITS), f_abs(b)) {
            lemma_linear_root(b, k, b2, k2);
        }
    } else {
        lemma_discriminants(a, b, k, a2, b2, k2);
        if f_le(lit(0), d) {
            lemma_quadratic_roots(a, b, d, a2, b2, d2);
        }
    }
}

/// The crossings of the mirrored level are those of the level, in the other order.
proof fn lemma_roots_mirrored(c: QuadCurve, p: [F32; 2])
    ensures
        ({
            let r = axis_roots(mirrored(c), 1, f_neg(p[1]));
            let t = axis_roots(c, 1, p[1]);
            &&& r.len() == t.len() <= 2
            &&& forall|i: int| 0 <= i < t.len() ==> matches_up_to_sign(r[t.len() - 1 - i], #[trigger] t[i], false)
        }),
{
    reveal(axis_roots);
    let m = mirrored(c);
    let two = lit(TWO_BITS);
    let at = p[1];
    let back = f_neg(at);
    let y1 = c.p1[1];
    let y2 = c.p2[1];
    let y3 = c.p3[1];
    let z1 = m.p1[1];
    let z2 = m.p2[1];
    let z3 = m.p3[1];
    assert(z1 == f_neg(y1) && z2 == f_neg(y2) && z3 == f_neg(y3));
    lemma_negation_is_opposite(y1);
    lemma_negation_is_opposite(y2);
    lemma_negation_is_opposite(y3);
    lemma_negation_is_opposite(at);
    lemma_negation_is_opposite(two);
    lemma_products_match(two, z2, two, y2, false, true);
    lemma_differences_match(z1, f_mul(two, z2), y1, f_mul(two, y2), true);
    lemma_sums_match(f_sub(z1, f_mul(two, z2)), z3, f_sub(y1, f_mul(two, y2)), y3, true);
    let a = f_add(f_sub(y1, f_mul(two, y2)), y3);
    let a2 = f_add(f_sub(z1, f_mul(two, z2)), z3);
    lemma_differences_match(z2, z1, y2, y1, true);
    lemma_products_match(two, f_sub(z2, z1), two, f_sub(y2, y1), false, true);
    let b = f_mul(two, f_sub(y2, y1));
    let b2 = f_mul(two, f_sub(z2, z1));
    lemma_differences_match(z1, back, y1, at, true);
    let k = f_sub(y1, at);
    let k2 = f_sub(z1, back);
    lemma_roots_from_mirrored(a, b, k, a2, b2, k2);
    assert(axis_roots(c, 1, at) == roots_from(a, b, k));
    assert(axis_roots(m, 1, back) == roots_from(a2, b2, k2));
}

/// Seen upside down, a segment winds the other way.
proof fn lemma_segment_mirrored(a: [F32; 2], b: [F32; 2], p: [F32; 2])
    requires
        a[1].finite(),
        b[1].finite(),
        !f_eq(p[1], a[1]),
        !f_eq(p[1], b[1]),
    ensures
        segment_winding(upside_down(a), upside_down(b), upside_down(p)) == -segment_winding(a, b, p),
{
    reveal(segment_winding);
    let a2 = upside_down(a);
    let b2 = upside_down(b);
    let p2 = upside_down(p);
    assert(a2[0] == a[0] && b2[0] == b[0] && p2[0] == p[0]);
    assert(a2[1] == f_neg(a[1]) && b2[1] == f_neg(b[1]) && p2[1] == f_neg(p[1]));
    lemma_negation_is_opposite(a[1]);
    lemma_negation_is_opposite(b[1]);
    lemma_negation_is_opposite(p[1]);
    lemma_negation_is_opposite(a[0]);
    let e = f_sub(b[0], a[0]);
    lemma_negation_is_opposite(e);
    if !f_eq(a[1], b[1]) {
        lemma_distinct_difference(b[1], a[1]);
        lemma_distinct_difference(b2[1], a2[1]);
        lemma_differences_match(p2[1], a2[1], p[1], a[1], true);
        lemma_differences_match(b2[1], a2[1], b[1], a[1], true);
        let s = f_div(f_sub(p[1], a[1]), f_sub(b[1], a[1]));
        let s2 = f_div(f_sub(p2[1], a2[1]), f_sub(b2[1], a2[1]));
        lemma_quotients_match(
            f_sub(p2[1], a2[1]),
            f_sub(b2[1], a2[1]),
            f_sub(p[1], a[1]),
            f_sub(b[1], a[1]),
            true,
            true,
        );
        lemma_products_match(e, s2, e, s, false, false);
        lemma_sums_match(a[0], f_mul(e, s2), a[0], f_mul(e, s), false);
    }
}

/// Winding is signed: seen upside down, every curve, straight or not, adds the opposite
/// to the winding number of a point whose level it does not cross at an end.
pub proof fn law_mirrored_curves_wind_oppositely(c: QuadCurve, p: [F32; 2])
    requires
        c.p1[1].finite(),
        c.p3[1].finite(),
        off_ends(c, p),
    ensures
        curve_winding(mirrored(c), upside_down(p)) == -curve_winding(c, p),
{
    let m = mirrored(c);
    assert(is_segment(m) == is_segment(c)) by {
        assert(m.p1[0] == c.p1[0] && m.p2[0] == c.p2[0] && m.p3[0] == c.p3[0]);
        assert(m.p1[1] == f_neg(c.p1[1]) && m.p2[1] == f_neg(c.p2[1]) && m.p3[1] == f_neg(c.p3[1]));
    }
    if is_segment(c) {
        lemma_segment_mirrored(c.p1, c.p3, p);
    } else {
        let r = axis_roots(m, 1, f_neg(p[1]));
        let t = axis_roots(c, 1, p[1]);
        assert(upside_down(p)[1] == f_neg(p[1]));
        lemma_roots_mirrored(c, p);
        reveal_with_fuel(roots_winding, 3);
        if t.len() == 1 {
            assert(matches_up_to_sign(r[0], t[0], false));
            lemma_root_mirrored(c, p, t[0], r[0]);
            assert(r.drop_last() =~= Seq::empty() && t.drop_last() =~= Seq::empty());
        } else if t.len() == 2 {
            assert(matches_up_to_sign(r[1], t[0], false));
            assert(matches_up_to_sign(r[0], t[1], false));
            lemma_root_mirrored(c, p, t[0], r[1]);
            lemma_root_mirrored(c, p, t[1], r[0]);
            assert(r.drop_last().drop_last() =~= Seq::empty() && t.drop_last().drop_last() =~= Seq::empty());
        }
    }
}

/// Winding is signed: seen upside down, a picture winds the other way round every point
/// whose level no curve crosses at an end.
pub proof fn law_mirrored_pictures_wind_oppositely(curves: Seq<QuadCurve>, p: [F32; 2], n: nat)
    requires
        n <= curves.len(),
        forall|i: int|
            0 <= i < curves.len() ==> (#[trigger] curves[i]).p1[1].finite() && curves[i].p3[1].finite() && off_ends(
                curves[i],
                p,
            ),
    ensures
        winding(all_mirrored(curves), upside_down(p), n) == -winding(curves, p, n),
    decreases n,
{
    if n > 0 {
        law_mirrored_pictures_wind_oppositely(curves, p, (n - 1) as nat);
        law_mirrored_curves_wind_oppositely(curves[n - 1], p);
    }
}

/// Twice a number other than zero is not zero.
proof fn lemma_doubled_is_not_zero(a: F32)
    requires
        !a.zero(),
    ensures
        !f_mul(lit(TWO_BITS), a).zero(),
{
    reveal(f_mul);
    if a.finite() {
        lemma_pow2_pos(149);
        let u = pow2(149) as int;
        let m = magnitude(a.unsigned());
        let t = magnitude(TWO_BITS as int);
        assert(t == 2 * u) by {
            lemma2_to64();
            lemma_pow2_adds(23, 127);
            lemma_pow2_adds(1, 149);
            assert(TWO_BITS as int / 0x80_0000 == 128 && TWO_BITS as int % 0x80_0000 == 0);
        }
        lemma_magnitude_nonneg(a.unsigned());
        assert(m * u <= t * m && t * m >= 0) by (nonlinear_arith)
            requires
                t == 2 * u,
                u > 0,
                m >= 0,
        ;
        lemma_rounding_passes_no_pattern(t * m, u, a.unsigned());
    }
}

proof fn lemma_difference_is_sum(a: F32, b: F32)
    ensures
        f_sub(a, b) == f_add(a, f_neg(b)),
{
    reveal(f_sub);
    reveal(f_add);
}

/// Not below zero, if it is a number.
spec fn not_below_zero(x: F32) -> bool {
    x.nan() || x.order() >= 0
}

proof fn lemma_sum_not_below_zero(a: F32, b: F32)
    requires
        not_below_zero(a),
        not_below_zero(b),
    ensures
        not_below_zero(f_add(a, b)),
{
    reveal(f_add);
    if a.finite() && b.finite() {
        lemma_magnitude_nonneg(a.unsigned());
        lemma_magnitude_nonneg(b.unsigned());
        assert(magnitude(0) == 0);
        lemma_rounding_passes_no_pattern(a.value() + b.value(), 1, 0);
    }
}

proof fn lemma_product_not_below_zero(a: F32, b: F32)
    requires
        not_below_zero(a),
        not_below_zero(b),
    ensures
        not_below_zero(f_mul(a, b)),
{
    // A zero with a sign is the same number as one without.
    let c = f_abs(a);
    let d = f_abs(b);
    lemma_products_match(a, b, c, d, false, false);
    reveal(f_mul);
    if c.finite() && d.finite() {
        lemma_magnitude_nonneg(c.unsigned());
        lemma_magnitude_nonneg(d.unsigned());
        lemma_pow2_pos(149);
        let n = magnitude(c.unsigned()) * magnitude(d.unsigned());
        assert(n >= 0) by (nonlinear_arith)
            requires
                n == magnitude(c.unsigned()) * magnitude(d.unsigned()),
                magnitude(c.unsigned()) >= 0,
                magnitude(d.unsigned()) >= 0,
        ;
        lemma_rounding_passes_no_pattern(n, pow2(149) as int, 0);
    }
}

proof fn lemma_difference_not_below_zero(a: F32, b: F32)
    requires
        a.finite(),
        b.finite(),
        f_le(b, a),
    ensures
        not_below_zero(f_sub(a, b)),
{
    lemma_self_difference(b);
    law_differences_are_monotone(b, a, b);
}

/// A curve whose points rise is crossed upwards only: it never takes from the winding
/// number.
pub proof fn law_rising_curves_never_take(c: QuadCurve, p: [F32; 2])
    requires
        c.p1[1].finite(),
        c.p2[1].finite(),
        c.p3[1].finite(),
        f_le(c.p1[1], c.p2[1]),
        f_le(c.p2[1], c.p3[1]),
    ensures
        curve_winding(c, p) >= 0,
{
    if is_segment(c) {
        reveal(segment_winding);
    } else {
        let t = axis_roots(c, 1, p[1]);
        reveal(axis_roots);
        reveal_with_fuel(roots_winding, 3);
        assert(t.len() <= 2);
        if t.len() > 0 {
            lemma_rising_crossing(c, p, t.last());
            if t.len() > 1 {
                assert(t.drop_last().last() == t[0]);
                lemma_rising_crossing(c, p, t[0]);
            }
        }
    }
}

proof fn lemma_rising_crossing(c: QuadCurve, p: [F32; 2], t: F32)
    requires
        c.p1[1].finite(),
        c.p2[1].finite(),
        c.p3[1].finite(),
        f_le(c.p1[1], c.p2[1]),
        f_le(c.p2[1], c.p3[1]),
    ensures
        root_winding(c, p, t) >= 0,
{
    reveal(root_winding);
    let one = lit(ONE_BITS);
    let two = lit(TWO_BITS);
    if f_le(lit(0), t) && f_le(t, one) {
        reveal(slope_axis);
        let u = f_sub(one, t);
        let d = f_sub(c.p2[1], c.p1[1]);
        let e = f_sub(c.p3[1], c.p2[1]);
        lemma_difference_not_below_zero(one, t);
        lemma_difference_not_below_zero(c.p2[1], c.p1[1]);
        lemma_difference_not_below_zero(c.p3[1], c.p2[1]);
        lemma_product_not_below_zero(u, d);
        lemma_product_not_below_zero(t, e);
        lemma_sum_not_below_zero(f_mul(u, d), f_mul(t, e));
        lemma_product_not_below_zero(two, f_add(f_mul(u, d), f_mul(t, e)));
    }
}

/// A curve whose points fall is crossed downwards only: it never adds to the winding
/// number of a point whose level it does not cross at an end.
pub proof fn law_falling_curves_never_add(c: QuadCurve, p: [F32; 2])
    requires
        c.p1[1].finite(),
        c.p2[1].finite(),
        c.p3[1].finite(),
        f_le(c.p2[1], c.p1[1]),
        f_le(c.p3[1], c.p2[1]),
        off_ends(c, p),
    ensures
        curve_winding(c, p) <= 0,
{
    let m = mirrored(c);
    assert(m.p1[1] == f_neg(c.p1[1]) && m.p2[1] == f_neg(c.p2[1]) && m.p3[1] == f_neg(c.p3[1]));
    law_mirrored_curves_wind_oppositely(c, p);
    law_rising_curves_never_take(m, upside_down(p));
}

/// Winding is signed: where a curve is crossed between its ends, the curve traced
/// backwards is crossed the other way. The crossing is at `t` of the one and at the exact
/// complement of the other, and the point lies on the same side of both.
pub proof fn law_crossings_turn_backwards(c: QuadCurve, p: [F32; 2], t: F32)
    requires
        f_lt(lit(0), t),
        f_lt(t, lit(ONE_BITS)),
        f_sub(lit(ONE_BITS), f_sub(lit(ONE_BITS), t)) == t,
        f_le(eval_axis(c, t, 0), p[0]) == f_le(
            eval_axis(backwards(c), f_sub(lit(ONE_BITS), t), 0),
            p[0],
        ),
    ensures
        root_winding(backwards(c), p, f_sub(lit(ONE_BITS), t)) == -root_winding(c, p, t),
{
    reveal(root_winding);
    reveal(slope_axis);
    let one = lit(ONE_BITS);
    let two = lit(TWO_BITS);
    let zero = lit(0);
    let u = f_sub(one, t);
    let b = backwards(c);
    law_differences_are_monotone(zero, t, one);
    lemma_complement_inside(t);
    let y1 = c.p1[1];
    let y2 = c.p2[1];
    let y3 = c.p3[1];
    lemma_negation_is_opposite(t);
    lemma_negation_is_opposite(u);
    lemma_negation_is_opposite(two);
    lemma_turned_difference(y2, y3);
    lemma_turned_difference(y1, y2);
    lemma_products_match(t, f_sub(y2, y3), t, f_sub(y3, y2), false, true);
    lemma_products_match(u, f_sub(y1, y2), u, f_sub(y2, y1), false, true);
    law_sums_commute(f_mul(u, f_sub(y2, y1)), f_mul(t, f_sub(y3, y2)));
    lemma_sums_match(
        f_mul(t, f_sub(y2, y3)),
        f_mul(u, f_sub(y1, y2)),
        f_mul(t, f_sub(y3, y2)),
        f_mul(u, f_sub(y2, y1)),
        true,
    );
    lemma_products_match(
        two,
        f_add(f_mul(t, f_sub(y2, y3)), f_mul(u, f_sub(y1, y2))),
        two,
        f_add(f_mul(t, f_sub(y3, y2)), f_mul(u, f_sub(y2, y1))),
        false,
        true,
    );
}

proof fn lemma_complement_inside(t: F32)
    requires
        f_lt(lit(0), t),
        f_lt(t, lit(ONE_BITS)),
        f_sub(lit(ONE_BITS), f_sub(lit(ONE_BITS), t)) == t,
    ensures
        f_lt(lit(0), f_sub(lit(ONE_BITS), t)),
        f_lt(f_sub(lit(ONE_BITS), t), lit(ONE_BITS)),
{
    let one = lit(ONE_BITS);
    let u = f_sub(one, t);
    law_differences_keep_order(one, t, one);
    law_differences_keep_order(one, t, lit(0));
    lemma_order_is_value_order(t, one);
    lemma_order_is_value_order(lit(0), t);
    assert(magnitude(0) == 0);
    lemma_self_difference(one);
    if u.order() == 0 {
        // One less zero is one.
        law_differences_keep_order(one, u, one);
    }
    if u.order() == one.order() {
        assert(u == one);
    }
}

proof fn lemma_turned_difference(a: F32, b: F32)
    ensures
        matches_up_to_sign(f_sub(a, b), f_sub(b, a), true),
{
    lemma_negation_is_opposite(a);
    lemma_negation_is_opposite(b);
    lemma_difference_is_sum(a, b);
    lemma_difference_is_sum(b, a);
    law_sums_commute(b, f_neg(a));
    lemma_sums_match(a, f_neg(b), f_neg(a), b, true);
}

/// Above the level of a point.
pub open spec fn above(p: [F32; 2], v: [F32; 2]) -> int {
    if f_lt(p[1], v[1]) { 1 } else { 0 }
}

/// A segment whose coordinates differ exactly, to the right of a point.
pub open spec fn right_of(p: [F32; 2], a: [F32; 2], b: [F32; 2]) -> bool {
    &&& a[0].finite() && a[1].finite() && b[0].finite() && b[1].finite() && p[1].finite()
    &&& f_sub(b[0], a[0]).finite()
    &&& f_sub(b[0], a[0]).value() == b[0].value() - a[0].value()
    &&& f_sub(b[1], a[1]).finite()
    &&& f_lt(p[0], a[0])
    &&& f_lt(p[0], b[0])
}

/// A segment to the right of a point adds one where it comes from the point's level or
/// below and ends above it, takes one where it starts above and comes back, and counts
/// nothing otherwise.
pub proof fn law_segments_count_their_ends(p: [F32; 2], a: [F32; 2], b: [F32; 2])
    requires
        right_of(p, a, b),
    ensures
        segment_winding(a, b, p) == above(p, b) - above(p, a),
{
    reveal(segment_winding);
    let up = f_le(a[1], p[1]) && f_lt(p[1], b[1]);
    let down = f_le(b[1], p[1]) && f_lt(p[1], a[1]);
    if up || down {
        let num = f_sub(p[1], a[1]);
        let den = f_sub(b[1], a[1]);
        let e = f_sub(b[0], a[0]);
        lemma_self_difference(a[1]);
        lemma_distinct_difference(b[1], a[1]);
        if up {
            law_differences_are_monotone(a[1], p[1], a[1]);
            law_differences_are_monotone(p[1], b[1], a[1]);
        } else {
            law_differences_are_monotone(b[1], p[1], a[1]);
            law_differences_are_monotone(p[1], a[1], a[1]);
        }
        let s = f_div(num, den);
        lemma_fraction(num, den);
        lemma_between_ends(a[0], b[0], e, s);
    }
}

/// A part of a whole, both of one sign, is between zero and one.
proof fn lemma_fraction(num: F32, den: F32)
    requires
        num.finite(),
        den.finite(),
        !den.zero(),
        num.unsigned() <= den.unsigned(),
        num.zero() || num.negative() == den.negative(),
    ensures
        f_le(lit(0), f_div(num, den)),
        f_le(f_div(num, den), lit(ONE_BITS)),
{
    reveal(f_div);
    lemma_pow2_pos(149);
    lemma_magnitude_nonneg(num.unsigned());
    assert(magnitude(0) == 0);
    lemma_magnitude_monotone(0, den.unsigned());
    if num.unsigned() < den.unsigned() {
        lemma_magnitude_monotone(num.unsigned(), den.unsigned());
    }
    let u = pow2(149) as int;
    let m = magnitude(num.unsigned());
    let d = magnitude(den.unsigned());
    assert(magnitude(ONE_BITS as int) == u) by {
        lemma2_to64();
        lemma_pow2_adds(23, 126);
        assert(ONE_BITS as int / 0x80_0000 == 127 && ONE_BITS as int % 0x80_0000 == 0);
    }
    assert(0 <= m * u && m * u <= u * d) by (nonlinear_arith)
        requires
            0 <= m <= d,
            u > 0,
    ;
    lemma_rounding_passes_no_pattern(m * u, d, ONE_BITS as int);
    if num.zero() {
        assert(m * u <= magnitude(0) * d) by (nonlinear_arith)
            requires
                m == 0,
                magnitude(0) == 0,
        ;
        lemma_rounding_passes_no_pattern(m * u, d, 0);
    }
}

/// A point of the way from `a` to `b` is not before either.
proof fn lemma_between_ends(a: F32, b: F32, e: F32, s: F32)
    requires
        a.finite(),
        b.finite(),
        e.finite(),
        e.value() == b.value() - a.value(),
        f_le(lit(0), s),
        f_le(s, lit(ONE_BITS)),
    ensures
        f_le(a, f_add(a, f_mul(e, s))) || f_le(b, f_add(a, f_mul(e, s))),
{
    let one = lit(ONE_BITS);
    let zero = lit(0);
    let z = f_abs(s);
    lemma_order_is_value_order(e, zero);
    assert(magnitude(0) == 0);
    lemma_negation_is_opposite(e);
    lemma_negation_is_opposite(a);
    assert(matches_up_to_sign(s, z, false));
    lemma_products_match(e, s, e, z, false, false);
    let g = f_mul(e, s);
    let h = f_mul(e, z);
    lemma_sums_match(a, g, a, h, false);
    if e.order() >= 0 {
        lemma_product_not_below_zero(e, z);
        lemma_products_are_finite(f_abs(e), z);
        lemma_products_match(e, z, f_abs(e), z, false, false);
        lemma_order_is_value_order(zero, h);
        law_sums_keep_order(a, h, a);
    } else {
        let n = f_neg(e);
        law_products_are_monotone(z, one, n);
        lemma_products_commute(z, n);
        lemma_products_commute(one, n);
        lemma_one_is_neutral(n);
        lemma_products_are_finite(n, z);
        lemma_products_match(e, z, n, z, true, false);
        lemma_order_is_value_order(e, h);
        law_sums_are_monotone(e, h, a);
        law_sums_commute(e, a);
        law_sums_commute(h, a);
        law_sums_keep_order(a, e, b);
    }
}

proof fn lemma_products_commute(a: F32, b: F32)
    ensures
        f_mul(a, b) == f_mul(b, a),
{
    reveal(f_mul);
    let m = magnitude(a.unsigned());
    let n = magnitude(b.unsigned());
    assert(m * n == n * m) by (nonlinear_arith);
}

/// A part of a finite number is finite.
proof fn lemma_products_are_finite(a: F32, s: F32)
    requires
        a.finite(),
        !a.negative(),
        !s.negative(),
        f_le(s, lit(ONE_BITS)),
    ensures
        f_mul(a, s).finite(),
{
    let one = lit(ONE_BITS);
    law_products_are_monotone(s, one, a);
    lemma_products_commute(s, a);
    lemma_products_commute(one, a);
    lemma_one_is_neutral(a);
    lemma_product_not_below_zero(a, s);
}

/// Tracing a segment backwards negates what it adds to the winding number of a point to
/// the left of it.
pub proof fn law_segments_turn_backwards(p: [F32; 2], a: [F32; 2], b: [F32; 2])
    requires
        right_of(p, a, b),
        right_of(p, b, a),
    ensures
        segment_winding(b, a, p) == -segment_winding(a, b, p),
{
    law_segments_count_their_ends(p, a, b);
    law_segments_count_their_ends(p, b, a);
}

/// The corner at a place of a round: the one after the last is the first.
pub open spec fn corner(corners: Seq<[F32; 2]>, i: int) -> [F32; 2] {
    if i == corners.len() { corners[0] } else { corners[i] }
}

/// A closed polygon through the given corners.
pub open spec fn polygon(corners: Seq<[F32; 2]>) -> Seq<QuadCurve> {
    Seq::new(corners.len(), |i: int| line(corners[i], corner(corners, i + 1)))
}

proof fn lemma_line_is_straight(a: [F32; 2], b: [F32; 2])
    requires
        a[0].finite(),
        a[1].finite(),
    ensures
        is_segment(line(a, b)),
{
}

proof fn lemma_open_polygon(corners: Seq<[F32; 2]>, p: [F32; 2], n: nat)
    requires
        n <= corners.len(),
        corners.len() > 0,
        forall|i: int|
            0 <= i < corners.len() ==> right_of(p, #[trigger] corners[i], corner(corners, i + 1)),
    ensures
        winding(polygon(corners), p, n) == above(p, corner(corners, n as int)) - above(p, corners[0]),
    decreases n,
{
    if n > 0 {
        lemma_open_polygon(corners, p, (n - 1) as nat);
        let a = corners[n - 1];
        let b = corner(corners, n as int);
        assert(right_of(p, a, b));
        law_segments_count_their_ends(p, a, b);
        let c = polygon(corners)[n - 1];
        assert(c == line(a, b));
        lemma_line_is_straight(a, b);
    }
}

/// A closed polygon that lies wholly to the right of a point does not wind round it: the
/// point is outside.
pub proof fn law_polygons_to_the_right_do_not_wind(corners: Seq<[F32; 2]>, p: [F32; 2])
    requires
        corners.len() > 0,
        forall|i: int|
            0 <= i < corners.len() ==> right_of(p, #[trigger] corners[i], corner(corners, i + 1)),
    ensures
        winding(polygon(corners), p, corners.len()) == 0,
{
    lemma_open_polygon(corners, p, corners.len());
}

/// Winding adds up: that of two pictures together is the sum of theirs.
pub proof fn law_winding_adds_up(first: Seq<QuadCurve>, second: Seq<QuadCurve>, p: [F32; 2], n: nat)
    requires
        n <= second.len(),
    ensures
        winding(first + second, p, first.len() + n) == winding(first, p, first.len()) + winding(second, p, n),
    decreases n,
{
    if n > 0 {
        law_winding_adds_up(first, second, p, (n - 1) as nat);
        assert((first + second)[first.len() + n - 1] == second[n - 1]);
    } else {
        lemma_winding_prefix(first, second, p, first.len());
    }
}

proof fn lemma_winding_prefix(first: Seq<QuadCurve>, second: Seq<QuadCurve>, p: [F32; 2], n: nat)
    requires
        n <= first.len(),
    ensures
        winding(first + second, p, n) == winding(first, p, n),
    decreases n,
{
    if n > 0 {
        lemma_winding_prefix(first, second, p, (n - 1) as nat);
    }
}

}
