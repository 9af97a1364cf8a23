//! Where a part of a curve lies.
use vstd::prelude::*;
use vstd::arithmetic::power2::{lemma2_to64, lemma_pow2_adds, lemma_pow2_pos, pow2};
use crate::border::bezier::{law_points_lie_on_their_curve, lemma_finite_product};
use crate::border::boundary::grid_point;
use crate::border::certify::{BoundaryPiece, MAX_SUBDIVISION_DEPTH, certified};
use crate::border::curve::{eval_axis, is_segment, line, lit, slope_axis, sub_control, sub_span};
use crate::border::extract::{
    cover_of, covers_of, curve_boundary, length_squared, lerp, segment_cuts, segment_tally, segment_windows,
};
use crate::border::rational::quadratic;
use crate::float32::{
    F32, HALF_BITS, ONE_BITS, TWO_BITS, abs_int, f_add, f_div, f_eq, f_from_int, f_le, f_mul, f_sub,
    law_small_integers_are_exact, lemma_difference_error, lemma_rounding_passes_no_pattern, lemma_magnitude_monotone, lemma_magnitude_nonneg, lemma_order_is_value_order, lemma_signed_product_error, lemma_sum_error, magnitude,
};
use crate::outline::QuadCurve;
use crate::text_renderer::masks::{
    lemma_bounds_of_size, lemma_finite_difference, lemma_finite_sum, lemma_moderate_value, moderate,
};

verus! {

/// A value is near a fraction: `v * d` is `exact`, up to an error.
#[verifier::opaque]
spec fn stands_near(v: F32, exact: int, d: int, size: int, error: int) -> bool {
    &&& v.finite()
    &&& -size <= v.value() <= size
    &&& (v.value() * d - exact) * 0x80_0000 <= error * d
    &&& (exact - v.value() * d) * 0x80_0000 <= error * d
}

proof fn lemma_units()
    ensures
        lit(ONE_BITS).value() == pow2(149),
        lit(TWO_BITS).value() == 2 * pow2(149),
        2 * lit(HALF_BITS).value() == pow2(149),
        lit(0).value() == 0,
        pow2(149) >= 0x100_0000_0000,
{
    lemma_bounds_of_size();
    lemma2_to64();
    lemma_pow2_adds(23, 126);
    lemma_pow2_adds(23, 127);
    lemma_pow2_adds(1, 149);
    assert(magnitude(0) == 0);
    assert(ONE_BITS as int / 0x80_0000 == 127 && ONE_BITS as int % 0x80_0000 == 0);
    assert(TWO_BITS as int / 0x80_0000 == 128 && TWO_BITS as int % 0x80_0000 == 0);
}

/// A product with a weight between minus two and two.
proof fn lemma_weighted(v: F32, x: int, w: F32, y: int, d: int, size: int, error: int)
    requires
        stands_near(v, x, 1, 2 * (pow2(149) as int), 2 * (pow2(149) as int)),
        -2 * pow2(149) <= x <= 2 * pow2(149),
        stands_near(w, y, d, size, error),
        d > 0,
        pow2(149) <= size <= 0x6000_0000_0000_0000 * pow2(149),
        0 <= error <= 0x80_0000 * size,
    ensures
        stands_near(f_mul(v, w), x * y, (pow2(149) as int) * d, 3 * size, 5 * size + 2 * error),
{
    reveal(stands_near);
    lemma_units();
    let u = pow2(149) as int;
    let a = v.value();
    let b = w.value();
    let ab = a * b;
    let su = size * u;
    assert(-2 * su <= ab <= 2 * su) by (nonlinear_arith)
        requires
            ab == a * b,
            su == size * u,
            -2 * u <= a <= 2 * u,
            -size <= b <= size,
    ;
    assert(2 * su <= 0x1_0000_0000_0000_0000 * (u * u)) by (nonlinear_arith)
        requires
            su == size * u,
            size <= 0x6000_0000_0000_0000 * u,
            u > 0,
    ;
    lemma_finite_product(v, w);
    lemma_signed_product_error(v, w);
    let p = f_mul(v, w).value();
    let pu = p * u;
    assert(0x80_0000 * u * 0x100 <= su) by (nonlinear_arith)
        requires
            su == size * u,
            size >= u,
            u >= 0x100_0000_0000,
    ;
    assert(-3 * su <= pu <= 3 * su);
    assert(-3 * size <= p <= 3 * size) by (nonlinear_arith)
        requires
            pu == p * u,
            su == size * u,
            -3 * su <= pu <= 3 * su,
            u > 0,
    ;
    // pu - ab is small; ab * d - x * y == (a - x) * (b * d) + x * (b * d - y).
    let bd = b * d;
    let sd = size * d;
    let ed = error * d;
    let gap = (pu - ab) * 0x80_0000;
    assert(-3 * su <= gap <= 3 * su);
    assert(-sd <= bd <= sd) by (nonlinear_arith)
        requires
            bd == b * d,
            sd == size * d,
            -size <= b <= size,
            d > 0,
    ;
    let first = (a - x) * bd;
    let second = x * (bd - y);
    let sud = sd * u;
    let eud = ed * u;
    assert(ab * d - x * y == first + second) by (nonlinear_arith)
        requires
            ab == a * b,
            bd == b * d,
            first == (a - x) * bd,
            second == x * (bd - y),
    ;
    let da = a - x;
    assert(-2 * sud <= first * 0x80_0000 <= 2 * sud) by (nonlinear_arith)
        requires
            first == da * bd,
            -2 * u <= da * 0x80_0000 <= 2 * u,
            -sd <= bd <= sd,
            sud == sd * u,
    ;
    let db = bd - y;
    assert(-2 * eud <= second * 0x80_0000 <= 2 * eud) by (nonlinear_arith)
        requires
            second == x * db,
            -ed <= db * 0x80_0000 <= ed,
            -2 * u <= x <= 2 * u,
            eud == ed * u,
    ;
    assert(-3 * sud <= gap * d <= 3 * sud) by (nonlinear_arith)
        requires
            -3 * su <= gap <= 3 * su,
            su == size * u,
            sd == size * d,
            sud == sd * u,
            d > 0,
    ;
    let ud = u * d;
    assert(p * ud == pu * d) by (nonlinear_arith)
        requires
            ud == u * d,
            pu == p * u,
    ;
    assert((pu * d - ab * d) * 0x80_0000 == gap * d) by (nonlinear_arith)
        requires
            gap == (pu - ab) * 0x80_0000,
    ;
    assert((5 * size + 2 * error) * ud == 5 * sud + 2 * eud) by (nonlinear_arith)
        requires
            ud == u * d,
            sd == size * d,
            ed == error * d,
            sud == sd * u,
            eud == ed * u,
    ;
}

/// A sum.
proof fn lemma_summed(v: F32, x: int, w: F32, y: int, d: int, s: int, e: int, t: int, f: int)
    requires
        stands_near(v, x, d, s, e),
        stands_near(w, y, d, t, f),
        d > 0,
        0 <= s && 0 <= t,
        pow2(149) <= s + t <= 0x1_0000_0000_0000_0000 * pow2(149),
        0 <= e && 0 <= f,
    ensures
        stands_near(f_add(v, w), x + y, d, 2 * (s + t), e + f + 2 * (s + t)),
{
    reveal(stands_near);
    lemma_units();
    lemma_finite_sum(v, w);
    lemma_sum_error(v, w);
    let a = v.value();
    let b = w.value();
    let r = f_add(v, w).value();
    let gap = (r - a - b) * 0x80_0000;
    let most = 2 * (s + t);
    assert(-most <= gap <= most);
    assert(-(most * d) <= gap * d <= most * d) by (nonlinear_arith)
        requires
            -most <= gap <= most,
            d > 0,
    ;
    assert(gap * d == (r * d - a * d - b * d) * 0x80_0000) by (nonlinear_arith)
        requires
            gap == (r - a - b) * 0x80_0000,
    ;
    assert((e + f + most) * d == e * d + f * d + most * d) by (nonlinear_arith);
}

/// A difference.
proof fn lemma_gap(v: F32, w: F32, r: int)
    requires
        v.finite(),
        w.finite(),
        abs_int(v.value()) + abs_int(w.value()) <= r,
        pow2(149) <= r <= 0x8000_0000_0000_0000 * pow2(149),
    ensures
        stands_near(f_sub(v, w), v.value() - w.value(), 1, 2 * r, 2 * r),
{
    reveal(stands_near);
    lemma_units();
    lemma_finite_difference(v, w);
    lemma_difference_error(v, w);
}

/// A part of a segment starts and ends where its share of the segment says: the point at a
/// fraction is as far from one end to the other, up to rounding.
pub proof fn law_shares_of_segments_lie_between(a: [F32; 2], b: [F32; 2], f: F32, axis: int)
    requires
        axis == 0 || axis == 1,
        moderate(a[axis]) && moderate(b[axis]),
        f_le(lit(0), f),
        f_le(f, lit(ONE_BITS)),
    ensures
        ({
            let u = pow2(149) as int;
            let x = a[axis].value();
            let y = b[axis].value();
            let e = lerp(a, b, f)[axis].value() * u - (x * u + (y - x) * f.value());
            let slack = (abs_int(x) + abs_int(y) + u) * u;
            lerp(a, b, f)[axis].finite() && e * 0x4_0000 <= slack && -e * 0x4_0000 <= slack
        }),
{
    let u = pow2(149) as int;
    lemma_units();
    let p = a[axis];
    let q = b[axis];
    lemma_moderate_value(p);
    lemma_moderate_value(q);
    lemma_order_is_value_order(lit(0), f);
    lemma_order_is_value_order(f, lit(ONE_BITS));
    let r = abs_int(p.value()) + abs_int(q.value()) + u;
    let d = f_sub(q, p);
    lemma_gap(q, p, r);
    assert(stands_near(f, f.value(), 1, 2 * u, 2 * u)) by {
        reveal(stands_near);
    }
    lemma_weighted(f, f.value(), d, q.value() - p.value(), 1, 2 * r, 2 * r);
    lemma_products_commute(d, f);
    let m = f_mul(d, f);
    let x = p.value();
    let y = q.value();
    let fv = f.value();
    assert(stands_near(p, x * u, u, r, 0)) by {
        reveal(stands_near);
        assert(0 * u == 0) by (nonlinear_arith);
    }
    assert(u * 1 == u);
    lemma_summed(p, x * u, m, fv * (y - x), u, r, 0, 6 * r, 14 * r);
    assert(fv * (y - x) == (y - x) * fv) by (nonlinear_arith);
    reveal(stands_near);
    assert((0 + 14 * r + 2 * (r + 6 * r)) * u == 28 * (r * u)) by (nonlinear_arith);
}

proof fn lemma_products_commute(a: F32, b: F32)
    ensures
        f_mul(a, b) == f_mul(b, a),
{
    reveal(f_mul);
    let m = magnitude(a.unsigned());
    let n = magnitude(b.unsigned());
    assert(m * n == n * m) by (nonlinear_arith);
}

/// A coordinate of at most 2^50 in size.
pub open spec fn small(v: F32) -> bool {
    v.unsigned() <= 0x5880_0000
}

proof fn lemma_small_value(v: F32)
    requires
        small(v),
    ensures
        moderate(v),
        v.finite(),
        abs_int(v.value()) <= 0x4_0000_0000_0000 * pow2(149),
{
    lemma2_to64();
    vstd::arithmetic::power2::lemma2_to64_rest();
    lemma_pow2_adds(23, 176);
    lemma_pow2_adds(50, 149);
    lemma_magnitude_nonneg(v.unsigned());
    assert(magnitude(0x5880_0000) == 0x4_0000_0000_0000 * pow2(149));
    if v.unsigned() < 0x5880_0000 {
        lemma_magnitude_monotone(v.unsigned(), 0x5880_0000);
    }
}

/// A parameter between zero and one.
pub proof fn lemma_parameter(t: F32)
    requires
        f_le(lit(0), t),
        f_le(t, lit(ONE_BITS)),
    ensures
        t.finite(),
        0 <= t.value() <= pow2(149),
{
    lemma_units();
    lemma_order_is_value_order(lit(0), t);
    lemma_order_is_value_order(t, lit(ONE_BITS));
}

proof fn lemma_weight(t: F32)
    requires
        t.finite(),
        0 <= t.value() <= pow2(149),
    ensures
        stands_near(t, t.value(), 1, 2 * (pow2(149) as int), 2 * (pow2(149) as int)),
{
    lemma_units();
    reveal(stands_near);
}

/// The difference of two parameters.
proof fn lemma_parameters(s: F32, t: F32)
    requires
        s.finite(),
        t.finite(),
        0 <= s.value() <= pow2(149),
        0 <= t.value() <= pow2(149),
    ensures
        stands_near(f_sub(s, t), s.value() - t.value(), 1, 2 * (pow2(149) as int), 2 * (pow2(149) as int)),
{
    lemma_units();
    lemma_finite_difference(s, t);
    lemma_difference_error(s, t);
    reveal(stands_near);
}

/// The slope of a curve, over its unit.
proof fn lemma_slope(c: QuadCurve, t: F32, axis: int, r: int)
    requires
        axis == 0 || axis == 1,
        small(c.p1[axis]) && small(c.p2[axis]) && small(c.p3[axis]),
        f_le(lit(0), t),
        f_le(t, lit(ONE_BITS)),
        r == abs_int(c.p1[axis].value()) + abs_int(c.p2[axis].value()) + abs_int(c.p3[axis].value()) + pow2(149),
    ensures
        ({
            let u = pow2(149) as int;
            let x = c.p1[axis].value();
            let y = c.p2[axis].value();
            let z = c.p3[axis].value();
            let exact = (u - t.value()) * (y - x) + t.value() * (z - y);
            stands_near(slope_axis(c, t, axis), (2 * u) * exact, u * u, 72 * r, 224 * r)
        }),
{
    reveal(slope_axis);
    lemma_units();
    let u = pow2(149) as int;
    lemma_small_value(c.p1[axis]);
    lemma_small_value(c.p2[axis]);
    lemma_small_value(c.p3[axis]);
    let x = c.p1[axis].value();
    let y = c.p2[axis].value();
    let z = c.p3[axis].value();
    lemma_parameter(t);
    lemma_weight(t);
    let one = lit(ONE_BITS);
    let w = f_sub(one, t);
    lemma_parameters(one, t);
    let d = f_sub(c.p2[axis], c.p1[axis]);
    let e = f_sub(c.p3[axis], c.p2[axis]);
    lemma_gap(c.p2[axis], c.p1[axis], r);
    lemma_gap(c.p3[axis], c.p2[axis], r);
    lemma_weighted(w, u - t.value(), d, y - x, 1, 2 * r, 2 * r);
    lemma_weighted(t, t.value(), e, z - y, 1, 2 * r, 2 * r);
    assert(u * 1 == u);
    let s = f_add(f_mul(w, d), f_mul(t, e));
    lemma_summed(
        f_mul(w, d),
        (u - t.value()) * (y - x),
        f_mul(t, e),
        t.value() * (z - y),
        u,
        6 * r,
        14 * r,
        6 * r,
        14 * r,
    );
    let exact = (u - t.value()) * (y - x) + t.value() * (z - y);
    let two = lit(TWO_BITS);
    assert(stands_near(two, 2 * u, 1, 2 * u, 2 * u)) by {
        reveal(stands_near);
    }
    lemma_weighted(two, 2 * u, s, exact, u, 24 * r, 52 * r);
}

/// The control point of a part of a curve is that of the part: the sum of the curve's
/// three points, each weighted by what the two parameters leave and take together, up to
/// rounding.
pub proof fn law_parts_have_their_control_points(c: QuadCurve, lo: F32, hi: F32, axis: int)
    requires
        axis == 0 || axis == 1,
        small(c.p1[axis]) && small(c.p2[axis]) && small(c.p3[axis]),
        f_le(lit(0), lo) && f_le(lo, lit(ONE_BITS)),
        f_le(lit(0), hi) && f_le(hi, lit(ONE_BITS)),
    ensures
        ({
            let u = pow2(149) as int;
            let x = c.p1[axis].value();
            let y = c.p2[axis].value();
            let z = c.p3[axis].value();
            let (s, t) = (lo.value(), hi.value());
            let exact = x * ((u - s) * (u - t)) + y * (s * (u - t) + t * (u - s)) + z * (s * t);
            let v = sub_control(c, lo, hi, axis);
            let slack = (abs_int(x) + abs_int(y) + abs_int(z) + u) * (u * u);
            &&& v.finite()
            &&& (v.value() * (u * u) - exact) * 0x400 <= slack
            &&& (exact - v.value() * (u * u)) * 0x400 <= slack
        }),
{
    reveal(sub_control);
    lemma_units();
    let u = pow2(149) as int;
    lemma_small_value(c.p1[axis]);
    lemma_small_value(c.p2[axis]);
    lemma_small_value(c.p3[axis]);
    let x = c.p1[axis].value();
    let y = c.p2[axis].value();
    let z = c.p3[axis].value();
    let (s, t) = (lo.value(), hi.value());
    let r = abs_int(x) + abs_int(y) + abs_int(z) + u;
    lemma_parameter(lo);
    lemma_parameter(hi);
    lemma_parameters(hi, lo);
    lemma_slope(c, lo, axis, r);
    let slope = slope_axis(c, lo, axis);
    let m = (u - s) * (y - x) + s * (z - y);
    let uu = u * u;
    assert(uu > 0) by (nonlinear_arith)
        requires
            uu == u * u,
            u > 0,
    ;
    let g = f_sub(hi, lo);
    lemma_weighted(g, t - s, slope, (2 * u) * m, uu, 72 * r, 224 * r);
    let half = lit(HALF_BITS);
    let h = half.value();
    assert(stands_near(half, h, 1, 2 * u, 2 * u)) by {
        reveal(stands_near);
    }
    let step = f_mul(g, slope);
    let uuu = u * uu;
    assert(uuu > 0) by (nonlinear_arith)
        requires
            uuu == u * uu,
            u > 0,
            uu > 0,
    ;
    lemma_weighted(half, h, step, (t - s) * ((2 * u) * m), uuu, 216 * r, 808 * r);
    lemma_products_commute(step, half);
    let part = f_mul(step, half);
    lemma_part_error(part, h, u, m, t - s, r);
    law_points_lie_on_their_curve(c, lo, axis);
    lemma_end(c, lo, part, axis, r, (t - s) * m);
    lemma_polar(x, y, z, s, t, u);
}

/// The units of a step fall away.
proof fn lemma_part_error(part: F32, h: int, u: int, m: int, g: int, r: int)
    requires
        u == pow2(149),
        2 * h == u,
        stands_near(part, h * (g * ((2 * u) * m)), u * (u * (u * u)), 648 * r, 2696 * r),
        r > 0,
    ensures
        part.finite(),
        -648 * r <= part.value() <= 648 * r,
        (part.value() * (u * u) - g * m) * 0x80_0000 <= 2696 * (r * (u * u)),
        (g * m - part.value() * (u * u)) * 0x80_0000 <= 2696 * (r * (u * u)),
{
    reveal(stands_near);
    lemma_units();
    let uu = u * u;
    let gm = g * m;
    let v = part.value();
    let d = u * (u * (u * u));
    assert(h * (g * ((2 * u) * m)) == uu * gm) by (nonlinear_arith)
        requires
            2 * h == u,
            uu == u * u,
            gm == g * m,
    ;
    assert(d == uu * uu) by (nonlinear_arith)
        requires
            d == u * (u * (u * u)),
            uu == u * u,
    ;
    assert(uu > 0) by (nonlinear_arith)
        requires
            uu == u * u,
            u > 0,
    ;
    let e = v * uu - gm;
    assert(v * d - uu * gm == e * uu) by (nonlinear_arith)
        requires
            d == uu * uu,
            e == v * uu - gm,
    ;
    let k = 2696 * (r * uu);
    assert(2696 * r * d == k * uu) by (nonlinear_arith)
        requires
            d == uu * uu,
            k == 2696 * (r * uu),
    ;
    assert(e * 0x80_0000 <= k && -e * 0x80_0000 <= k) by (nonlinear_arith)
        requires
            (e * uu) * 0x80_0000 <= k * uu,
            -(e * uu) * 0x80_0000 <= k * uu,
            uu > 0,
    ;
}

/// The point and the step together.
proof fn lemma_end(c: QuadCurve, lo: F32, part: F32, axis: int, r: int, step: int)
    requires
        axis == 0 || axis == 1,
        r == abs_int(c.p1[axis].value()) + abs_int(c.p2[axis].value()) + abs_int(c.p3[axis].value()) + pow2(149),
        r <= 0x10_0000_0000_0000 * pow2(149),
        part.finite(),
        -648 * r <= part.value() <= 648 * r,
        (part.value() * (pow2(149) * pow2(149)) - step) * 0x80_0000 <= 2696 * (r * (pow2(149) * pow2(149))),
        (step - part.value() * (pow2(149) * pow2(149))) * 0x80_0000 <= 2696 * (r * (pow2(149) * pow2(149))),
        0 <= lo.value() <= pow2(149),
        ({
            let u = pow2(149) as int;
            let uu = u * u;
            let x = c.p1[axis].value();
            let y = c.p2[axis].value();
            let z = c.p3[axis].value();
            let v = eval_axis(c, lo, axis).value() * uu;
            let q = quadratic(x, y, z, lo.value(), u);
            let slack = (abs_int(x) + abs_int(y) + abs_int(z) + 0x80_0000) * uu;
            &&& eval_axis(c, lo, axis).finite()
            &&& (v - q) * 0x4_0000 <= slack
            &&& (q - v) * 0x4_0000 <= slack
        }),
    ensures
        ({
            let u = pow2(149) as int;
            let uu = u * u;
            let q = quadratic(c.p1[axis].value(), c.p2[axis].value(), c.p3[axis].value(), lo.value(), u);
            let v = f_add(eval_axis(c, lo, axis), part);
            &&& v.finite()
            &&& (v.value() * uu - (q + step)) * 0x400 <= r * uu
            &&& ((q + step) - v.value() * uu) * 0x400 <= r * uu
        }),
{
    lemma_units();
    let u = pow2(149) as int;
    let uu = u * u;
    let x = c.p1[axis].value();
    let y = c.p2[axis].value();
    let z = c.p3[axis].value();
    let at = eval_axis(c, lo, axis);
    let a = at.value();
    let s = lo.value();
    let q = quadratic(x, y, z, s, u);
    let ru = r * uu;
    assert(uu > 0) by (nonlinear_arith)
        requires
            uu == u * u,
            u > 0,
    ;
    let slack = (abs_int(x) + abs_int(y) + abs_int(z) + 0x80_0000) * uu;
    assert(slack <= ru) by (nonlinear_arith)
        requires
            slack == (abs_int(x) + abs_int(y) + abs_int(z) + 0x80_0000) * uu,
            ru == r * uu,
            abs_int(x) + abs_int(y) + abs_int(z) + 0x80_0000 <= r,
            uu > 0,
    ;
    lemma_quadratic_is_bounded(x, y, z, s, u, r);
    let au = a * uu;
    assert(-3 * ru <= au <= 3 * ru);
    assert(-3 * r <= a <= 3 * r) by (nonlinear_arith)
        requires
            au == a * uu,
            ru == r * uu,
            -3 * ru <= au <= 3 * ru,
            uu > 0,
    ;
    lemma_finite_sum(at, part);
    lemma_sum_error(at, part);
    let b = part.value();
    let v = f_add(at, part).value();
    let gap = v - a - b;
    assert(-700 * r <= gap * 0x80_0000 <= 700 * r);
    assert(-700 * ru <= (gap * uu) * 0x80_0000 <= 700 * ru) by (nonlinear_arith)
        requires
            -700 * r <= gap * 0x80_0000 <= 700 * r,
            ru == r * uu,
            uu > 0,
    ;
    assert(v * uu == gap * uu + au + b * uu) by (nonlinear_arith)
        requires
            gap == v - a - b,
            au == a * uu,
    ;
}

proof fn lemma_quadratic_is_bounded(x: int, y: int, z: int, s: int, u: int, r: int)
    requires
        0 <= s <= u,
        abs_int(x) + abs_int(y) + abs_int(z) <= r,
    ensures
        -2 * (r * (u * u)) <= quadratic(x, y, z, s, u) <= 2 * (r * (u * u)),
{
    let uu = u * u;
    let k = (u - s) * (u - s);
    let l = s * (u - s);
    let m = s * s;
    assert(0 <= k <= uu && 0 <= l <= uu && 0 <= m <= uu) by (nonlinear_arith)
        requires
            0 <= s <= u,
            uu == u * u,
            k == (u - s) * (u - s),
            l == s * (u - s),
            m == s * s,
    ;
    lemma_term_is_bounded(x, k, uu);
    lemma_term_is_bounded(y, l, uu);
    lemma_term_is_bounded(z, m, uu);
    assert((abs_int(x) + abs_int(y) + abs_int(z)) * uu <= r * uu) by (nonlinear_arith)
        requires
            abs_int(x) + abs_int(y) + abs_int(z) <= r,
            uu >= 0,
    ;
    assert((abs_int(x) + abs_int(y) + abs_int(z)) * uu == abs_int(x) * uu + abs_int(y) * uu + abs_int(z) * uu)
        by (nonlinear_arith);
    assert(abs_int(x) * uu >= 0 && abs_int(z) * uu >= 0) by (nonlinear_arith)
        requires
            uu >= 0,
            abs_int(x) >= 0,
            abs_int(z) >= 0,
    ;
}

proof fn lemma_term_is_bounded(x: int, k: int, most: int)
    requires
        0 <= k <= most,
    ensures
        -(abs_int(x) * most) <= x * k <= abs_int(x) * most,
{
    assert(-(abs_int(x) * most) <= x * k <= abs_int(x) * most) by (nonlinear_arith)
        requires
            0 <= k <= most,
            -abs_int(x) <= x <= abs_int(x),
            abs_int(x) >= 0,
    ;
}

/// A curve's point at one parameter and the way along its slope to another one, in terms
/// of its three points.
proof fn lemma_polar(x: int, y: int, z: int, s: int, t: int, u: int)
    ensures
        quadratic(x, y, z, s, u) + (t - s) * ((u - s) * (y - x) + s * (z - y)) == x * ((u - s) * (u - t)) + y * (s * (u - t)
            + t * (u - s)) + z * (s * t),
{
    let p = u - s;
    let g = t - s;
    let (a, b, c) = (p * p, s * p, s * s);
    let (d, e) = (g * p, g * s);
    assert(g * (p * (y - x) + s * (z - y)) == d * y - d * x + e * z - e * y) by (nonlinear_arith)
        requires
            d == g * p,
            e == g * s,
    ;
    assert((u - s) * (u - t) == a - d) by (nonlinear_arith)
        requires
            a == p * p,
            d == g * p,
            p == u - s,
            g == t - s,
    ;
    assert(s * (u - t) == b - e && t * p == d + b && s * t == c + e) by (nonlinear_arith)
        requires
            b == s * p,
            c == s * s,
            d == g * p,
            e == g * s,
            p == u - s,
            g == t - s,
    ;
    assert(x * (a - d) == x * a - d * x && y * ((b - e) + (d + b)) == 2 * (y * b) - e * y + d * y && z * (c + e) == z * c + e
        * z) by (nonlinear_arith);
}

/// What two parameters make of a curve's three coordinates: where they are one, the point
/// of the curve there.
pub open spec fn polar(x: int, y: int, z: int, s: int, t: int) -> int {
    let u = pow2(149) as int;
    x * ((u - s) * (u - t)) + y * (s * (u - t) + t * (u - s)) + z * (s * t)
}

/// A coordinate is what two parameters make of a curve, up to rounding.
pub open spec fn made_of(v: F32, c: QuadCurve, s: int, t: int, axis: int) -> bool {
    let u = pow2(149) as int;
    let x = c.p1[axis].value();
    let y = c.p2[axis].value();
    let z = c.p3[axis].value();
    let slack = (abs_int(x) + abs_int(y) + abs_int(z) + u) * (u * u);
    &&& v.finite()
    &&& (v.value() * (u * u) - polar(x, y, z, s, t)) * 0x400 <= slack
    &&& (polar(x, y, z, s, t) - v.value() * (u * u)) * 0x400 <= slack
}

proof fn lemma_point_made(c: QuadCurve, t: F32, axis: int)
    requires
        axis == 0 || axis == 1,
        small(c.p1[axis]) && small(c.p2[axis]) && small(c.p3[axis]),
        f_le(lit(0), t) && f_le(t, lit(ONE_BITS)),
    ensures
        made_of(eval_axis(c, t, axis), c, t.value(), t.value(), axis),
{
    lemma_units();
    let u = pow2(149) as int;
    lemma_small_value(c.p1[axis]);
    lemma_small_value(c.p2[axis]);
    lemma_small_value(c.p3[axis]);
    let x = c.p1[axis].value();
    let y = c.p2[axis].value();
    let z = c.p3[axis].value();
    law_points_lie_on_their_curve(c, t, axis);
    lemma_polar(x, y, z, t.value(), t.value(), u);
    let uu = u * u;
    let r = abs_int(x) + abs_int(y) + abs_int(z);
    let m = (u - t.value()) * (y - x) + t.value() * (z - y);
    assert(0 * m == 0) by (nonlinear_arith);
    assert((r + 0x80_0000) * uu <= (r + u) * uu && (r + u) * uu >= 0) by (nonlinear_arith)
        requires
            u >= 0x80_0000,
            uu == u * u,
            r >= 0,
    ;
}

/// An end of a curve is what its parameter makes of it.
proof fn lemma_ends_made(c: QuadCurve, axis: int)
    requires
        axis == 0 || axis == 1,
        small(c.p1[axis]) && small(c.p2[axis]) && small(c.p3[axis]),
    ensures
        made_of(c.p1[axis], c, 0, 0, axis),
        made_of(c.p2[axis], c, 0, pow2(149) as int, axis),
        made_of(c.p3[axis], c, pow2(149) as int, pow2(149) as int, axis),
{
    lemma_units();
    let u = pow2(149) as int;
    lemma_small_value(c.p1[axis]);
    lemma_small_value(c.p2[axis]);
    lemma_small_value(c.p3[axis]);
    let x = c.p1[axis].value();
    let y = c.p2[axis].value();
    let z = c.p3[axis].value();
    let uu = u * u;
    let r = abs_int(x) + abs_int(y) + abs_int(z) + u;
    assert(r * uu >= 0) by (nonlinear_arith)
        requires
            uu == u * u,
            r >= 0,
    ;
    assert(polar(x, y, z, 0, 0) == x * uu && polar(x, y, z, 0, u) == y * uu && polar(x, y, z, u, u) == z * uu) by {
        assert((u - 0) * (u - 0) == uu && u * (u - 0) == uu && (u - 0) * (u - u) == 0 && (u - u) * (u - u) == 0 && u * (u
            - u) == 0) by (nonlinear_arith)
            requires
                uu == u * u,
        ;
        assert(0 * u == 0 && 0 * (u - u) == 0 && x * 0 == 0 && y * 0 == 0 && z * 0 == 0 && 0 * (u - 0) == 0) by (nonlinear_arith);
    }
}

/// A part of a curve lies on it, and runs as it does: it starts at the point of the lower
/// parameter, ends at that of the higher one, and bends as the curve does between them.
pub proof fn law_parts_lie_on_their_curve(c: QuadCurve, lo: F32, hi: F32, axis: int)
    requires
        axis == 0 || axis == 1,
        small(c.p1[axis]) && small(c.p2[axis]) && small(c.p3[axis]),
        f_le(lit(0), lo) && f_le(lo, lit(ONE_BITS)),
        f_le(lit(0), hi) && f_le(hi, lit(ONE_BITS)),
    ensures
        ({
            let part = sub_span(c, lo, hi);
            &&& made_of(part.p1[axis], c, lo.value(), lo.value(), axis)
            &&& made_of(part.p2[axis], c, lo.value(), hi.value(), axis)
            &&& made_of(part.p3[axis], c, hi.value(), hi.value(), axis)
        }),
{
    lemma_units();
    lemma_parameter(lo);
    lemma_parameter(hi);
    if f_eq(lo, lit(0)) && f_eq(hi, lit(ONE_BITS)) {
        lemma_order_is_value_order(lo, lit(0));
        lemma_order_is_value_order(hi, lit(ONE_BITS));
        lemma_ends_made(c, axis);
    } else {
        lemma_point_made(c, lo, axis);
        lemma_point_made(c, hi, axis);
        law_parts_have_their_control_points(c, lo, hi, axis);
    }
}

/// A length on the grid, as a value.
proof fn lemma_length(end: int)
    requires
        0 < end <= 0x2000_0000_0000_0000,
    ensures
        ({
            let e = f_from_int(end);
            &&& e.finite() && !e.negative() && !e.zero()
            &&& f_div(f_from_int(0), e) == lit(0)
            &&& f_div(e, e) == lit(ONE_BITS)
        }),
{
    reveal(f_from_int);
    reveal(f_div);
    lemma_units();
    lemma_bounds_of_size();
    let u = pow2(149) as int;
    law_small_integers_are_exact(0);
    let e = f_from_int(end);
    assert(u <= end * u <= 0x1_0000_0000_0000_0000 * u) by (nonlinear_arith)
        requires
            0 < end <= 0x2000_0000_0000_0000,
            u > 0,
    ;
    assert(magnitude(ONE_BITS as int) == u);
    lemma_rounding_passes_no_pattern(end * u, 1, ONE_BITS as int);
    lemma_rounding_passes_no_pattern(end * u, 1, 0x5f80_0000);
    let m = magnitude(e.unsigned());
    lemma_magnitude_nonneg(e.unsigned());
    assert(m > 0) by {
        lemma_magnitude_monotone(0, e.unsigned());
        lemma_magnitude_nonneg(0);
    }
    assert(m * u == u * m) by (nonlinear_arith);
    lemma_rounding_passes_no_pattern(m * u, m, ONE_BITS as int);
    assert(0 * u == 0 && magnitude(0) * m == 0) by (nonlinear_arith)
        requires
            magnitude(0) == 0,
    ;
    lemma_rounding_passes_no_pattern(0, m, 0);
    lemma_rounding_passes_no_pattern(0, 1, 0);
    assert(0 * pow2(149) == 0) by (nonlinear_arith);
}

/// Values that are one, up to rounding.
pub open spec fn same_place(v: F32, w: F32, other: F32) -> bool {
    let e = v.value() - w.value();
    let slack = abs_int(w.value()) + abs_int(other.value()) + pow2(149);
    v.finite() && e * 0x4_0000 <= slack && -e * 0x4_0000 <= slack
}

/// Points that are one, up to rounding.
pub open spec fn same_spot(p: [F32; 2], q: [F32; 2], other: [F32; 2]) -> bool {
    same_place(p[0], q[0], other[0]) && same_place(p[1], q[1], other[1])
}

proof fn lemma_segment_ends(a: [F32; 2], b: [F32; 2], axis: int)
    requires
        axis == 0 || axis == 1,
        moderate(a[axis]) && moderate(b[axis]),
    ensures
        same_place(lerp(a, b, lit(0))[axis], a[axis], b[axis]),
        same_place(lerp(a, b, lit(ONE_BITS))[axis], b[axis], a[axis]),
{
    lemma_units();
    let u = pow2(149) as int;
    law_shares_of_segments_lie_between(a, b, lit(0), axis);
    law_shares_of_segments_lie_between(a, b, lit(ONE_BITS), axis);
    let x = a[axis].value();
    let y = b[axis].value();
    let v = lerp(a, b, lit(0))[axis].value();
    let w = lerp(a, b, lit(ONE_BITS))[axis].value();
    let r = abs_int(x) + abs_int(y) + u;
    assert((v - x) * 0x4_0000 <= r && (x - v) * 0x4_0000 <= r) by (nonlinear_arith)
        requires
            (v * u - (x * u + (y - x) * 0)) * 0x4_0000 <= r * u,
            -(v * u - (x * u + (y - x) * 0)) * 0x4_0000 <= r * u,
            u > 0,
    ;
    assert((w - y) * 0x4_0000 <= r && (y - w) * 0x4_0000 <= r) by (nonlinear_arith)
        requires
            (w * u - (x * u + (y - x) * u)) * 0x4_0000 <= r * u,
            -(w * u - (x * u + (y - x) * u)) * 0x4_0000 <= r * u,
            u > 0,
    ;
}

/// A straight piece as certification takes it.
pub open spec fn certified_line(
    all: Seq<QuadCurve>,
    i: int,
    from: [F32; 2],
    to: [F32; 2],
    tol: F32,
    out: Seq<BoundaryPiece>,
) -> Option<Seq<BoundaryPiece>> {
    certified(
        all,
        line(from, to),
        i as u32,
        lit(0),
        lit(ONE_BITS),
        tol,
        MAX_SUBDIVISION_DEPTH as nat,
        Seq::empty(),
        out,
    )
}

/// A segment that no other segment lies on is certified whole, from where it starts to
/// where it ends.
pub proof fn law_free_segments_stay_whole(all: Seq<QuadCurve>, i: int, tol: F32, out: Seq<BoundaryPiece>)
    requires
        0 <= i < all.len(),
        is_segment(all[i]),
        0 < length_squared(grid_point(all[i].p1), grid_point(all[i].p3)) <= 0x2000_0000_0000_0000,
        forall|j: int| 0 <= j < all.len() ==> (#[trigger] cover_of(all, i, j)) is None,
        moderate(all[i].p1[0]) && moderate(all[i].p1[1]) && moderate(all[i].p3[0]) && moderate(all[i].p3[1]),
    ensures
        exists|from: [F32; 2], to: [F32; 2]|
            same_spot(from, all[i].p1, all[i].p3) && same_spot(to, all[i].p3, all[i].p1) && curve_boundary(all, i, tol, out)
                == #[trigger] certified_line(all, i, from, to, tol, out),
{
    let a = all[i].p1;
    let b = all[i].p3;
    let end = length_squared(grid_point(a), grid_point(b));
    lemma_length(end);
    lemma_segment_ends(a, b, 0);
    lemma_segment_ends(a, b, 1);
    lemma_no_covers(all, i, all.len());
    let covers = covers_of(all, i, all.len());
    let cuts = segment_cuts(covers, end as i64, 0);
    assert(covers.len() == 0);
    assert(cuts == seq![0i64, end as i64]);
    let from = lerp(a, b, lit(0));
    let to = lerp(a, b, lit(ONE_BITS));
    assert(segment_windows(all, i, covers, end as i64, cuts, tol, 0, out) == Some(out));
    assert(segment_windows(all, i, covers, end as i64, cuts, tol, 1, out) == certified_line(all, i, from, to, tol, out)) by {
        reveal_with_fuel(segment_windows, 2);
        let t = segment_tally(covers, i, 0, end as i64, 0);
        assert(t.others =~= Seq::<usize>::empty());
    }
}

proof fn lemma_no_covers(all: Seq<QuadCurve>, i: int, n: nat)
    requires
        n <= all.len(),
        forall|j: int| 0 <= j < all.len() ==> (#[trigger] cover_of(all, i, j)) is None,
    ensures
        covers_of(all, i, n).len() == 0,
    decreases n,
{
    if n > 0 {
        lemma_no_covers(all, i, (n - 1) as nat);
        assert(cover_of(all, i, n - 1) is None);
    }
}

}
