//! What outlines keep of the paths that they are made of.
use vstd::prelude::*;
use vstd::arithmetic::power2::{lemma2_to64, lemma_pow2_adds, lemma_pow2_pos, lemma_pow2_unfold, pow2};
use crate::border::bezier::lemma_finite_product;
use crate::float32::{
    F32, HALF_BITS, MAX_BITS, MIN_BITS, QUARTER_BITS, abs_int, f_add, f_le, f_mul, f_sub, law_sums_commute,
    lemma_difference_error, lemma_signed_product_error, lemma_sum_error, magnitude,
};
use crate::outline::{
    QuadCurve, SHEAR_BITS, THREE_BITS, control_box, halfway, quad_control, quads_for, sheared_point,
};
use crate::text_renderer::masks::{
    lemma_bounds_of_size, lemma_finite_difference, lemma_finite_sum, lemma_moderate_value, moderate,
};

verus! {

/// A curve of finite points.
pub open spec fn finite_curve(c: QuadCurve) -> bool {
    &&& c.p1[0].finite() && c.p1[1].finite()
    &&& c.p2[0].finite() && c.p2[1].finite()
    &&& c.p3[0].finite() && c.p3[1].finite()
}

/// A point lies in a box (left, bottom, right, top).
pub open spec fn lies_in(p: [F32; 2], b: [F32; 4]) -> bool {
    f_le(b[0], p[0]) && f_le(p[0], b[2]) && f_le(b[1], p[1]) && f_le(p[1], b[3])
}

/// The box of an outline holds every point of every curve.
pub proof fn law_boxes_hold_their_points(curves: Seq<QuadCurve>, n: int, i: int)
    requires
        0 <= i < n <= curves.len(),
        forall|j: int| 0 <= j < n ==> finite_curve(#[trigger] curves[j]),
    ensures
        ({
            let b = control_box(curves, n);
            lies_in(curves[i].p1, b) && lies_in(curves[i].p2, b) && lies_in(curves[i].p3, b)
        }),
    decreases n,
{
    lemma_boxes_are_numbers(curves, n - 1);
    assert(finite_curve(curves[n - 1]));
    if i < n - 1 {
        law_boxes_hold_their_points(curves, n - 1, i);
    }
}

proof fn lemma_boxes_are_numbers(curves: Seq<QuadCurve>, n: int)
    requires
        0 <= n <= curves.len(),
        forall|j: int| 0 <= j < n ==> finite_curve(#[trigger] curves[j]),
    ensures
        forall|k: int| 0 <= k < 4 ==> (#[trigger] control_box(curves, n)[k]).finite(),
    decreases n,
{
    if n > 0 {
        lemma_boxes_are_numbers(curves, n - 1);
        assert(finite_curve(curves[n - 1]));
        let b = control_box(curves, n - 1);
        assert(b[0].finite() && b[1].finite() && b[2].finite() && b[3].finite());
    }
}

/// A coordinate of one of the points of a curve.
pub open spec fn has_coordinate(c: QuadCurve, axis: int, v: F32) -> bool {
    v == c.p1[axis] || v == c.p2[axis] || v == c.p3[axis]
}

/// The box of an outline is no larger than it must be: each of its sides touches a point.
pub proof fn law_boxes_are_tight(curves: Seq<QuadCurve>, n: int, side: int)
    requires
        0 < n <= curves.len(),
        0 <= side < 4,
        forall|j: int| 0 <= j < n ==> finite_curve(#[trigger] curves[j]),
    ensures
        exists|i: int|
            0 <= i < n && has_coordinate(#[trigger] curves[i], side % 2, control_box(curves, n)[side]),
    decreases n,
{
    lemma_boxes_are_numbers(curves, n - 1);
    let c = curves[n - 1];
    let b = control_box(curves, n);
    let before = control_box(curves, n - 1);
    assert(finite_curve(c));
    if n == 1 {
        assert(has_coordinate(c, side % 2, b[side]));
    } else {
        law_boxes_are_tight(curves, n - 1, side);
        let i = choose|i: int|
            0 <= i < n - 1 && has_coordinate(#[trigger] curves[i], side % 2, before[side]);
        assert(b[side] == before[side] || has_coordinate(c, side % 2, b[side]));
        assert(has_coordinate(curves[i], side % 2, before[side]));
    }
}

/// Curves that go on where the one before them ends, from one point to another.
pub open spec fn leads(curves: Seq<QuadCurve>, from: [F32; 2], to: [F32; 2]) -> bool {
    &&& curves.len() > 0
    &&& curves[0].p1 == from
    &&& curves[curves.len() - 1].p3 == to
    &&& forall|i: int| 0 < i < curves.len() ==> #[trigger] curves[i].p1 == curves[i - 1].p3
}

/// The pieces of a cubic curve go from its start to its end without a gap.
pub proof fn law_cubics_become_chains(a: [F32; 2], b: [F32; 2], c: [F32; 2], d: [F32; 2], depth: nat)
    ensures
        quads_for(a, b, c, d, depth).len() == pow2(depth),
        leads(quads_for(a, b, c, d, depth), a, d),
    decreases depth,
{
    lemma2_to64();
    if depth > 0 {
        let less = (depth - 1) as nat;
        let ab = halfway(a, b);
        let bc = halfway(b, c);
        let cd = halfway(c, d);
        let abc = halfway(ab, bc);
        let bcd = halfway(bc, cd);
        let middle = halfway(abc, bcd);
        law_cubics_become_chains(a, ab, abc, middle, less);
        law_cubics_become_chains(middle, bcd, cd, d, less);
        lemma_pow2_unfold(depth);
        let first = quads_for(a, ab, abc, middle, less);
        let second = quads_for(middle, bcd, cd, d, less);
        let all = quads_for(a, b, c, d, depth);
        assert(all == first + second);
        assert forall|i: int| 0 < i < all.len() implies #[trigger] all[i].p1 == all[i - 1].p3 by {
            let k = first.len() as int;
            if i < k {
                assert(first[i].p1 == first[i - 1].p3);
            } else if i > k {
                assert(second[i - k].p1 == second[i - k - 1].p3);
            }
        }
    }
}

/// A curve traced from its end to its start.
pub open spec fn turned_round(c: QuadCurve) -> QuadCurve {
    QuadCurve { p1: c.p3, p2: c.p2, p3: c.p1 }
}

/// A cubic curve traced backwards becomes the same pieces traced backwards.
pub proof fn law_cubics_turn_round(a: [F32; 2], b: [F32; 2], c: [F32; 2], d: [F32; 2], depth: nat, i: int)
    requires
        0 <= i < quads_for(a, b, c, d, depth).len(),
    ensures
        ({
            let there = quads_for(a, b, c, d, depth);
            let back = quads_for(d, c, b, a, depth);
            back.len() == there.len() && back[there.len() - 1 - i] == turned_round(there[i])
        }),
    decreases depth,
{
    law_cubics_become_chains(a, b, c, d, depth);
    law_cubics_become_chains(d, c, b, a, depth);
    if depth == 0 {
        lemma2_to64();
        law_sums_commute(b[0], c[0]);
        law_sums_commute(b[1], c[1]);
        law_sums_commute(a[0], d[0]);
        law_sums_commute(a[1], d[1]);
    } else {
        let less = (depth - 1) as nat;
        let ab = halfway(a, b);
        let bc = halfway(b, c);
        let cd = halfway(c, d);
        let abc = halfway(ab, bc);
        let bcd = halfway(bc, cd);
        let middle = halfway(abc, bcd);
        lemma_halves_commute(a, b);
        lemma_halves_commute(b, c);
        lemma_halves_commute(c, d);
        lemma_halves_commute(ab, bc);
        lemma_halves_commute(bc, cd);
        lemma_halves_commute(abc, bcd);
        law_cubics_become_chains(a, ab, abc, middle, less);
        law_cubics_become_chains(middle, bcd, cd, d, less);
        let first = quads_for(a, ab, abc, middle, less);
        let second = quads_for(middle, bcd, cd, d, less);
        let k = first.len() as int;
        if i < k {
            law_cubics_turn_round(a, ab, abc, middle, less, i);
        } else {
            law_cubics_turn_round(middle, bcd, cd, d, less, i - k);
        }
    }
}

proof fn lemma_halves_commute(a: [F32; 2], b: [F32; 2])
    ensures
        halfway(a, b) == halfway(b, a),
{
    law_sums_commute(a[0], b[0]);
    law_sums_commute(a[1], b[1]);
}

/// A value times a constant fraction.
proof fn lemma_scaled(v: F32, f: F32, n: int, d: int)
    requires
        v.finite(),
        f.finite(),
        0 < n <= 4 * d,
        d <= 0x400_0000,
        d * f.value() == n * pow2(149),
        n * abs_int(v.value()) <= d * (0x1_0000_0000_0000_0000 * pow2(149)),
    ensures
        f_mul(v, f).finite(),
        (d * f_mul(v, f).value() - n * v.value()) * 0x80_0000 <= n * abs_int(v.value()) + d * 0x80_0000,
        (n * v.value() - d * f_mul(v, f).value()) * 0x80_0000 <= n * abs_int(v.value()) + d * 0x80_0000,
{
    lemma_pow2_pos(149);
    let u = pow2(149) as int;
    let x = v.value();
    let y = f.value();
    let xy = x * y;
    let c = abs_int(x);
    assert(0 < y <= 4 * u) by (nonlinear_arith)
        requires
            d * y == n * u,
            0 < n <= 4 * d,
            u > 0,
    ;
    assert(abs_int(xy) == c * y) by (nonlinear_arith)
        requires
            xy == x * y,
            c == abs_int(x),
            y > 0,
    ;
    assert(d * (x * y) == (n * x) * u && d * (c * y) == (n * c) * u) by (nonlinear_arith)
        requires
            d * y == n * u,
    ;
    assert(c * y <= 0x1_0000_0000_0000_0000 * (u * u)) by (nonlinear_arith)
        requires
            d * (c * y) == (n * c) * u,
            n * c <= d * (0x1_0000_0000_0000_0000 * u),
            d > 0,
            u > 0,
    ;
    lemma_finite_product(v, f);
    lemma_signed_product_error(v, f);
    let r = f_mul(v, f).value();
    let e = 0x80_0000 * (r * u - x * y);
    assert(e <= c * y + 0x80_0000 * u && -e <= c * y + 0x80_0000 * u);
    let dr = d * r;
    let nx = n * x;
    let nc = n * c;
    assert(d * e == (0x80_0000 * (dr - nx)) * u) by (nonlinear_arith)
        requires
            e == 0x80_0000 * (r * u - x * y),
            d * (x * y) == nx * u,
            dr == d * r,
    ;
    assert(d * (c * y + 0x80_0000 * u) == (nc + 0x80_0000 * d) * u) by (nonlinear_arith)
        requires
            d * (c * y) == nc * u,
    ;
    let m = c * y + 0x80_0000 * u;
    assert(d * e <= d * m && -(d * e) <= d * m) by (nonlinear_arith)
        requires
            e <= m,
            -e <= m,
            d > 0,
    ;
    let g = 0x80_0000 * (dr - nx);
    let h = nc + 0x80_0000 * d;
    assert(g <= h && -g <= h) by (nonlinear_arith)
        requires
            g * u <= h * u,
            -(g * u) <= h * u,
            u > 0,
    ;
}

proof fn lemma_fractions()
    ensures
        2 * (F32 { bits: HALF_BITS }).value() == pow2(149),
        4 * (F32 { bits: QUARTER_BITS }).value() == pow2(149),
        (F32 { bits: THREE_BITS }).value() == 3 * pow2(149),
        0x400_0000 * (F32 { bits: SHEAR_BITS }).value() == 16_730_240 * pow2(149),
        pow2(149) >= 0x100_0000_0000,
{
    lemma_bounds_of_size();
    lemma2_to64();
    lemma_pow2_adds(23, 124);
    lemma_pow2_adds(2, 147);
    lemma_pow2_adds(23, 127);
    lemma_pow2_adds(22, 127);
    lemma_pow2_adds(26, 123);
    assert(QUARTER_BITS as int / 0x80_0000 == 125 && QUARTER_BITS as int % 0x80_0000 == 0);
    assert(THREE_BITS as int / 0x80_0000 == 128 && THREE_BITS as int % 0x80_0000 == 0x40_0000);
    assert(SHEAR_BITS as int / 0x80_0000 == 124 && SHEAR_BITS as int % 0x80_0000 == 0x7f_4880);
}

/// The middle of two values, along one axis.
pub open spec fn mean(x: F32, y: F32) -> F32 {
    f_mul(f_add(x, y), F32 { bits: HALF_BITS })
}

/// A value whose multiple is near an exact one.
#[verifier::opaque]
pub open spec fn is_near(v: F32, n: int, exact: int, k: int, reach: int) -> bool {
    &&& v.finite()
    &&& (n * v.value() - exact) * 0x80_0000 <= k * reach
    &&& (exact - n * v.value()) * 0x80_0000 <= k * reach
}

/// A value within a limit.
#[verifier::opaque]
spec fn bounded(v: F32, x: int, limit: int) -> bool {
    v.finite() && v.value() == x && -limit <= x <= limit
}

/// Doubled, the middle is the sum.
proof fn lemma_mean(v: F32, w: F32, x: int, y: int, limit: int, reach: int) -> (m: int)
    requires
        bounded(v, x, limit),
        bounded(w, y, limit),
        reach <= limit,
        2 * limit <= 3 * reach,
        pow2(149) <= reach <= 0x4800_0000_0000_0000 * pow2(149),
    ensures
        bounded(mean(v, w), m, limit + reach / 0x1000),
        (2 * m - x - y) * 0x80_0000 <= 8 * reach,
        (x + y - 2 * m) * 0x80_0000 <= 8 * reach,
{
    reveal(bounded);
    lemma_fractions();
    lemma_finite_sum(v, w);
    lemma_sum_error(v, w);
    let s = f_add(v, w);
    lemma_scaled(s, F32 { bits: HALF_BITS }, 1, 2);
    mean(v, w).value()
}

/// The cut of a cubic along one axis.
proof fn lemma_cut(a: F32, b: F32, c: F32, d: F32)
    requires
        moderate(a) && moderate(b) && moderate(c) && moderate(d),
    ensures
        ({
            let cut = mean(mean(mean(a, b), mean(b, c)), mean(mean(b, c), mean(c, d)));
            is_near(cut, 8, a.value() + 3 * b.value() + 3 * c.value() + d.value(), 96, span(a, b, c, d))
        }),
{
    let r = span(a, b, c, d);
    lemma_span(a, b, c, d);
    lemma_pow2_pos(149);
    lemma_fractions();
    let (x, y, z, w) = (a.value(), b.value(), c.value(), d.value());
    assert(bounded(a, x, r) && bounded(b, y, r) && bounded(c, z, r) && bounded(d, w, r)) by {
        reveal(bounded);
    }
    lemma_cut_of(a, b, c, d, x, y, z, w, r);
}

proof fn lemma_cut_of(a: F32, b: F32, c: F32, d: F32, x: int, y: int, z: int, w: int, r: int)
    requires
        bounded(a, x, r),
        bounded(b, y, r),
        bounded(c, z, r),
        bounded(d, w, r),
        0x1000 <= pow2(149) <= r <= 0x4800_0000_0000_0000 * pow2(149),
    ensures
        ({
            let cut = mean(mean(mean(a, b), mean(b, c)), mean(mean(b, c), mean(c, d)));
            is_near(cut, 8, x + 3 * y + 3 * z + w, 96, r)
        }),
{
    let e = r / 0x1000;
    let ab = lemma_mean(a, b, x, y, r, r);
    let bc = lemma_mean(b, c, y, z, r, r);
    let cd = lemma_mean(c, d, z, w, r, r);
    let abc = lemma_mean(mean(a, b), mean(b, c), ab, bc, r + e, r);
    let bcd = lemma_mean(mean(b, c), mean(c, d), bc, cd, r + e, r);
    let cut = lemma_mean(mean(mean(a, b), mean(b, c)), mean(mean(b, c), mean(c, d)), abc, bcd, r + e + e, r);
    reveal(bounded);
    reveal(is_near);
}

/// How far out four values lie.
pub open spec fn span(a: F32, b: F32, c: F32, d: F32) -> int {
    abs_int(a.value()) + abs_int(b.value()) + abs_int(c.value()) + abs_int(d.value()) + pow2(149)
}

proof fn lemma_span(a: F32, b: F32, c: F32, d: F32)
    requires
        moderate(a) && moderate(b) && moderate(c) && moderate(d),
    ensures
        a.finite() && b.finite() && c.finite() && d.finite(),
        pow2(149) <= span(a, b, c, d) <= 0x4800_0000_0000_0000 * pow2(149),
{
    lemma_moderate_value(a);
    lemma_moderate_value(b);
    lemma_moderate_value(c);
    lemma_moderate_value(d);
}

/// A quadratic curve stands for a cubic one so that both pass through the same point
/// halfway: four times its control point, with its ends, is three times the inner points,
/// up to rounding.
pub proof fn law_quadratics_meet_their_cubics(a: F32, b: F32, c: F32, d: F32)
    requires
        moderate(a) && moderate(b) && moderate(c) && moderate(d),
    ensures
        ({
            let q = quad_control(a, b, c, d);
            is_near(q, 4, 3 * b.value() + 3 * c.value() - a.value() - d.value(), 24, span(a, b, c, d))
        }),
{
    lemma_span(a, b, c, d);
    lemma_fractions();
    let r = span(a, b, c, d);
    let (x, y, z, w) = (a.value(), b.value(), c.value(), d.value());
    assert(bounded(a, x, r) && bounded(b, y, r) && bounded(c, z, r) && bounded(d, w, r)) by {
        reveal(bounded);
    }
    let inner = lemma_thrice(b, c, y, z, r);
    let ends = lemma_ends(a, d, x, w, r);
    lemma_quarter(f_mul(F32 { bits: THREE_BITS }, f_add(b, c)), f_add(a, d), inner, ends, r);
    reveal(is_near);
}

/// Three times a sum.
proof fn lemma_thrice(v: F32, w: F32, x: int, y: int, r: int) -> (m: int)
    requires
        bounded(v, x, r),
        bounded(w, y, r),
        -r <= x + y <= r,
        pow2(149) <= r <= 0x4800_0000_0000_0000 * pow2(149),
    ensures
        bounded(f_mul(F32 { bits: THREE_BITS }, f_add(v, w)), m, 3 * r + r / 0x1000),
        (m - 3 * x - 3 * y) * 0x80_0000 <= 8 * r,
        (3 * x + 3 * y - m) * 0x80_0000 <= 8 * r,
{
    reveal(bounded);
    lemma_fractions();
    lemma_finite_sum(v, w);
    lemma_sum_error(v, w);
    let s = f_add(v, w);
    let three = F32 { bits: THREE_BITS };
    lemma_scaled(s, three, 3, 1);
    lemma_products_commute(s, three);
    f_mul(three, s).value()
}

/// A sum.
proof fn lemma_ends(v: F32, w: F32, x: int, y: int, r: int) -> (m: int)
    requires
        bounded(v, x, r),
        bounded(w, y, r),
        -r <= x + y <= r,
        pow2(149) <= r <= 0x4800_0000_0000_0000 * pow2(149),
    ensures
        bounded(f_add(v, w), m, r + r / 0x1000),
        (m - x - y) * 0x80_0000 <= 2 * r,
        (x + y - m) * 0x80_0000 <= 2 * r,
{
    reveal(bounded);
    lemma_fractions();
    lemma_finite_sum(v, w);
    lemma_sum_error(v, w);
    f_add(v, w).value()
}

/// A quarter of a difference.
proof fn lemma_quarter(v: F32, w: F32, x: int, y: int, r: int)
    requires
        bounded(v, x, 3 * r + r / 0x1000),
        bounded(w, y, r + r / 0x1000),
        -7 * r <= 2 * (x - y) <= 7 * r,
        pow2(149) <= r <= 0x4800_0000_0000_0000 * pow2(149),
    ensures
        is_near(f_mul(f_sub(v, w), F32 { bits: QUARTER_BITS }), 4, x - y, 10, r),
{
    reveal(bounded);
    reveal(is_near);
    lemma_fractions();
    lemma_finite_difference(v, w);
    lemma_difference_error(v, w);
    lemma_scaled(f_sub(v, w), F32 { bits: QUARTER_BITS }, 1, 4);
}

proof fn lemma_products_commute(a: F32, b: F32)
    ensures
        f_mul(a, b) == f_mul(b, a),
{
    reveal(f_mul);
    let m = magnitude(a.unsigned());
    let n = magnitude(b.unsigned());
    assert(m * n == n * m) by (nonlinear_arith);
}

/// Halving a cubic curve cuts it on the curve: eight times the cut is the sum of the ends
/// and three times the inner points, up to rounding.
pub proof fn law_cubics_are_cut_on_the_curve(
    a: [F32; 2],
    b: [F32; 2],
    c: [F32; 2],
    d: [F32; 2],
    depth: nat,
    axis: int,
)
    requires
        0 <= axis < 2,
        depth > 0,
        moderate(a[axis]) && moderate(b[axis]) && moderate(c[axis]) && moderate(d[axis]),
    ensures
        ({
            let all = quads_for(a, b, c, d, depth);
            let cut = all[all.len() as int / 2 - 1].p3[axis];
            let exact = a[axis].value() + 3 * b[axis].value() + 3 * c[axis].value() + d[axis].value();
            is_near(cut, 8, exact, 96, span(a[axis], b[axis], c[axis], d[axis]))
        }),
{
    let less = (depth - 1) as nat;
    let ab = halfway(a, b);
    let bc = halfway(b, c);
    let cd = halfway(c, d);
    let abc = halfway(ab, bc);
    let bcd = halfway(bc, cd);
    let middle = halfway(abc, bcd);
    law_cubics_become_chains(a, b, c, d, depth);
    law_cubics_become_chains(a, ab, abc, middle, less);
    lemma_pow2_unfold(depth);
    let all = quads_for(a, b, c, d, depth);
    let first = quads_for(a, ab, abc, middle, less);
    assert(all.len() as int / 2 == first.len());
    assert(all[first.len() - 1] == first[first.len() - 1]);
    assert(all[all.len() as int / 2 - 1].p3 == middle);
    assert(forall|p: [F32; 2], q: [F32; 2]|
        #![trigger halfway(p, q)]
        halfway(p, q)[axis] == mean(p[axis], q[axis]));
    lemma_cut(a[axis], b[axis], c[axis], d[axis]);
}

/// A slanted point keeps its height and moves to the right by 0.2493 of it, up to rounding.
pub proof fn law_slanting_moves_points_by_their_height(p: [F32; 2])
    requires
        moderate(p[0]) && moderate(p[1]),
    ensures
        ({
            let q = sheared_point(p);
            let e = 10_000 * (q[0].value() - p[0].value()) - 2_493 * p[1].value();
            let slack = 10_000 * (abs_int(p[0].value()) + abs_int(p[1].value()) + pow2(149));
            q[1] == p[1] && q[0].finite() && e * 0x10_0000 <= slack && -e * 0x10_0000 <= slack
        }),
{
    lemma_fractions();
    lemma_moderate_value(p[0]);
    lemma_moderate_value(p[1]);
    let slant = F32 { bits: SHEAR_BITS };
    let t = f_mul(p[1], slant);
    lemma_scaled(p[1], slant, 16_730_240, 0x400_0000);
    lemma_finite_sum(p[0], t);
    lemma_sum_error(p[0], t);
}

}
