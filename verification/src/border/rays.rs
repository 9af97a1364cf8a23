//! On which side of a point a curve counts.
use vstd::prelude::*;
use vstd::arithmetic::power2::{lemma_pow2_pos, pow2};
use crate::border::bezier::law_points_lie_on_their_curve;
use crate::border::curve::{axis_roots, curve_winding, eval_axis, is_segment, lit, root_winding, roots_winding};
use crate::border::portions::lemma_parameter;
use crate::border::rational::quadratic;
use crate::float32::{F32, ONE_BITS, abs_int, f_le, lemma_order_is_value_order};
use crate::outline::QuadCurve;
use crate::text_renderer::masks::moderate;

verus! {

/// How far a point of a curve may be off, at 2^18 times.
pub open spec fn spread_of(c: QuadCurve) -> int {
    abs_int(c.p1[0].value()) + abs_int(c.p2[0].value()) + abs_int(c.p3[0].value()) + 0x80_0000
}

pub open spec fn moderate_curve(c: QuadCurve) -> bool {
    moderate(c.p1[0]) && moderate(c.p2[0]) && moderate(c.p3[0])
}

/// The three points of a curve are left of a value, by more than rounding may do.
pub open spec fn left_of(c: QuadCurve, v: F32) -> bool {
    &&& (v.value() - c.p1[0].value()) * 0x4_0000 >= spread_of(c)
    &&& (v.value() - c.p2[0].value()) * 0x4_0000 >= spread_of(c)
    &&& (v.value() - c.p3[0].value()) * 0x4_0000 >= spread_of(c)
}

/// The three points of a curve are right of a value, by more than rounding may do.
pub open spec fn right_of(c: QuadCurve, v: F32) -> bool {
    &&& (c.p1[0].value() - v.value()) * 0x4_0000 > spread_of(c)
    &&& (c.p2[0].value() - v.value()) * 0x4_0000 > spread_of(c)
    &&& (c.p3[0].value() - v.value()) * 0x4_0000 > spread_of(c)
}

/// A point of a curve lies between its control points.
proof fn lemma_between(x: int, y: int, z: int, s: int, u: int, m: int)
    requires
        0 <= s <= u,
    ensures
        x <= m && y <= m && z <= m ==> quadratic(x, y, z, s, u) <= m * (u * u),
        x >= m && y >= m && z >= m ==> quadratic(x, y, z, s, u) >= m * (u * u),
{
    let k = (u - s) * (u - s);
    let l = s * (u - s);
    let n = s * s;
    assert(k >= 0 && l >= 0 && n >= 0 && k + 2 * l + n == u * u) by (nonlinear_arith)
        requires
            0 <= s <= u,
            k == (u - s) * (u - s),
            l == s * (u - s),
            n == s * s,
    ;
    assert(m * (u * u) == m * k + 2 * (m * l) + m * n) by (nonlinear_arith)
        requires
            k + 2 * l + n == u * u,
    ;
    assert(x <= m ==> x * k <= m * k) by (nonlinear_arith)
        requires
            k >= 0,
    ;
    assert(y <= m ==> y * l <= m * l) by (nonlinear_arith)
        requires
            l >= 0,
    ;
    assert(z <= m ==> z * n <= m * n) by (nonlinear_arith)
        requires
            n >= 0,
    ;
    assert(x >= m ==> x * k >= m * k) by (nonlinear_arith)
        requires
            k >= 0,
    ;
    assert(y >= m ==> y * l >= m * l) by (nonlinear_arith)
        requires
            l >= 0,
    ;
    assert(z >= m ==> z * n >= m * n) by (nonlinear_arith)
        requires
            n >= 0,
    ;
}

/// Where a curve is left or right of a value, so is its every point.
proof fn lemma_side(c: QuadCurve, t: F32, v: F32)
    requires
        moderate_curve(c),
        v.finite(),
        f_le(lit(0), t),
        f_le(t, lit(ONE_BITS)),
    ensures
        left_of(c, v) ==> f_le(eval_axis(c, t, 0), v),
        right_of(c, v) ==> !f_le(eval_axis(c, t, 0), v),
{
    let u = pow2(149) as int;
    let uu = u * u;
    lemma_pow2_pos(149);
    lemma_parameter(t);
    law_points_lie_on_their_curve(c, t, 0);
    let x = c.p1[0].value();
    let y = c.p2[0].value();
    let z = c.p3[0].value();
    let e = eval_axis(c, t, 0).value();
    let q = quadratic(x, y, z, t.value(), u);
    let most = if x >= y && x >= z { x } else if y >= z { y } else { z };
    let least = if x <= y && x <= z { x } else if y <= z { y } else { z };
    lemma_between(x, y, z, t.value(), u, most);
    lemma_between(x, y, z, t.value(), u, least);
    let r = spread_of(c);
    assert((e - most) * 0x4_0000 <= r && (least - e) * 0x4_0000 <= r) by (nonlinear_arith)
        requires
            (e * uu - q) * 0x4_0000 <= r * uu,
            (q - e * uu) * 0x4_0000 <= r * uu,
            q <= most * uu,
            q >= least * uu,
            uu == u * u,
            u > 0,
    ;
    lemma_order_is_value_order(eval_axis(c, t, 0), v);
}

proof fn lemma_left_roots(c: QuadCurve, p: [F32; 2], roots: Seq<F32>)
    requires
        moderate_curve(c),
        p[0].finite(),
        left_of(c, p[0]),
    ensures
        roots_winding(c, p, roots) == 0,
    decreases roots.len(),
{
    if roots.len() > 0 {
        lemma_left_roots(c, p, roots.drop_last());
        reveal(root_winding);
        let t = roots.last();
        if f_le(lit(0), t) && f_le(t, lit(ONE_BITS)) {
            lemma_side(c, t, p[0]);
        }
    }
}

proof fn lemma_right_roots(c: QuadCurve, p: [F32; 2], q: [F32; 2], roots: Seq<F32>)
    requires
        moderate_curve(c),
        p[0].finite() && q[0].finite(),
        right_of(c, p[0]) && right_of(c, q[0]),
    ensures
        roots_winding(c, p, roots) == roots_winding(c, q, roots),
    decreases roots.len(),
{
    if roots.len() > 0 {
        lemma_right_roots(c, p, q, roots.drop_last());
        reveal(root_winding);
        let t = roots.last();
        if f_le(lit(0), t) && f_le(t, lit(ONE_BITS)) {
            lemma_side(c, t, p[0]);
            lemma_side(c, t, q[0]);
        }
    }
}

/// A bent curve to the left of a point does not count for it.
pub proof fn law_curves_to_the_left_do_not_wind(c: QuadCurve, p: [F32; 2])
    requires
        !is_segment(c),
        moderate_curve(c),
        p[0].finite(),
        left_of(c, p[0]),
    ensures
        curve_winding(c, p) == 0,
{
    lemma_left_roots(c, p, axis_roots(c, 1, p[1]));
}

/// A bent curve to the right of two points at one height counts the same for both.
pub proof fn law_curves_to_the_right_wind_alike(c: QuadCurve, p: [F32; 2], q: [F32; 2])
    requires
        !is_segment(c),
        moderate_curve(c),
        p[0].finite() && q[0].finite(),
        p[1] == q[1],
        right_of(c, p[0]) && right_of(c, q[0]),
    ensures
        curve_winding(c, p) == curve_winding(c, q),
{
    lemma_right_roots(c, p, q, axis_roots(c, 1, p[1]));
}

}
