//! What the point of a curve at a parameter is.
use vstd::prelude::*;
use vstd::arithmetic::power2::{lemma2_to64, lemma_pow2_adds, lemma_pow2_pos, pow2};
use crate::border::curve::{eval_axis, lit};
use crate::border::rational::quadratic;
use crate::float32::{
    F32, ONE_BITS, TWO_BITS, abs_int, f_add, f_le, f_mul, f_sub, lemma_difference_error, lemma_magnitude_nonneg,
    lemma_order_is_value_order, lemma_product_error, lemma_rounding_passes_no_pattern, lemma_signed_product_error,
    lemma_sum_error, magnitude,
};
use crate::outline::QuadCurve;
use crate::text_renderer::masks::{lemma_bounds_of_size, lemma_finite_sum, lemma_moderate_value, moderate};

verus! {

/// A product of moderate size is finite.
pub proof fn lemma_finite_product(a: F32, b: F32)
    requires
        a.finite(),
        b.finite(),
        abs_int(a.value() * b.value()) <= 0x1_0000_0000_0000_0000 * (pow2(149) * pow2(149)),
    ensures
        f_mul(a, b).finite(),
{
    reveal(f_mul);
    lemma_bounds_of_size();
    lemma_pow2_pos(149);
    let u = pow2(149) as int;
    let m = magnitude(a.unsigned());
    let n = magnitude(b.unsigned());
    lemma_magnitude_nonneg(a.unsigned());
    lemma_magnitude_nonneg(b.unsigned());
    assert(m * n >= 0) by (nonlinear_arith)
        requires
            m >= 0,
            n >= 0,
    ;
    assert((-m) * n == -(m * n) && m * (-n) == -(m * n) && (-m) * (-n) == m * n) by (nonlinear_arith);
    assert(0x1_0000_0000_0000_0000 * (u * u) == (0x1_0000_0000_0000_0000 * u) * u) by (nonlinear_arith);
    lemma_rounding_passes_no_pattern(m * n, u, 0x5f80_0000);
}

proof fn lemma_constants()
    ensures
        lit(ONE_BITS).value() == pow2(149),
        lit(TWO_BITS).value() == 2 * pow2(149),
        pow2(149) >= 0x1_0000_0000_0000,
{
    lemma2_to64();
    lemma_pow2_adds(23, 126);
    lemma_pow2_adds(23, 127);
    lemma_pow2_adds(1, 149);
    vstd::arithmetic::power2::lemma_pow2_strictly_increases(48, 149);
    vstd::arithmetic::power2::lemma2_to64_rest();
    assert(ONE_BITS as int / 0x80_0000 == 127 && ONE_BITS as int % 0x80_0000 == 0);
    assert(TWO_BITS as int / 0x80_0000 == 128 && TWO_BITS as int % 0x80_0000 == 0);
}

/// A weight that is near its exact value.
spec fn weighs(w: F32, exact: int) -> bool {
    let u = pow2(149) as int;
    &&& w.finite()
    &&& 0 <= w.value() <= 2 * u
    &&& (w.value() * u - exact) * 0x80_0000 <= 16 * (u * u)
    &&& (exact - w.value() * u) * 0x80_0000 <= 16 * (u * u)
}

/// A product of two near-exact values between zero and two.
proof fn lemma_weight(a: F32, x: int, b: F32, y: int)
    requires
        a.finite(),
        b.finite(),
        0 <= a.value() <= 3 * pow2(149),
        0 <= b.value() <= pow2(149),
        0 <= x <= 2 * pow2(149),
        0 <= y <= pow2(149),
        0 <= x * y <= pow2(149) * pow2(149),
        (a.value() - x) * 0x80_0000 <= 5 * pow2(149),
        (x - a.value()) * 0x80_0000 <= 5 * pow2(149),
        (b.value() - y) * 0x80_0000 <= 2 * pow2(149),
        (y - b.value()) * 0x80_0000 <= 2 * pow2(149),
    ensures
        weighs(f_mul(a, b), x * y),
{
    let u = pow2(149) as int;
    lemma_pow2_pos(149);
    lemma_constants();
    let p = a.value();
    let q = b.value();
    let pq = p * q;
    let xy = x * y;
    let uu = u * u;
    assert(0 <= pq <= 3 * uu) by (nonlinear_arith)
        requires
            pq == p * q,
            0 <= p <= 3 * u,
            0 <= q <= u,
            uu == u * u,
    ;
    lemma_finite_product(a, b);
    lemma_product_error(a, b);
    // pq - xy == (p - x) q + x (q - y)
    let d = p - x;
    let e = q - y;
    let dq = d * q;
    let xe = x * e;
    assert(pq - xy == dq + xe) by (nonlinear_arith)
        requires
            pq == p * q,
            xy == x * y,
            dq == (p - x) * q,
            xe == x * (q - y),
    ;
    assert(-5 * uu <= dq * 0x80_0000 <= 5 * uu) by (nonlinear_arith)
        requires
            dq == d * q,
            -5 * u <= d * 0x80_0000 <= 5 * u,
            0 <= q <= u,
            uu == u * u,
    ;
    assert(-4 * uu <= xe * 0x80_0000 <= 4 * uu) by (nonlinear_arith)
        requires
            xe == x * e,
            -2 * u <= e * 0x80_0000 <= 2 * u,
            0 <= x <= 2 * u,
            uu == u * u,
    ;
    let w = f_mul(a, b).value();
    let wu = w * u;
    assert(0x80_0000 * u * 4 <= uu) by (nonlinear_arith)
        requires
            u >= 0x1_0000_0000_0000,
            uu == u * u,
    ;
    assert(wu <= 2 * uu) by {
        assert(wu * 0x80_0000 <= xy * 0x80_0000 + 16 * uu);
    }
    assert(w <= 2 * u) by (nonlinear_arith)
        requires
            w * u <= 2 * (u * u),
            u > 0,
    ;
}

/// A weighted coordinate.
proof fn lemma_term(w: F32, exact: int, p: F32)
    requires
        weighs(w, exact),
        moderate(p),
    ensures
        ({
            let u = pow2(149) as int;
            let uu = u * u;
            let c = abs_int(p.value()) * uu;
            let v = f_mul(w, p).value() * uu;
            let t = exact * p.value();
            &&& f_mul(w, p).finite()
            &&& abs_int(f_mul(w, p).value()) <= 3 * abs_int(p.value()) + 1
            &&& (v - t) * 0x80_0000 <= 18 * c + 0x80_0000 * uu
            &&& (t - v) * 0x80_0000 <= 18 * c + 0x80_0000 * uu
        }),
{
    let u = pow2(149) as int;
    lemma_pow2_pos(149);
    lemma_constants();
    lemma_moderate_value(p);
    let wv = w.value();
    let pv = p.value();
    let c = abs_int(pv);
    let wp = wv * pv;
    let uu = u * u;
    assert(abs_int(wp) == wv * c) by (nonlinear_arith)
        requires
            wp == wv * pv,
            c == abs_int(pv),
            wv >= 0,
    ;
    let cu = c * u;
    assert(wv * c <= 2 * cu) by (nonlinear_arith)
        requires
            0 <= wv <= 2 * u,
            cu == c * u,
            c >= 0,
    ;
    assert(2 * cu <= 0x1_0000_0000_0000_0000 * uu) by (nonlinear_arith)
        requires
            cu == c * u,
            c <= 0x1000_0000_0000_0000 * u,
            uu == u * u,
            u > 0,
    ;
    lemma_finite_product(w, p);
    lemma_signed_product_error(w, p);
    let v = f_mul(w, p).value();
    let vu = v * u;
    // The size of the term.
    assert(abs_int(vu) * 0x80_0000 <= 2 * cu * 0x80_0000 + 2 * cu + 0x80_0000 * u);
    assert(abs_int(v) <= 3 * c + 1) by (nonlinear_arith)
        requires
            vu == v * u,
            abs_int(vu) * 0x80_0000 <= 2 * (c * u) * 0x80_0000 + 2 * (c * u) + 0x80_0000 * u,
            c >= 0,
            u > 0,
    ;
    // Its error, times the unit.
    let vuu = v * uu;
    let wpu = wp * u;
    let cuu = c * uu;
    assert(vuu == vu * u && cuu == cu * u) by (nonlinear_arith)
        requires
            vuu == v * (u * u),
            vu == v * u,
            cuu == c * (u * u),
            cu == c * u,
    ;
    assert((vuu - wpu) * 0x80_0000 <= 2 * cuu + 0x80_0000 * uu && (wpu - vuu) * 0x80_0000 <= 2 * cuu + 0x80_0000 * uu)
        by (nonlinear_arith)
        requires
            (vu - wp) * 0x80_0000 <= 2 * cu + 0x80_0000 * u,
            (wp - vu) * 0x80_0000 <= 2 * cu + 0x80_0000 * u,
            vuu == vu * u,
            wpu == wp * u,
            cuu == cu * u,
            uu == u * u,
            u > 0,
    ;
    let t = exact * pv;
    let wu = wv * u;
    assert(wpu == wu * pv) by (nonlinear_arith)
        requires
            wpu == (wv * pv) * u,
            wu == wv * u,
    ;
    assert((wpu - t) * 0x80_0000 <= 16 * cuu && (t - wpu) * 0x80_0000 <= 16 * cuu) by (nonlinear_arith)
        requires
            wpu == wu * pv,
            t == exact * pv,
            (wu - exact) * 0x80_0000 <= 16 * uu,
            (exact - wu) * 0x80_0000 <= 16 * uu,
            cuu == c * uu,
            c == abs_int(pv),
            uu >= 0,
    ;
}

/// The three weights of a curve's points at a parameter between zero and one.
proof fn lemma_weights(t: F32)
    requires
        f_le(lit(0), t),
        f_le(t, lit(ONE_BITS)),
    ensures
        ({
            let one = lit(ONE_BITS);
            let two = lit(TWO_BITS);
            let u = pow2(149) as int;
            let v = f_sub(one, t);
            let a = t.value();
            let b = u - a;
            &&& 0 <= a <= u
            &&& weighs(f_mul(v, v), b * b)
            &&& weighs(f_mul(f_mul(two, v), t), 2 * (a * b))
            &&& weighs(f_mul(t, t), a * a)
        }),
{
    let one = lit(ONE_BITS);
    let two = lit(TWO_BITS);
    let zero = lit(0);
    let u = pow2(149) as int;
    lemma_pow2_pos(149);
    lemma_constants();
    assert(magnitude(0) == 0);
    lemma_order_is_value_order(zero, t);
    lemma_order_is_value_order(t, one);
    let v = f_sub(one, t);
    let a = t.value();
    let b = u - a;
    crate::float32::law_differences_keep_order(one, t, one);
    crate::float32::law_differences_keep_order(one, t, zero);
    lemma_order_is_value_order(v, one);
    lemma_order_is_value_order(zero, v);
    lemma_difference_error(one, t);
    let w = v.value();
    let uu = u * u;
    assert(0 <= b * b <= uu && 0 <= a * a <= uu && 0 <= (2 * b) * a <= uu && (2 * b) * a == 2 * (a * b)) by (nonlinear_arith)
        requires
            0 <= a <= u,
            b == u - a,
            uu == u * u,
    ;
    lemma_weight(v, b, v, b);
    lemma_weight(t, a, t, a);
    let tw = two.value() * w;
    assert(0 <= tw <= 2 * uu) by (nonlinear_arith)
        requires
            tw == (2 * u) * w,
            0 <= w <= u,
            uu == u * u,
    ;
    lemma_finite_product(two, v);
    lemma_product_error(two, v);
    let d = f_mul(two, v).value();
    assert((d - 2 * w) * 0x80_0000 <= 2 * w + 0x80_0000 && (2 * w - d) * 0x80_0000 <= 2 * w + 0x80_0000) by (nonlinear_arith)
        requires
            (d * u - (2 * u) * w) * 0x80_0000 <= (2 * u) * w + 0x80_0000 * u,
            ((2 * u) * w - d * u) * 0x80_0000 <= (2 * u) * w + 0x80_0000 * u,
            u > 0,
    ;
    lemma_weight(f_mul(two, v), 2 * b, t, a);
}

/// A point of a curve lies on the curve: at a parameter between zero and one, each
/// coordinate is the sum of those of the three points, weighted by the square of what is
/// left to one, by twice the product, and by the square of the parameter, up to rounding.
pub proof fn law_points_lie_on_their_curve(c: QuadCurve, t: F32, axis: int)
    requires
        axis == 0 || axis == 1,
        f_le(lit(0), t),
        f_le(t, lit(ONE_BITS)),
        moderate(c.p1[axis]),
        moderate(c.p2[axis]),
        moderate(c.p3[axis]),
    ensures
        ({
            let u = pow2(149) as int;
            let uu = u * u;
            let x = c.p1[axis].value();
            let y = c.p2[axis].value();
            let z = c.p3[axis].value();
            let v = eval_axis(c, t, axis).value() * uu;
            let q = quadratic(x, y, z, t.value(), u);
            let slack = (abs_int(x) + abs_int(y) + abs_int(z) + 0x80_0000) * uu;
            &&& eval_axis(c, t, axis).finite()
            &&& (v - q) * 0x4_0000 <= slack
            &&& (q - v) * 0x4_0000 <= slack
        }),
{
    reveal(eval_axis);
    let one = lit(ONE_BITS);
    let two = lit(TWO_BITS);
    let u = pow2(149) as int;
    lemma_pow2_pos(149);
    lemma_constants();
    let v = f_sub(one, t);
    lemma_weights(t);
    let a = t.value();
    let b = u - a;
    let p1 = c.p1[axis];
    let p2 = c.p2[axis];
    let p3 = c.p3[axis];
    lemma_term(f_mul(v, v), b * b, p1);
    lemma_term(f_mul(f_mul(two, v), t), 2 * (a * b), p2);
    lemma_term(f_mul(t, t), a * a, p3);
    lemma_three_terms(
        f_mul(f_mul(v, v), p1),
        f_mul(f_mul(f_mul(two, v), t), p2),
        f_mul(f_mul(t, t), p3),
        (b * b) * p1.value(),
        (2 * (a * b)) * p2.value(),
        (a * a) * p3.value(),
        p1,
        p2,
        p3,
    );
    let x = p1.value();
    let y = p2.value();
    let z = p3.value();
    assert((b * b) * x + (2 * (a * b)) * y + (a * a) * z == x * (b * b) + 2 * (y * (a * b)) + z * (a * a)) by (nonlinear_arith);
}

proof fn lemma_three_terms(f: F32, g: F32, h: F32, i: int, j: int, k: int, p: F32, q: F32, r: F32)
    requires
        moderate(p),
        moderate(q),
        moderate(r),
        ({
            let uu = pow2(149) * pow2(149);
            &&& f.finite() && g.finite() && h.finite()
            &&& abs_int(f.value()) <= 3 * abs_int(p.value()) + 1
            &&& abs_int(g.value()) <= 3 * abs_int(q.value()) + 1
            &&& abs_int(h.value()) <= 3 * abs_int(r.value()) + 1
            &&& (f.value() * uu - i) * 0x80_0000 <= 18 * (abs_int(p.value()) * uu) + 0x80_0000 * uu
            &&& (i - f.value() * uu) * 0x80_0000 <= 18 * (abs_int(p.value()) * uu) + 0x80_0000 * uu
            &&& (g.value() * uu - j) * 0x80_0000 <= 18 * (abs_int(q.value()) * uu) + 0x80_0000 * uu
            &&& (j - g.value() * uu) * 0x80_0000 <= 18 * (abs_int(q.value()) * uu) + 0x80_0000 * uu
            &&& (h.value() * uu - k) * 0x80_0000 <= 18 * (abs_int(r.value()) * uu) + 0x80_0000 * uu
            &&& (k - h.value() * uu) * 0x80_0000 <= 18 * (abs_int(r.value()) * uu) + 0x80_0000 * uu
        }),
    ensures
        ({
            let uu = pow2(149) * pow2(149);
            let v = f_add(f_add(f, g), h).value() * uu;
            let slack = (abs_int(p.value()) + abs_int(q.value()) + abs_int(r.value()) + 0x80_0000) * uu;
            &&& f_add(f_add(f, g), h).finite()
            &&& (v - (i + j + k)) * 0x4_0000 <= slack
            &&& ((i + j + k) - v) * 0x4_0000 <= slack
        }),
{
    lemma_bounds_of_size();
    lemma_pow2_pos(149);
    lemma_moderate_value(p);
    lemma_moderate_value(q);
    lemma_moderate_value(r);
    let u = pow2(149) as int;
    let uu = u * u;
    let s = f_add(f, g);
    lemma_finite_sum(f, g);
    lemma_sum_error(f, g);
    lemma_finite_sum(s, h);
    lemma_sum_error(s, h);
    let e = f_add(s, h);
    let fv = f.value();
    let gv = g.value();
    let hv = h.value();
    let ev = e.value();
    let cp = abs_int(p.value());
    let cq = abs_int(q.value());
    let cr = abs_int(r.value());
    let total = cp + cq + cr;
    // The two sums lose little.
    let d = ev - (fv + gv + hv);
    assert(d * 0x80_0000 <= 10 * total + 0x200_0000 && -(d * 0x80_0000) <= 10 * total + 0x200_0000);
    let duu = d * uu;
    let tuu = total * uu;
    assert(uu > 0) by (nonlinear_arith)
        requires
            uu == u * u,
            u > 0,
    ;
    assert(duu * 0x80_0000 <= 10 * tuu + 0x200_0000 * uu && -(duu * 0x80_0000) <= 10 * tuu + 0x200_0000 * uu) by (nonlinear_arith)
        requires
            d * 0x80_0000 <= 10 * total + 0x200_0000,
            -(d * 0x80_0000) <= 10 * total + 0x200_0000,
            duu == d * uu,
            tuu == total * uu,
            uu > 0,
    ;
    assert(ev * uu == duu + fv * uu + gv * uu + hv * uu) by (nonlinear_arith)
        requires
            duu == (ev - (fv + gv + hv)) * uu,
    ;
    assert(tuu == cp * uu + cq * uu + cr * uu) by (nonlinear_arith)
        requires
            tuu == total * uu,
            total == cp + cq + cr,
    ;
    assert((total + 0x80_0000) * uu == tuu + 0x80_0000 * uu) by (nonlinear_arith)
        requires
            tuu == total * uu,
    ;
    assert(tuu >= 0) by (nonlinear_arith)
        requires
            tuu == total * uu,
            total >= 0,
            uu > 0,
    ;
}

}
