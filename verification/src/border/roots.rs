//! What the roots of a curve are.
use vstd::prelude::*;
use vstd::arithmetic::power2::{lemma2_to64, lemma_pow2_adds, lemma_pow2_pos, pow2};
use crate::border::bezier::lemma_finite_product;
use crate::border::curve::{COEFFICIENT_EPSILON_BITS, axis_roots, lit};
use crate::border::portions::lemma_parameter;
use crate::border::rational::quadratic;
use crate::float32::{
    F32, FOUR_BITS, ONE_BITS, TWO_BITS, abs_int, f_abs, f_add, f_div, f_le, f_lt, f_mul, f_neg, f_sqrt, f_sub,
    lemma_difference_error, lemma_magnitude_nonneg, lemma_order_is_value_order, lemma_root_error,
    lemma_signed_product_error, lemma_signed_quotient_error, lemma_sum_error, magnitude,
};
use crate::outline::QuadCurve;
use crate::text_renderer::masks::{lemma_bounds_of_size, lemma_finite_difference, lemma_finite_sum};

verus! {

/// The coefficients of a curve's coordinate along an axis, less a value, are exact and at
/// most 2^28, as those of points on a grid are.
pub open spec fn exact_coefficients(c: QuadCurve, axis: int, at: F32) -> bool {
    let u = pow2(149) as int;
    let x = c.p1[axis].value();
    let y = c.p2[axis].value();
    let z = c.p3[axis].value();
    let a = f_add(f_sub(c.p1[axis], f_mul(lit(TWO_BITS), c.p2[axis])), c.p3[axis]);
    let b = f_mul(lit(TWO_BITS), f_sub(c.p2[axis], c.p1[axis]));
    let k = f_sub(c.p1[axis], at);
    &&& a.finite() && a.value() == x - 2 * y + z && abs_int(a.value()) <= 0x1000_0000 * u
    &&& b.finite() && b.value() == 2 * (y - x) && abs_int(b.value()) <= 0x1000_0000 * u
    &&& k.finite() && k.value() == x - at.value() && abs_int(k.value()) <= 0x1000_0000 * u
}

proof fn lemma_units()
    ensures
        lit(ONE_BITS).value() == pow2(149),
        lit(TWO_BITS).value() == 2 * pow2(149),
        lit(FOUR_BITS).value() == 4 * pow2(149),
        lit(0).value() == 0,
        pow2(149) >= 0x1_0000_0000_0000_0000_0000,
{
    lemma_bounds_of_size();
    lemma2_to64();
    vstd::arithmetic::power2::lemma2_to64_rest();
    lemma_pow2_adds(23, 126);
    lemma_pow2_adds(23, 127);
    lemma_pow2_adds(23, 128);
    lemma_pow2_adds(1, 149);
    lemma_pow2_adds(2, 149);
    lemma_pow2_adds(64, 16);
    vstd::arithmetic::power2::lemma_pow2_strictly_increases(80, 149);
    assert(magnitude(0) == 0);
    assert(ONE_BITS as int / 0x80_0000 == 127 && ONE_BITS as int % 0x80_0000 == 0);
    assert(TWO_BITS as int / 0x80_0000 == 128 && TWO_BITS as int % 0x80_0000 == 0);
    assert(FOUR_BITS as int / 0x80_0000 == 129 && FOUR_BITS as int % 0x80_0000 == 0);
}

/// A multiple of a value.
#[verifier::spinoff_prover]
proof fn lemma_multiple(f: F32, n: int, a: F32)
    requires
        f.finite(),
        a.finite(),
        1 <= n <= 4,
        f.value() == n * pow2(149),
        abs_int(a.value()) <= 0x1000_0000 * pow2(149),
    ensures
        f_mul(f, a).finite(),
        (f_mul(f, a).value() - n * a.value()) * 0x80_0000 <= n * abs_int(a.value()) + 0x80_0000,
        (n * a.value() - f_mul(f, a).value()) * 0x80_0000 <= n * abs_int(a.value()) + 0x80_0000,
{
    lemma_units();
    let u = pow2(149) as int;
    let x = a.value();
    let c = abs_int(x);
    let nx = n * x;
    let nc = n * c;
    assert(f.value() * x == nx * u) by (nonlinear_arith)
        requires
            f.value() == n * u,
            nx == n * x,
    ;
    assert(abs_int(nx * u) == nc * u && 0 <= nc <= 4 * c) by (nonlinear_arith)
        requires
            nx == n * x,
            nc == n * c,
            c == abs_int(x),
            1 <= n <= 4,
            u > 0,
    ;
    assert(nc * u <= 0x1_0000_0000_0000_0000 * (u * u)) by (nonlinear_arith)
        requires
            nc <= 0x4000_0000 * u,
            u > 0,
    ;
    lemma_finite_product(f, a);
    lemma_signed_product_error(f, a);
    let v = f_mul(f, a).value();
    assert((v - nx) * 0x80_0000 <= nc + 0x80_0000 && (nx - v) * 0x80_0000 <= nc + 0x80_0000) by (nonlinear_arith)
        requires
            (v * u - nx * u) * 0x80_0000 <= nc * u + 0x80_0000 * u,
            (nx * u - v * u) * 0x80_0000 <= nc * u + 0x80_0000 * u,
            u > 0,
    ;
}

/// How large the terms of the discriminant are.
pub open spec fn terms(a: int, b: int, k: int) -> int {
    b * b + 4 * abs_int(a * k) + pow2(149) * pow2(149)
}

/// The discriminant.
#[verifier::spinoff_prover]
proof fn lemma_discriminant(a: F32, b: F32, k: F32)
    requires
        a.finite() && b.finite() && k.finite(),
        abs_int(a.value()) <= 0x1000_0000 * pow2(149),
        abs_int(b.value()) <= 0x1000_0000 * pow2(149),
        abs_int(k.value()) <= 0x1000_0000 * pow2(149),
    ensures
        ({
            let d = f_sub(f_mul(b, b), f_mul(f_mul(lit(FOUR_BITS), a), k));
            let q = b.value() * b.value() - 4 * (a.value() * k.value());
            let g = terms(a.value(), b.value(), k.value());
            &&& d.finite()
            &&& (d.value() * pow2(149) - q) * 0x80_0000 <= 8 * g
            &&& (q - d.value() * pow2(149)) * 0x80_0000 <= 8 * g
        }),
{
    lemma_units();
    let u = pow2(149) as int;
    let uu = u * u;
    let (x, y, z) = (a.value(), b.value(), k.value());
    let four = f_mul(lit(FOUR_BITS), a);
    lemma_multiple(lit(FOUR_BITS), 4, a);
    let w = four.value();
    let yy = y * y;
    let xz = x * z;
    let wz = w * z;
    let g = yy + 4 * abs_int(xz) + uu;
    assert(0 <= yy <= 0x100_0000_0000_0000 * uu) by (nonlinear_arith)
        requires
            yy == y * y,
            -0x1000_0000 * u <= y <= 0x1000_0000 * u,
            uu == u * u,
    ;
    assert(-0x500_0000_0000_0000 * uu <= wz <= 0x500_0000_0000_0000 * uu) by (nonlinear_arith)
        requires
            wz == w * z,
            -0x5000_0000 * u <= w <= 0x5000_0000 * u,
            -0x1000_0000 * u <= z <= 0x1000_0000 * u,
            uu == u * u,
    ;
    // wz is near 4 xz.
    let e = w - 4 * x;
    let ez = e * z;
    assert(wz == 4 * xz + ez) by (nonlinear_arith)
        requires
            wz == w * z,
            xz == x * z,
            e == w - 4 * x,
            ez == e * z,
    ;
    assert(abs_int(ez) * 0x80_0000 <= 4 * abs_int(xz) + 0x80_0000 * abs_int(z)) by (nonlinear_arith)
        requires
            ez == e * z,
            xz == x * z,
            abs_int(e) * 0x80_0000 <= 4 * abs_int(x) + 0x80_0000,
    ;
    assert(0x800_0000_0000_0000 * u <= uu) by (nonlinear_arith)
        requires
            uu == u * u,
            u >= 0x1_0000_0000_0000_0000_0000,
    ;
    lemma_finite_product(b, b);
    lemma_signed_product_error(b, b);
    lemma_finite_product(four, k);
    lemma_signed_product_error(four, k);
    let p = f_mul(b, b);
    let q = f_mul(four, k);
    let pu = p.value() * u;
    let qu = q.value() * u;
    assert(-0x200_0000_0000_0000 * uu <= pu <= 0x200_0000_0000_0000 * uu);
    assert(-0x600_0000_0000_0000 * uu <= qu <= 0x600_0000_0000_0000 * uu);
    assert(-0x200_0000_0000_0000 * u <= p.value() <= 0x200_0000_0000_0000 * u) by (nonlinear_arith)
        requires
            pu == p.value() * u,
            uu == u * u,
            -0x200_0000_0000_0000 * uu <= pu <= 0x200_0000_0000_0000 * uu,
            u > 0,
    ;
    assert(-0x600_0000_0000_0000 * u <= q.value() <= 0x600_0000_0000_0000 * u) by (nonlinear_arith)
        requires
            qu == q.value() * u,
            uu == u * u,
            -0x600_0000_0000_0000 * uu <= qu <= 0x600_0000_0000_0000 * uu,
            u > 0,
    ;
    lemma_finite_difference(p, q);
    lemma_difference_error(p, q);
    let d = f_sub(p, q).value();
    let gap = d - p.value() + q.value();
    let n = p.value() - q.value();
    let nu = n * u;
    assert(nu == pu - qu) by (nonlinear_arith)
        requires
            nu == n * u,
            n == p.value() - q.value(),
            pu == p.value() * u,
            qu == q.value() * u,
    ;
    let gu = gap * u;
    assert(d * u == gu + pu - qu) by (nonlinear_arith)
        requires
            gu == gap * u,
            gap == d - p.value() + q.value(),
            pu == p.value() * u,
            qu == q.value() * u,
    ;
    assert(abs_int(gu) * 0x80_0000 <= abs_int(nu) + 0x80_0000 * u) by (nonlinear_arith)
        requires
            gu == gap * u,
            nu == n * u,
            abs_int(gap) * 0x80_0000 <= abs_int(n) + 0x80_0000,
            u > 0,
    ;
}

/// A quotient by a value of any sign.
#[verifier::spinoff_prover]
proof fn lemma_quotient(n: F32, t: F32)
    requires
        n.finite(),
        t.finite(),
        t.value() != 0,
        f_div(n, t).finite(),
    ensures
        ({
            let x = n.value() * pow2(149);
            let v = f_div(n, t).value() * t.value();
            &&& (v - x) * 0x80_0000 <= abs_int(x) + 0x80_0000 * abs_int(t.value())
            &&& (x - v) * 0x80_0000 <= abs_int(x) + 0x80_0000 * abs_int(t.value())
        }),
{
    let u = pow2(149) as int;
    if t.value() > 0 {
        lemma_signed_quotient_error(n, t);
    } else {
        let m = f_neg(n);
        let w = f_neg(t);
        assert(m.unsigned() == n.unsigned() && m.negative() != n.negative());
        assert(w.unsigned() == t.unsigned() && w.negative() != t.negative());
        assert(f_div(m, w) == f_div(n, t)) by {
            reveal(f_div);
        }
        lemma_signed_quotient_error(m, w);
        let v = f_div(n, t).value();
        let (a, b) = (n.value(), t.value());
        assert((-a) * u == -(a * u) && v * (-b) == -(v * b)) by (nonlinear_arith);
    }
}

/// Twice the leading coefficient times the root, with the middle one, is the root of the
/// discriminant, up to rounding.
#[verifier::spinoff_prover]
proof fn lemma_completed(a: int, b: int, s: int, side: int, n: int, t: int, r: int)
    requires
        abs_int(a) <= 0x1000_0000 * pow2(149),
        s >= 0,
        side == s || side == -s,
        (n + b - side) * 0x80_0000 <= abs_int(side - b) + 0x80_0000,
        (side - b - n) * 0x80_0000 <= abs_int(side - b) + 0x80_0000,
        (t - 2 * a) * 0x80_0000 <= 2 * abs_int(a) + 0x80_0000,
        (2 * a - t) * 0x80_0000 <= 2 * abs_int(a) + 0x80_0000,
        (r * t - n * pow2(149)) * 0x80_0000 <= abs_int(n * pow2(149)) + 0x80_0000 * abs_int(t),
        (n * pow2(149) - r * t) * 0x80_0000 <= abs_int(n * pow2(149)) + 0x80_0000 * abs_int(t),
        0 <= r <= pow2(149),
    ensures
        ({
            let u = pow2(149) as int;
            let wu = (abs_int(b) + s + u) * u;
            let e = 2 * (a * r) + b * u - side * u;
            -16 * wu <= e * 0x80_0000 <= 16 * wu
        }),
{
    lemma_units();
    let u = pow2(149) as int;
    let uu = u * u;
    let w = abs_int(b) + s + u;
    let wu = w * u;
    assert(0x800_0000_0000_0000 * u <= uu && uu <= wu) by (nonlinear_arith)
        requires
            uu == u * u,
            wu == w * u,
            w >= u,
            u >= 0x1_0000_0000_0000_0000_0000,
    ;
    let nu = n * u;
    assert(abs_int(n) <= 2 * w);
    assert(abs_int(nu) <= 2 * wu) by (nonlinear_arith)
        requires
            nu == n * u,
            wu == w * u,
            abs_int(n) <= 2 * w,
            u > 0,
    ;
    let rt = r * t;
    assert(abs_int(rt) <= 3 * wu);
    // The doubled coefficient.
    let h = t - 2 * a;
    let rh = r * h;
    let ra = a * r;
    assert(rt == rh + 2 * ra) by (nonlinear_arith)
        requires
            rt == r * t,
            rh == r * h,
            ra == a * r,
            h == t - 2 * a,
    ;
    assert(abs_int(rh) * 0x80_0000 <= 2 * abs_int(ra) + 0x80_0000 * r) by (nonlinear_arith)
        requires
            rh == r * h,
            ra == a * r,
            abs_int(h) * 0x80_0000 <= 2 * abs_int(a) + 0x80_0000,
            r >= 0,
    ;
    // The numerator.
    let m = n + b - side;
    let mu = m * u;
    assert(nu == mu - b * u + side * u) by (nonlinear_arith)
        requires
            nu == n * u,
            mu == m * u,
            m == n + b - side,
    ;
    assert(abs_int(m) * 0x80_0000 <= w + 0x80_0000);
    assert(abs_int(mu) * 0x80_0000 <= wu + 0x80_0000 * u) by (nonlinear_arith)
        requires
            mu == m * u,
            wu == w * u,
            abs_int(m) * 0x80_0000 <= w + 0x80_0000,
            u > 0,
    ;
}

/// The square of it is the discriminant.
#[verifier::spinoff_prover]
proof fn lemma_squared(a: int, b: int, k: int, s: int, side: int, r: int, d: int)
    requires
        s >= 0,
        side == s || side == -s,
        ({
            let u = pow2(149) as int;
            let wu = (abs_int(b) + s + u) * u;
            let e = 2 * (a * r) + b * u - side * u;
            let q = b * b - 4 * (a * k);
            &&& -16 * wu <= e * 0x80_0000 <= 16 * wu
            &&& (d * u - q) * 0x80_0000 <= 8 * terms(a, b, k)
            &&& (q - d * u) * 0x80_0000 <= 8 * terms(a, b, k)
            &&& (s * s - d * u) * 0x40_0000 <= s * s + 0x80_0000 * s + 0x80_0000
            &&& (d * u - s * s) * 0x40_0000 <= s * s + 0x80_0000 * s + 0x80_0000
        }),
    ensures
        ({
            let u = pow2(149) as int;
            let uu = u * u;
            let e = 4 * (a * (a * (r * r) + b * (r * u) + k * uu));
            -(terms(a, b, k) * uu) <= e * 0x2000 <= terms(a, b, k) * uu
        }),
{
    lemma_units();
    let u = pow2(149) as int;
    let uu = u * u;
    let g = terms(a, b, k);
    let ss = s * s;
    let bb = b * b;
    let ak = a * k;
    let w = abs_int(b) + s + u;
    let wu = w * u;
    assert(0x800_0000_0000_0000 * u <= uu && bb >= 0 && ss >= 0 && uu > 0) by (nonlinear_arith)
        requires
            uu == u * u,
            bb == b * b,
            ss == s * s,
            u >= 0x1_0000_0000_0000_0000_0000,
    ;
    assert(s * 2 <= ss + 1) by (nonlinear_arith)
        requires
            ss == s * s,
    ;
    // The square of the root is at most three times the terms, whatever the root.
    assert(0x80_0000 * s <= ss + uu) by (nonlinear_arith)
        requires
            ss == s * s,
            s >= 0,
            uu >= 0x800_0000_0000_0000 * 0x80_0000,
    ;
    assert(ss <= 3 * g);
    let ww = w * w;
    assert(ww <= 3 * (bb + ss + uu)) by (nonlinear_arith)
        requires
            ww == w * w,
            w == abs_int(b) + s + u,
            bb == b * b,
            ss == s * s,
            uu == u * u,
    ;
    assert(ww <= 12 * g);
    let x = 2 * (a * r) + b * u;
    let y = side * u;
    let e = x - y;
    assert(abs_int(y) <= wu) by (nonlinear_arith)
        requires
            y == side * u,
            wu == w * u,
            abs_int(side) <= w,
            u > 0,
    ;
    let f = x + y;
    assert(-3 * wu <= f <= 3 * wu);
    let ef = e * f;
    let wwu = wu * wu;
    assert(-48 * wwu <= ef * 0x80_0000 <= 48 * wwu) by (nonlinear_arith)
        requires
            ef == e * f,
            wwu == wu * wu,
            -16 * wu <= e * 0x80_0000 <= 16 * wu,
            -3 * wu <= f <= 3 * wu,
    ;
    assert(wwu == ww * uu) by (nonlinear_arith)
        requires
            wwu == wu * wu,
            wu == w * u,
            ww == w * w,
            uu == u * u,
    ;
    let gu = g * uu;
    assert(ww * uu <= 12 * gu) by (nonlinear_arith)
        requires
            ww <= 12 * g,
            gu == g * uu,
            uu > 0,
    ;
    // x * x == ef + ss * uu, and ss is near the discriminant.
    assert(x * x == ef + ss * uu) by (nonlinear_arith)
        requires
            ef == e * f,
            e == x - y,
            f == x + y,
            y == side * u,
            side == s || side == -s,
            ss == s * s,
            uu == u * u,
    ;
    let q = bb - 4 * ak;
    let off = ss - q;
    assert(-24 * g <= off * 0x80_0000 <= 24 * g);
    assert(-24 * gu <= (off * uu) * 0x80_0000 <= 24 * gu) by (nonlinear_arith)
        requires
            -24 * g <= off * 0x80_0000 <= 24 * g,
            gu == g * uu,
            uu > 0,
    ;
    assert(ss * uu == off * uu + q * uu) by (nonlinear_arith)
        requires
            off == ss - q,
    ;
    lemma_complete_square(a, b, k, r, u);
}

#[verifier::spinoff_prover]
proof fn lemma_complete_square(a: int, b: int, k: int, r: int, u: int)
    ensures
        ({
            let x = 2 * (a * r) + b * u;
            let uu = u * u;
            x * x - (b * b - 4 * (a * k)) * uu == 4 * (a * (a * (r * r) + b * (r * u) + k * uu))
        }),
{
    let ar = a * r;
    let bu = b * u;
    let x = 2 * ar + bu;
    let uu = u * u;
    assert(x * x == 4 * (ar * ar) + 4 * (ar * bu) + bu * bu) by (nonlinear_arith)
        requires
            x == 2 * ar + bu,
    ;
    assert(ar * ar == a * (a * (r * r)) && ar * bu == a * (b * (r * u)) && bu * bu == (b * b) * uu) by (nonlinear_arith)
        requires
            ar == a * r,
            bu == b * u,
            uu == u * u,
    ;
    assert((b * b - 4 * (a * k)) * uu == (b * b) * uu - 4 * (a * (k * uu))) by (nonlinear_arith);
    assert(a * (a * (r * r) + b * (r * u) + k * uu) == a * (a * (r * r)) + a * (b * (r * u)) + a * (k * uu)) by (nonlinear_arith);
}

/// A root between zero and one is where the curve takes the value: four times the leading
/// coefficient times what the curve is off it there is next to nothing beside the terms of
/// the discriminant.
#[verifier::spinoff_prover]
pub proof fn law_roots_are_where_the_curve_takes_the_value(c: QuadCurve, axis: int, at: F32, i: int)
    requires
        axis == 0 || axis == 1,
        exact_coefficients(c, axis, at),
        0 <= i < axis_roots(c, axis, at).len() == 2,
        f_le(lit(0), axis_roots(c, axis, at)[i]),
        f_le(axis_roots(c, axis, at)[i], lit(ONE_BITS)),
    ensures
        ({
            let u = pow2(149) as int;
            let uu = u * u;
            let x = c.p1[axis].value();
            let y = c.p2[axis].value();
            let z = c.p3[axis].value();
            let a = x - 2 * y + z;
            let t = axis_roots(c, axis, at)[i].value();
            let off = 4 * (a * (quadratic(x, y, z, t, u) - at.value() * uu));
            let most = terms(a, 2 * (y - x), x - at.value()) * uu;
            -most <= off * 0x2000 <= most
        }),
{
    reveal(axis_roots);
    lemma_units();
    let u = pow2(149) as int;
    let uu = u * u;
    let x = c.p1[axis].value();
    let y = c.p2[axis].value();
    let z = c.p3[axis].value();
    let a = f_add(f_sub(c.p1[axis], f_mul(lit(TWO_BITS), c.p2[axis])), c.p3[axis]);
    let b = f_mul(lit(TWO_BITS), f_sub(c.p2[axis], c.p1[axis]));
    let k = f_sub(c.p1[axis], at);
    let root = axis_roots(c, axis, at)[i];
    assert(root == root_of(a, b, k, i == 1) && f_le(lit(0), discriminant(a, b, k)));
    assert(!f_lt(f_abs(a), lit(COEFFICIENT_EPSILON_BITS)));
    lemma_root(a, b, k, i == 1);
    lemma_expanded(x, y, z, at.value(), root.value(), u);
}

spec fn discriminant(a: F32, b: F32, k: F32) -> F32 {
    f_sub(f_mul(b, b), f_mul(f_mul(lit(FOUR_BITS), a), k))
}

spec fn numerator(a: F32, b: F32, k: F32, second: bool) -> F32 {
    let s = f_sqrt(discriminant(a, b, k));
    if second { f_add(f_neg(b), s) } else { f_sub(f_neg(b), s) }
}

spec fn root_of(a: F32, b: F32, k: F32, second: bool) -> F32 {
    f_div(numerator(a, b, k, second), f_mul(lit(TWO_BITS), a))
}

/// The numerator of a root.
#[verifier::spinoff_prover]
proof fn lemma_numerator(a: F32, b: F32, k: F32, second: bool)
    requires
        a.finite() && b.finite() && k.finite(),
        abs_int(a.value()) <= 0x1000_0000 * pow2(149),
        abs_int(b.value()) <= 0x1000_0000 * pow2(149),
        abs_int(k.value()) <= 0x1000_0000 * pow2(149),
        f_le(lit(0), discriminant(a, b, k)),
    ensures
        ({
            let s = f_sqrt(discriminant(a, b, k)).value();
            let side = if second { s } else { -s };
            let n = numerator(a, b, k, second);
            &&& n.finite()
            &&& s >= 0
            &&& (n.value() + b.value() - side) * 0x80_0000 <= abs_int(side - b.value()) + 0x80_0000
            &&& (side - b.value() - n.value()) * 0x80_0000 <= abs_int(side - b.value()) + 0x80_0000
        }),
{
    lemma_units();
    let d = discriminant(a, b, k);
    lemma_discriminant(a, b, k);
    lemma_order_is_value_order(lit(0), d);
    let s = f_sqrt(d);
    lemma_root_error(d);
    lemma_root_is_moderate(a.value(), b.value(), k.value(), d.value(), s.value());
    let m = f_neg(b);
    assert(m.finite() && m.value() == -b.value());
    if second {
        lemma_finite_sum(m, s);
        lemma_sum_error(m, s);
    } else {
        lemma_finite_difference(m, s);
        lemma_difference_error(m, s);
    }
}

/// A root between zero and one solves its equation.
#[verifier::spinoff_prover]
proof fn lemma_root(a: F32, b: F32, k: F32, second: bool)
    requires
        a.finite() && b.finite() && k.finite(),
        abs_int(a.value()) <= 0x1000_0000 * pow2(149),
        abs_int(b.value()) <= 0x1000_0000 * pow2(149),
        abs_int(k.value()) <= 0x1000_0000 * pow2(149),
        f_le(lit(0), discriminant(a, b, k)),
        !f_lt(f_abs(a), lit(COEFFICIENT_EPSILON_BITS)),
        f_le(lit(0), root_of(a, b, k, second)),
        f_le(root_of(a, b, k, second), lit(ONE_BITS)),
    ensures
        ({
            let u = pow2(149) as int;
            let uu = u * u;
            let r = root_of(a, b, k, second).value();
            let (x, y, z) = (a.value(), b.value(), k.value());
            let e = 4 * (x * (x * (r * r) + y * (r * u) + z * uu));
            -(terms(x, y, z) * uu) <= e * 0x2000 <= terms(x, y, z) * uu
        }),
{
    let root = root_of(a, b, k, second);
    lemma_parameter(root);
    lemma_discriminant(a, b, k);
    lemma_numerator(a, b, k, second);
    let d = discriminant(a, b, k);
    assert(d.value() >= 0) by {
        lemma_units();
        lemma_order_is_value_order(lit(0), d);
    }
    lemma_root_error(d);
    let s = f_sqrt(d).value();
    let side = if second { s } else { -s };
    let n = numerator(a, b, k, second);
    let twice = f_mul(lit(TWO_BITS), a);
    lemma_leading(a);
    lemma_quotient(n, twice);
    lemma_completed(a.value(), b.value(), s, side, n.value(), twice.value(), root.value());
    lemma_squared(a.value(), b.value(), k.value(), s, side, root.value(), d.value());
}

/// The leading coefficient is not zero, nor is its double.
#[verifier::spinoff_prover]
proof fn lemma_leading(a: F32)
    requires
        a.finite(),
        !f_lt(f_abs(a), lit(COEFFICIENT_EPSILON_BITS)),
        abs_int(a.value()) <= 0x1000_0000 * pow2(149),
    ensures
        ({
            let t = f_mul(lit(TWO_BITS), a);
            &&& t.finite()
            &&& t.value() != 0
            &&& (t.value() - 2 * a.value()) * 0x80_0000 <= 2 * abs_int(a.value()) + 0x80_0000
            &&& (2 * a.value() - t.value()) * 0x80_0000 <= 2 * abs_int(a.value()) + 0x80_0000
        }),
{
    lemma_units();
    lemma_multiple(lit(TWO_BITS), 2, a);
    let e = lit(COEFFICIENT_EPSILON_BITS);
    let m = f_abs(a);
    lemma_magnitude_nonneg(a.unsigned());
    assert(m.finite() && m.value() == abs_int(a.value()));
    lemma_order_is_value_order(m, e);
    lemma_epsilon();
}

#[verifier::spinoff_prover]
proof fn lemma_epsilon()
    ensures
        lit(COEFFICIENT_EPSILON_BITS).value() >= 4,
{
    let f = pow2(102) as int;
    lemma2_to64();
    vstd::arithmetic::power2::lemma_pow2_strictly_increases(2, 102);
    assert(COEFFICIENT_EPSILON_BITS as int / 0x80_0000 == 103);
    assert(COEFFICIENT_EPSILON_BITS as int % 0x80_0000 == 0x56_bf95);
    assert(magnitude(COEFFICIENT_EPSILON_BITS as int) == 0xd6_bf95 * f);
    assert(0xd6_bf95 * f >= 4);
}

/// The root of a discriminant of moderate size is of moderate size.
#[verifier::spinoff_prover]
proof fn lemma_root_is_moderate(a: int, b: int, k: int, d: int, s: int)
    requires
        abs_int(a) <= 0x1000_0000 * pow2(149),
        abs_int(b) <= 0x1000_0000 * pow2(149),
        abs_int(k) <= 0x1000_0000 * pow2(149),
        (d * pow2(149) - (b * b - 4 * (a * k))) * 0x80_0000 <= 8 * terms(a, b, k),
        s >= 0,
        (s * s - d * pow2(149)) * 0x40_0000 <= s * s + 0x80_0000 * s + 0x80_0000,
    ensures
        s <= 0x1_0000_0000 * pow2(149),
{
    lemma_units();
    let u = pow2(149) as int;
    let uu = u * u;
    let bb = b * b;
    let ak = a * k;
    assert(0 <= bb <= 0x100_0000_0000_0000 * uu) by (nonlinear_arith)
        requires
            bb == b * b,
            -0x1000_0000 * u <= b <= 0x1000_0000 * u,
            uu == u * u,
    ;
    assert(abs_int(ak) <= 0x100_0000_0000_0000 * uu) by (nonlinear_arith)
        requires
            ak == a * k,
            -0x1000_0000 * u <= a <= 0x1000_0000 * u,
            -0x1000_0000 * u <= k <= 0x1000_0000 * u,
            uu == u * u,
    ;
    let ss = s * s;
    let top = 0x1_0000_0000 * u;
    if s > top {
        assert(ss > 0x1_0000_0000_0000_0000 * uu && 0x80_0000 * s <= ss) by (nonlinear_arith)
            requires
                ss == s * s,
                s > top,
                top == 0x1_0000_0000 * u,
                uu == u * u,
                u >= 0x1_0000_0000_0000_0000_0000,
        ;
    }
}

proof fn lemma_expanded(x: int, y: int, z: int, at: int, r: int, u: int)
    ensures
        (x - 2 * y + z) * (r * r) + (2 * (y - x)) * (r * u) + (x - at) * (u * u) == quadratic(x, y, z, r, u) - at * (u * u),
{
    let (rr, ru, uu) = (r * r, r * u, u * u);
    assert((u - r) * (u - r) == uu - 2 * ru + rr && r * (u - r) == ru - rr) by (nonlinear_arith)
        requires
            rr == r * r,
            ru == r * u,
            uu == u * u,
    ;
    assert(x * (uu - 2 * ru + rr) == x * uu - 2 * (x * ru) + x * rr && y * (ru - rr) == y * ru - y * rr) by (nonlinear_arith);
    assert((x - 2 * y + z) * rr == x * rr - 2 * (y * rr) + z * rr) by (nonlinear_arith);
    assert((2 * (y - x)) * ru == 2 * (y * ru) - 2 * (x * ru)) by (nonlinear_arith);
    assert((x - at) * uu == x * uu - at * uu) by (nonlinear_arith);
}

}
