//! Where a glyph's quad lies.
use vstd::prelude::*;
use vstd::arithmetic::power2::{lemma_pow2_pos, pow2};
use crate::float32::{
    F32, abs_int, f_add, f_div, f_mul, f_neg, f_sub, lemma_difference_error, lemma_product_error,
    lemma_quotient_error, lemma_signed_product_error, lemma_sum_error,
};
use crate::glyph_cache::{COLOR_V1_VECTOR_OFFSET, COLOR_VECTOR_OFFSET, ColorGlyphLayer, NON_VECTOR_OFFSET};
use crate::symmetry::{lemma_negation_is_opposite, lemma_products_match, matches_up_to_sign};
use crate::text_atlas::AtlasState;
use crate::text_renderer::emit::{AreaContext, Emitted, WorkItem, glyph_quad};

verus! {

/// `m` times a difference.
proof fn lemma_times(m: int, x: int, y: int)
    requires
        0 <= m,
        x <= y,
    ensures
        m * x <= m * y,
{
    assert(m * x <= m * y) by (nonlinear_arith)
        requires
            0 <= m,
            x <= y,
    ;
}

/// A coordinate times a scale that is nearly `fa / m`.
proof fn lemma_scaled(q: int, b: int, s: int, fa: int, u: int, m: int)
    requires
        (q * u - b * s) * 0x80_0000 <= abs_int(b * s) + 0x80_0000 * u,
        (b * s - q * u) * 0x80_0000 <= abs_int(b * s) + 0x80_0000 * u,
        (s * m - fa) * 0x80_0000 <= 4 * fa,
        (fa - s * m) * 0x80_0000 <= 4 * fa,
        s >= 0,
        m > 0,
        fa >= 0,
        u > 0,
    ensures
        ({
            let x = q * (u * m);
            let y = b * fa;
            &&& (x - y) * 0x80_0000 <= 6 * (abs_int(b) * fa) + 0x80_0000 * (u * m)
            &&& (y - x) * 0x80_0000 <= 6 * (abs_int(b) * fa) + 0x80_0000 * (u * m)
        }),
{
    let c = abs_int(b);
    let bs = b * s;
    let qu = q * u;
    let sm = s * m;
    let um = u * m;
    assert(abs_int(bs) == c * s) by (nonlinear_arith)
        requires
            bs == b * s,
            c == abs_int(b),
            s >= 0,
    ;
    let cs = c * s;
    // Times m.
    assert((m * qu - m * bs) * 0x80_0000 <= m * cs + 0x80_0000 * um) by (nonlinear_arith)
        requires
            (qu - bs) * 0x80_0000 <= cs + 0x80_0000 * u,
            um == u * m,
            m > 0,
    ;
    assert((m * bs - m * qu) * 0x80_0000 <= m * cs + 0x80_0000 * um) by (nonlinear_arith)
        requires
            (bs - qu) * 0x80_0000 <= cs + 0x80_0000 * u,
            um == u * m,
            m > 0,
    ;
    assert(m * (q * u) == q * (u * m)) by (nonlinear_arith);
    assert(m * (b * s) == b * (s * m)) by (nonlinear_arith);
    assert(m * (c * s) == c * (s * m)) by (nonlinear_arith);
    let bsm = b * sm;
    let csm = c * sm;
    let bfa = b * fa;
    let cfa = c * fa;
    assert((bsm - bfa) * 0x80_0000 <= 4 * cfa && (bfa - bsm) * 0x80_0000 <= 4 * cfa) by (nonlinear_arith)
        requires
            (sm - fa) * 0x80_0000 <= 4 * fa,
            (fa - sm) * 0x80_0000 <= 4 * fa,
            bsm == b * sm,
            bfa == b * fa,
            cfa == c * fa,
            c == abs_int(b),
    ;
    assert(csm <= 2 * cfa) by (nonlinear_arith)
        requires
            (sm - fa) * 0x80_0000 <= 4 * fa,
            csm == c * sm,
            cfa == c * fa,
            c >= 0,
            fa >= 0,
    ;
}

/// The scale of a glyph is nearly its size over the units of its em.
proof fn lemma_scale(size: F32, scale: F32, units: F32)
    requires
        size.finite() && scale.finite() && units.finite(),
        size.value() >= 0,
        scale.value() >= 0,
        units.value() > 0,
        size.value() * scale.value() >= 0x4000_0000 * pow2(149),
        size.value() * scale.value() >= 0x4000_0000 * units.value(),
        f_mul(size, scale).finite(),
        f_div(f_mul(size, scale), units).finite(),
    ensures
        ({
            let fa = size.value() * scale.value();
            let s = f_div(f_mul(size, scale), units).value();
            let sm = s * units.value();
            s >= 0 && (sm - fa) * 0x80_0000 <= 4 * fa && (fa - sm) * 0x80_0000 <= 4 * fa
        }),
{
    let p = f_mul(size, scale);
    lemma_product_error(size, scale);
    lemma_quotient_error(p, units);
}

proof fn lemma_finite_operands(a: F32, b: F32)
    ensures
        f_add(a, b).finite() ==> a.finite() && b.finite(),
        f_sub(a, b).finite() ==> a.finite() && b.finite(),
        f_mul(a, b).finite() ==> a.finite() && b.finite(),
        f_div(a, b).finite() ==> a.finite(),
{
    reveal(f_add);
    reveal(f_sub);
    reveal(f_mul);
    reveal(f_div);
}

/// The pen: an area's start and a scaled position in it.
spec fn pen(start: F32, at: F32, shift: F32, scale: F32) -> F32 {
    f_add(start, f_mul(f_add(at, shift), scale))
}

proof fn lemma_pen(start: F32, at: F32, shift: F32, scale: F32)
    requires
        pen(start, at, shift, scale).finite(),
        0 <= scale.value() <= 0x4000_0000 * pow2(149),
    ensures
        start.finite() && at.finite() && shift.finite() && scale.finite(),
        ({
            let u = pow2(149) as int;
            let a = scale.value();
            let x = at.value() + shift.value();
            let exact = start.value() * u + x * a;
            let p = pen(start, at, shift, scale).value() * u;
            let bound = abs_int(start.value()) * u + 7 * (abs_int(x) * a) + 0x80_0000_0000_0000 * u;
            (p - exact) * 0x80_0000 <= bound && (exact - p) * 0x80_0000 <= bound
        }),
{
    let u = pow2(149) as int;
    lemma_pow2_pos(149);
    let g = f_add(at, shift);
    let h = f_mul(g, scale);
    let p = f_add(start, h);
    lemma_finite_operands(start, h);
    lemma_finite_operands(g, scale);
    lemma_finite_operands(at, shift);
    lemma_sum_error(at, shift);
    lemma_signed_product_error(g, scale);
    lemma_sum_error(start, h);
    let a = scale.value();
    let x = at.value() + shift.value();
    let t = abs_int(x);
    let gv = g.value();
    let hv = h.value();
    let ga = gv * a;
    let xa = x * a;
    let ta = t * a;
    let hu = hv * u;
    assert((ga - xa) * 0x80_0000 <= ta + 0x80_0000 * a && (xa - ga) * 0x80_0000 <= ta + 0x80_0000 * a) by (nonlinear_arith)
        requires
            (gv - x) * 0x80_0000 <= t + 0x80_0000,
            (x - gv) * 0x80_0000 <= t + 0x80_0000,
            ga == gv * a,
            xa == x * a,
            ta == t * a,
            a >= 0,
    ;
    assert(abs_int(xa) == ta) by (nonlinear_arith)
        requires
            xa == x * a,
            ta == t * a,
            t == abs_int(x),
            a >= 0,
    ;
    let l = start.value();
    let lu = l * u;
    let pv = p.value();
    let pu = pv * u;
    let sum = l + hv;
    assert(sum * u == lu + hu) by (nonlinear_arith)
        requires
            sum == l + hv,
            lu == l * u,
            hu == hv * u,
    ;
    assert(abs_int(sum) * u <= abs_int(l) * u + abs_int(hu)) by (nonlinear_arith)
        requires
            sum == l + hv,
            hu == hv * u,
            u > 0,
    ;
    assert((pu - sum * u) * 0x80_0000 <= abs_int(sum) * u + 0x80_0000 * u && (sum * u - pu) * 0x80_0000 <= abs_int(sum) * u
        + 0x80_0000 * u) by (nonlinear_arith)
        requires
            (pv - sum) * 0x80_0000 <= abs_int(sum) + 0x80_0000,
            (sum - pv) * 0x80_0000 <= abs_int(sum) + 0x80_0000,
            pu == pv * u,
            u > 0,
    ;
}

/// An edge of a quad: the pen and a scaled bound, added or taken off.
spec fn edge(p: F32, bound: F32, scale: F32, off: bool) -> F32 {
    if off { f_sub(p, f_mul(bound, scale)) } else { f_add(p, f_mul(bound, scale)) }
}

/// An exact image of a bound: the pen's place, and the bound times size over units, all
/// times the units of an em.
pub open spec fn image(start: int, x: int, a: int, bound: int, f: int, m: int, u: int, off: bool) -> int {
    let way = bound * (f * a);
    start * (u * m) + x * (a * m) + if off { -way } else { way }
}

/// How far an edge may be from its image.
pub open spec fn image_slack(start: int, x: int, a: int, bound: int, f: int, m: int, u: int) -> int {
    abs_int(start) * (u * m) + abs_int(x) * (a * m) + abs_int(bound) * (f * a) + 0x80_0000_0000_0000 * (u * m)
}

proof fn lemma_edge(
    start: F32,
    at: F32,
    shift: F32,
    size: F32,
    scale: F32,
    units: F32,
    bound: F32,
    off: bool,
)
    requires
        units.finite(),
        size.value() >= 0,
        units.value() > 0,
        0 <= scale.value() <= 0x4000_0000 * pow2(149),
        size.value() * scale.value() >= 0x4000_0000 * pow2(149),
        size.value() * scale.value() >= 0x4000_0000 * units.value(),
        edge(pen(start, at, shift, scale), bound, f_div(f_mul(size, scale), units), off).finite(),
    ensures
        ({
            let u = pow2(149) as int;
            let m = units.value();
            let e = edge(pen(start, at, shift, scale), bound, f_div(f_mul(size, scale), units), off).value() * (u * m);
            let x = at.value() + shift.value();
            let i = image(start.value(), x, scale.value(), bound.value(), size.value(), m, u, off);
            let slack = image_slack(start.value(), x, scale.value(), bound.value(), size.value(), m, u);
            (e - i) * 0x8_0000 <= slack && (i - e) * 0x8_0000 <= slack
        }),
{
    let u = pow2(149) as int;
    lemma_pow2_pos(149);
    let p = pen(start, at, shift, scale);
    let s = f_div(f_mul(size, scale), units);
    let q = f_mul(bound, s);
    lemma_finite_operands(p, q);
    lemma_finite_operands(bound, s);
    lemma_finite_operands(f_mul(size, scale), units);
    lemma_finite_operands(size, scale);
    lemma_scale(size, scale, units);
    lemma_pen(start, at, shift, scale);
    lemma_signed_product_error(bound, s);
    let a = scale.value();
    let m = units.value();
    let fa = size.value() * a;
    let b = bound.value();
    let qv = q.value();
    lemma_scaled(qv, b, s.value(), fa, u, m);
    if off {
        lemma_difference_error(p, q);
    } else {
        lemma_sum_error(p, q);
    }
    let pv = p.value();
    let ev = edge(p, bound, s, off).value();
    let qs = if off { -qv } else { qv };
    let um = u * m;
    let l = start.value();
    let x = at.value() + shift.value();
    let c = abs_int(b);
    let t = abs_int(x);
    let lu = l * u;
    let xa = x * a;
    let pu = pv * u;
    let pum = pv * um;
    let lum = l * um;
    let xam = x * (a * m);
    let cl = abs_int(l) * um;
    let ctam = t * (a * m);
    lemma_pen_times(pu, lu, xa, abs_int(l) * u, t * a, u, m);
    assert(m * (pv * u) == pv * (u * m)) by (nonlinear_arith);
    assert(m * (l * u) == l * (u * m)) by (nonlinear_arith);
    assert(m * (x * a) == x * (a * m)) by (nonlinear_arith);
    let ll = abs_int(l);
    assert(m * (ll * u) == ll * (u * m)) by (nonlinear_arith);
    assert(m * (t * a) == t * (a * m)) by (nonlinear_arith);
    assert(m * u == um) by (nonlinear_arith)
        requires
            um == u * m,
    ;
    let qum = qv * um;
    let sum = pv + qs;
    let eum = ev * um;
    assert(um > 0) by (nonlinear_arith)
        requires
            um == u * m,
            u > 0,
            m > 0,
    ;
    assert(qs * um == if off { -qum } else { qum }) by (nonlinear_arith)
        requires
            qum == qv * um,
            qs == (if off { -qv } else { qv }),
    ;
    let qsum = qs * um;
    assert(sum * um == pum + qsum) by (nonlinear_arith)
        requires
            sum == pv + qs,
            pum == pv * um,
            qsum == qs * um,
    ;
    let sumum = sum * um;
    assert((eum - sumum) * 0x80_0000 <= abs_int(sum) * um + 0x80_0000 * um && (sumum - eum) * 0x80_0000 <= abs_int(sum) * um
        + 0x80_0000 * um) by (nonlinear_arith)
        requires
            (ev - sum) * 0x80_0000 <= abs_int(sum) + 0x80_0000,
            (sum - ev) * 0x80_0000 <= abs_int(sum) + 0x80_0000,
            eum == ev * um,
            sumum == sum * um,
            um > 0,
    ;
    assert(abs_int(sum) * um == abs_int(sumum)) by (nonlinear_arith)
        requires
            sumum == sum * um,
            um > 0,
    ;
    assert(abs_int(lum) == cl) by (nonlinear_arith)
        requires
            lum == l * um,
            cl == abs_int(l) * um,
            um > 0,
    ;
    let am = a * m;
    assert(am >= 0) by (nonlinear_arith)
        requires
            am == a * m,
            a >= 0,
            m > 0,
    ;
    assert(abs_int(xam) == ctam) by (nonlinear_arith)
        requires
            xam == x * am,
            ctam == t * am,
            t == abs_int(x),
            am >= 0,
    ;
    let bfa = b * fa;
    let cfa = c * fa;
    assert(abs_int(bfa) == cfa) by (nonlinear_arith)
        requires
            bfa == b * fa,
            cfa == c * fa,
            c == abs_int(b),
            fa >= 0,
    ;
    lemma_edge_sum(eum, sumum, pum, lum + xam, qsum, if off { -bfa } else { bfa }, cl, ctam, cfa, um);
}

/// The pen's error, times the units of an em.
proof fn lemma_pen_times(pu: int, lu: int, xa: int, c: int, ta: int, u: int, m: int)
    requires
        (pu - (lu + xa)) * 0x80_0000 <= c + 7 * ta + 0x80_0000_0000_0000 * u,
        ((lu + xa) - pu) * 0x80_0000 <= c + 7 * ta + 0x80_0000_0000_0000 * u,
        m > 0,
    ensures
        (m * pu - (m * lu + m * xa)) * 0x80_0000 <= m * c + 7 * (m * ta) + 0x80_0000_0000_0000 * (m * u),
        ((m * lu + m * xa) - m * pu) * 0x80_0000 <= m * c + 7 * (m * ta) + 0x80_0000_0000_0000 * (m * u),
{
    let y = c + 7 * ta + 0x80_0000_0000_0000 * u;
    let d = pu - (lu + xa);
    lemma_times(m, d * 0x80_0000, y);
    lemma_times(m, (-d) * 0x80_0000, y);
    assert(m * y == m * c + 7 * (m * ta) + 0x80_0000_0000_0000 * (m * u)) by (nonlinear_arith)
        requires
            y == c + 7 * ta + 0x80_0000_0000_0000 * u,
    ;
    assert(m * (d * 0x80_0000) == (m * d) * 0x80_0000 && m * ((-d) * 0x80_0000) == -((m * d) * 0x80_0000)) by (nonlinear_arith);
    assert(m * d == m * pu - (m * lu + m * xa)) by (nonlinear_arith)
        requires
            d == pu - (lu + xa),
    ;
}

/// Adding up.
proof fn lemma_edge_sum(e: int, s: int, p: int, i: int, q: int, j: int, cl: int, ct: int, cb: int, um: int)
    requires
        s == p + q,
        (e - s) * 0x80_0000 <= abs_int(s) + 0x80_0000 * um,
        (s - e) * 0x80_0000 <= abs_int(s) + 0x80_0000 * um,
        (p - i) * 0x80_0000 <= cl + 7 * ct + 0x80_0000_0000_0000 * um,
        (i - p) * 0x80_0000 <= cl + 7 * ct + 0x80_0000_0000_0000 * um,
        (q - j) * 0x80_0000 <= 6 * cb + 0x80_0000 * um,
        (j - q) * 0x80_0000 <= 6 * cb + 0x80_0000 * um,
        abs_int(i) <= cl + ct,
        abs_int(j) == cb,
        0 <= cl,
        0 <= ct,
        0 <= cb,
        0 < um,
    ensures
        (e - (i + j)) * 0x8_0000 <= cl + ct + cb + 0x80_0000_0000_0000 * um,
        ((i + j) - e) * 0x8_0000 <= cl + ct + cb + 0x80_0000_0000_0000 * um,
{
}

proof fn lemma_extent(size: F32, scale: F32, units: F32, low: F32, high: F32)
    requires
        units.finite(),
        size.value() >= 0,
        scale.value() >= 0,
        units.value() > 0,
        size.value() * scale.value() >= 0x4000_0000 * pow2(149),
        size.value() * scale.value() >= 0x4000_0000 * units.value(),
        size.value() * scale.value() <= 0x4000_0000 * (pow2(149) * units.value()),
        f_mul(f_sub(high, low), f_div(f_mul(size, scale), units)).finite(),
    ensures
        ({
            let um = pow2(149) * units.value();
            let fa = size.value() * scale.value();
            let d = high.value() - low.value();
            let w = f_mul(f_sub(high, low), f_div(f_mul(size, scale), units)).value() * um;
            let slack = abs_int(d) * fa + 0x80_0000_0000_0000 * um;
            (w - d * fa) * 0x4_0000 <= slack && (d * fa - w) * 0x4_0000 <= slack
        }),
{
    let u = pow2(149) as int;
    lemma_pow2_pos(149);
    let s = f_div(f_mul(size, scale), units);
    let e = f_sub(high, low);
    lemma_finite_operands(e, s);
    lemma_finite_operands(high, low);
    lemma_finite_operands(f_mul(size, scale), units);
    lemma_finite_operands(size, scale);
    lemma_scale(size, scale, units);
    lemma_signed_product_error(e, s);
    lemma_difference_error(high, low);
    let m = units.value();
    let fa = size.value() * scale.value();
    let d = high.value() - low.value();
    let ev = e.value();
    let wv = f_mul(e, s).value();
    lemma_scaled(wv, ev, s.value(), fa, u, m);
    let um = u * m;
    let c = abs_int(d);
    let cfa = c * fa;
    let dfa = d * fa;
    let efa = ev * fa;
    assert((efa - dfa) * 0x80_0000 <= cfa + 0x80_0000 * fa && (dfa - efa) * 0x80_0000 <= cfa + 0x80_0000 * fa)
        by (nonlinear_arith)
        requires
            (ev - d) * 0x80_0000 <= c + 0x80_0000,
            (d - ev) * 0x80_0000 <= c + 0x80_0000,
            efa == ev * fa,
            dfa == d * fa,
            cfa == c * fa,
            fa >= 0,
    ;
    let a = abs_int(ev);
    let afa = a * fa;
    assert(afa <= 2 * cfa + 2 * fa) by (nonlinear_arith)
        requires
            a <= 2 * c + 2,
            afa == a * fa,
            cfa == c * fa,
            fa >= 0,
    ;
    assert(cfa >= 0) by (nonlinear_arith)
        requires
            cfa == c * fa,
            c >= 0,
            fa >= 0,
    ;
}

/// The size at which a glyph is drawn, and the units of its em, are of ordinary
/// magnitude: rounding is relative, and nothing overflows.
pub open spec fn ordinary_size(size: F32, scale: F32, units: F32) -> bool {
    let fa = size.value() * scale.value();
    let u = pow2(149) as int;
    &&& units.finite()
    &&& size.value() >= 0
    &&& units.value() > 0
    &&& 0 <= scale.value() <= 0x4000_0000 * u
    &&& fa >= 0x4000_0000 * u
    &&& fa >= 0x4000_0000 * units.value()
    &&& fa <= 0x4000_0000 * (u * units.value())
}

/// A quad is the image of a glyph's bounds. A point `(u, v)` in font units is drawn at
/// `(pen x + u * s, baseline y - v * s)`, where `s` is the font's size times the area's
/// scale over the units of an em, and the pen and the baseline are the area's corner plus
/// the glyph's scaled place in it. The quad's left edge is the image of the least u, its
/// top that of the greatest v, and its right and bottom edges, which are a width and a
/// height further, those of the greatest u and the least v. All is up to rounding, and
/// times the units of an em.
pub open spec fn covers_bounds(r: Seq<F32>, ctx: AreaContext, item: WorkItem, bounds: Seq<F32>, units: F32) -> bool {
    let u = pow2(149) as int;
    let m = units.value();
    let um = u * m;
    let a = ctx.scale.value();
    let f = item.glyph.font_size.value();
    let fa = f * a;
    let left = ctx.left.value();
    let top = ctx.top.value();
    let x = item.glyph.x.value() + item.glyph.x_offset.value();
    let y = item.line_y.value() + item.glyph.y_offset.value();
    let wide = abs_int(bounds[2].value() - bounds[0].value()) * fa;
    let high = abs_int(bounds[3].value() - bounds[1].value()) * fa;
    let dx = image_slack(left, x, a, bounds[0].value(), f, m, u) + wide + 0x80_0000_0000_0000 * um;
    let dy = image_slack(top, y, a, bounds[3].value(), f, m, u) + high + 0x80_0000_0000_0000 * um;
    &&& close(r[0].value() * um, image(left, x, a, bounds[0].value(), f, m, u, false), dx)
    &&& close(r[1].value() * um, image(top, y, a, bounds[3].value(), f, m, u, true), dy)
    &&& close((r[0].value() + r[2].value()) * um, image(left, x, a, bounds[2].value(), f, m, u, false), dx)
    &&& close((r[1].value() + r[3].value()) * um, image(top, y, a, bounds[1].value(), f, m, u, true), dy)
}

/// No farther apart than a 2^18th of a slack.
pub open spec fn close(x: int, y: int, slack: int) -> bool {
    (x - y) * 0x4_0000 <= slack && (y - x) * 0x4_0000 <= slack
}

proof fn lemma_quad(ctx: AreaContext, item: WorkItem, bounds: Seq<F32>, units: F32)
    requires
        ordinary_size(item.glyph.font_size, ctx.scale, units),
        ({
            let r = glyph_quad(ctx, item, bounds, units)@;
            r[0].finite() && r[1].finite() && r[2].finite() && r[3].finite()
        }),
    ensures
        covers_bounds(glyph_quad(ctx, item, bounds, units)@, ctx, item, bounds, units),
{
    reveal(glyph_quad);
    let g = item.glyph;
    let size = g.font_size;
    let scale = ctx.scale;
    lemma_edge(ctx.left, g.x, g.x_offset, size, scale, units, bounds[0], false);
    lemma_edge(ctx.top, item.line_y, g.y_offset, size, scale, units, bounds[3], true);
    lemma_extent(size, scale, units, bounds[0], bounds[2]);
    lemma_extent(size, scale, units, bounds[1], bounds[3]);
    let u = pow2(149) as int;
    let m = units.value();
    let um = u * m;
    let a = scale.value();
    let f = size.value();
    let fa = f * a;
    let r = glyph_quad(ctx, item, bounds, units)@;
    let b0 = bounds[0].value();
    let b1 = bounds[1].value();
    let b2 = bounds[2].value();
    let b3 = bounds[3].value();
    assert((b2 - b0) * fa == b2 * fa - b0 * fa && (b3 - b1) * fa == b3 * fa - b1 * fa) by (nonlinear_arith);
    let l = r[0].value();
    let t = r[1].value();
    let w = r[2].value();
    let h = r[3].value();
    assert((l + w) * um == l * um + w * um && (t + h) * um == t * um + h * um) by (nonlinear_arith);
    lemma_slack_positive(ctx.left.value(), g.x.value() + g.x_offset.value(), a, b0, f, m, u);
    lemma_slack_positive(ctx.top.value(), item.line_y.value() + g.y_offset.value(), a, b3, f, m, u);
    let wide = abs_int(b2 - b0);
    let high = abs_int(b3 - b1);
    lemma_pow2_pos(149);
    assert(wide * fa >= 0 && high * fa >= 0 && um >= 0) by (nonlinear_arith)
        requires
            wide >= 0,
            high >= 0,
            fa >= 0,
            um == u * m,
            u > 0,
            m > 0,
    ;
}

proof fn lemma_slack_positive(start: int, x: int, a: int, bound: int, f: int, m: int, u: int)
    requires
        a >= 0,
        f >= 0,
        m > 0,
        u > 0,
    ensures
        image_slack(start, x, a, bound, f, m, u) >= 0,
{
    let p = abs_int(start);
    let q = abs_int(x);
    let r = abs_int(bound);
    assert(u * m >= 0 && a * m >= 0 && f * a >= 0) by (nonlinear_arith)
        requires
            a >= 0,
            f >= 0,
            m > 0,
            u > 0,
    ;
    let um = u * m;
    let am = a * m;
    let fa = f * a;
    assert(p * um >= 0 && q * am >= 0 && r * fa >= 0) by (nonlinear_arith)
        requires
            p >= 0,
            q >= 0,
            r >= 0,
            um >= 0,
            am >= 0,
            fa >= 0,
    ;
}

pub open spec fn finite_rect(r: Seq<F32>) -> bool {
    r[0].finite() && r[1].finite() && r[2].finite() && r[3].finite()
}

/// What a glyph adds to an area lies where the glyph does: the instance of an outline or
/// of a command glyph is the image of the glyph's bounds, has the glyph's depth, and
/// names the glyph's data.
pub proof fn law_instances_cover_their_glyphs(e: Emitted, ctx: AreaContext, item: WorkItem, atlas: AtlasState)
    requires
        ({
            let id = item.glyph.key.id();
            let entry = atlas.glyphs[id];
            let after = e.with_item(ctx, item, atlas);
            &&& entry.glyph_offset != NON_VECTOR_OFFSET
            &&& entry.glyph_offset != COLOR_VECTOR_OFFSET
            &&& after.instances.len() > e.instances.len()
            &&& finite_rect(after.instances.last().screen_rect@)
        }),
    ensures
        ({
            let id = item.glyph.key.id();
            let entry = atlas.glyphs[id];
            let commands = atlas.commands[id];
            let after = e.with_item(ctx, item, atlas);
            let i = after.instances.last();
            &&& after.instances == e.instances.push(i)
            &&& i.depth == item.glyph.depth
            &&& if entry.glyph_offset == COLOR_V1_VECTOR_OFFSET {
                &&& i.glyph_offset == commands.glyph_offset
                &&& i.cmd_texel_count == commands.cmd_texel_count
                &&& ordinary_size(item.glyph.font_size, ctx.scale, commands.units_per_em) ==> covers_bounds(
                    i.screen_rect@,
                    ctx,
                    item,
                    commands.bounds@,
                    commands.units_per_em,
                )
            } else {
                &&& i.glyph_offset == entry.glyph_offset
                &&& i.cmd_texel_count == 0
                &&& ordinary_size(item.glyph.font_size, ctx.scale, entry.units_per_em) ==> covers_bounds(
                    i.screen_rect@,
                    ctx,
                    item,
                    entry.bounds@,
                    entry.units_per_em,
                )
            }
        }),
{
    reveal(Emitted::with_commands);
    reveal(Emitted::with_outline);
    let id = item.glyph.key.id();
    let entry = atlas.glyphs[id];
    let commands = atlas.commands[id];
    let i = e.with_item(ctx, item, atlas).instances.last();
    if entry.glyph_offset == COLOR_V1_VECTOR_OFFSET {
        assert(i.screen_rect == glyph_quad(ctx, item, commands.bounds@, commands.units_per_em));
        if ordinary_size(item.glyph.font_size, ctx.scale, commands.units_per_em) {
            lemma_quad(ctx, item, commands.bounds@, commands.units_per_em);
        }
    } else {
        assert(i.screen_rect == glyph_quad(ctx, item, entry.bounds@, entry.units_per_em));
        if ordinary_size(item.glyph.font_size, ctx.scale, entry.units_per_em) {
            lemma_quad(ctx, item, entry.bounds@, entry.units_per_em);
        }
    }
}

/// What a layer of a color glyph adds lies where the layer does.
pub proof fn law_layers_cover_their_outlines(e: Emitted, ctx: AreaContext, item: WorkItem, layer: ColorGlyphLayer, units: F32)
    requires
        ordinary_size(item.glyph.font_size, ctx.scale, units),
        ({
            let after = e.with_layer(ctx, item, layer, units);
            after.instances.len() > e.instances.len() && finite_rect(after.instances.last().screen_rect@)
        }),
    ensures
        ({
            let after = e.with_layer(ctx, item, layer, units);
            let i = after.instances.last();
            &&& after.instances == e.instances.push(i)
            &&& i.depth == item.glyph.depth
            &&& i.glyph_offset == layer.entry.glyph_offset
            &&& !layer.use_foreground ==> i.color == layer.color
            &&& covers_bounds(i.screen_rect@, ctx, item, layer.entry.bounds@, units)
        }),
{
    reveal(Emitted::with_layer);
    lemma_quad(ctx, item, layer.entry.bounds@, units);
}

/// Two glyphs whose bounds differ by a translation have quads of one size.
pub proof fn law_translated_bounds_keep_their_size(
    ctx: AreaContext,
    item: WorkItem,
    other: WorkItem,
    bounds: Seq<F32>,
    moved: Seq<F32>,
    units: F32,
    k: int,
)
    requires
        k == 0 || k == 1,
        other.glyph.font_size == item.glyph.font_size,
        bounds[k].finite() && bounds[k + 2].finite(),
        moved[k].finite() && moved[k + 2].finite(),
        bounds[k + 2].value() - bounds[k].value() == moved[k + 2].value() - moved[k].value(),
    ensures
        matches_up_to_sign(
            glyph_quad(ctx, item, bounds, units)@[k + 2],
            glyph_quad(ctx, other, moved, units)@[k + 2],
            false,
        ),
{
    reveal(glyph_quad);
    let s = f_div(f_mul(item.glyph.font_size, ctx.scale), units);
    let d = f_sub(bounds[k + 2], bounds[k]);
    let e = f_sub(moved[k + 2], moved[k]);
    assert(matches_up_to_sign(d, e, false)) by {
        reveal(f_sub);
        reveal(f_add);
        assert(f_neg(bounds[k]).value() == -bounds[k].value());
        assert(f_neg(moved[k]).value() == -moved[k].value());
        let x = bounds[k + 2].value() - bounds[k].value();
        crate::float32::lemma_rounding_passes_no_pattern(abs_int(x), 1, 0);
    }
    lemma_negation_is_opposite(s);
    lemma_products_match(d, s, e, s, false, false);
}

}
