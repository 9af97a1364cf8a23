//! How far decorations and their shadows reach.
use vstd::prelude::*;
use vstd::arithmetic::power2::{lemma2_to64, lemma_pow2_adds, lemma_pow2_pos, pow2};
use crate::blur::{BlurGeometry, shadow_edges, shadow_job};
use crate::float32::{
    F32, FOUR_BITS, HALF_BITS, abs_int, ceil_int, f_add, f_div, f_from_int, f_max, f_min, f_mul, f_sub,
    law_small_integers_are_exact, lemma_order_is_value_order, lemma_signed_quotient_error, lemma_times_four_exactly,
    magnitude,
};
use crate::text_renderer::culling::{about, lemma_about_difference, lemma_about_sum};
use crate::text_renderer::masks::{lemma_bounds_of_size, lemma_moderate_value, moderate};
use crate::types::{DecorationExtents, PhysicalDecoration, blurs, extents_of, reach_of, support_of};

verus! {

/// A decoration whose quantities are of moderate size.
pub open spec fn moderate_decoration(d: PhysicalDecoration) -> bool {
    &&& moderate(d.spread)
    &&& moderate(d.offset@[0])
    &&& moderate(d.offset@[1])
    &&& moderate(support_of(d.blur))
}

/// How far a decoration reaches in every direction before it is displaced: its spread,
/// half a pixel, and the reach of its blur, twice.
pub open spec fn reach_twice(d: PhysicalDecoration) -> int {
    2 * d.spread.value() + pow2(149) + if blurs(d.blur) { 2 * support_of(d.blur).value() } else { 0 }
}

/// The sizes of what a decoration's reach is made of.
pub open spec fn decoration_slack(d: PhysicalDecoration, axis: int) -> int {
    abs_int(d.spread.value()) + abs_int(d.offset@[axis].value()) + abs_int(support_of(d.blur).value()) + pow2(149)
}

proof fn lemma_reach(d: PhysicalDecoration, axis: int)
    requires
        moderate_decoration(d),
        axis == 0 || axis == 1,
    ensures
        ({
            let r = reach_of(d, F32 { bits: HALF_BITS });
            let o = d.offset@[axis];
            let before = f_sub(r, o);
            let behind = f_add(r, o);
            let slack = 2 * decoration_slack(d, axis);
            &&& before.finite() && behind.finite()
            &&& (2 * before.value() - (reach_twice(d) - 2 * o.value())) * 0x10_0000 <= slack
            &&& ((reach_twice(d) - 2 * o.value()) - 2 * before.value()) * 0x10_0000 <= slack
            &&& (2 * behind.value() - (reach_twice(d) + 2 * o.value())) * 0x10_0000 <= slack
            &&& ((reach_twice(d) + 2 * o.value()) - 2 * behind.value()) * 0x10_0000 <= slack
        }),
{
    let half = F32 { bits: HALF_BITS };
    let u = pow2(149) as int;
    lemma_pow2_pos(149);
    lemma_bounds_of_size();
    let o = d.offset@[axis];
    let s = support_of(d.blur);
    lemma_moderate_value(d.spread);
    lemma_moderate_value(o);
    lemma_moderate_value(s);
    let h = half.value();
    assert(2 * h == u);
    let reach = decoration_slack(d, axis);
    assert(0 * reach == 0) by (nonlinear_arith);
    lemma_about_sum(d.spread, d.spread.value(), reach, 0, half);
    let a = d.spread.value() + h;
    let dilated = f_add(d.spread, half);
    if blurs(d.blur) {
        lemma_about_sum(dilated, a, reach, 2, s);
        lemma_about_difference(f_add(dilated, s), a + s.value(), reach, 4, o);
        lemma_about_sum(f_add(dilated, s), a + s.value(), reach, 4, o);
    } else {
        lemma_about_difference(dilated, a, reach, 2, o);
        lemma_about_sum(dilated, a, reach, 2, o);
    }
}

/// What the decorations of a text reach covers each of them: a decoration that reaches
/// some way in every direction and is displaced by an offset reaches that far less the
/// offset to the left and up, and that far plus the offset to the right and down, up to
/// rounding.
pub open spec fn reaches_as_far(e: DecorationExtents, d: PhysicalDecoration) -> bool {
    let r = reach_twice(d);
    let x = 2 * d.offset@[0].value();
    let y = 2 * d.offset@[1].value();
    &&& ((r - x) - 2 * e.left.value()) * 0x10_0000 <= 2 * decoration_slack(d, 0)
    &&& ((r + x) - 2 * e.right.value()) * 0x10_0000 <= 2 * decoration_slack(d, 0)
    &&& ((r - y) - 2 * e.top.value()) * 0x10_0000 <= 2 * decoration_slack(d, 1)
    &&& ((r + y) - 2 * e.bottom.value()) * 0x10_0000 <= 2 * decoration_slack(d, 1)
}

pub proof fn law_extents_cover_every_decoration(list: Seq<PhysicalDecoration>, i: int)
    requires
        0 <= i < list.len(),
        forall|k: int| 0 <= k < list.len() ==> moderate_decoration(#[trigger] list[k]),
    ensures
        reaches_as_far(extents_of(list, F32 { bits: HALF_BITS }), list[i]),
{
    lemma_extents(list);
    lemma_extents_cover(list, i);
}

proof fn lemma_extents(list: Seq<PhysicalDecoration>)
    requires
        forall|k: int| 0 <= k < list.len() ==> moderate_decoration(#[trigger] list[k]),
    ensures
        ({
            let e = extents_of(list, F32 { bits: HALF_BITS });
            e.left.finite() && e.top.finite() && e.right.finite() && e.bottom.finite()
        }),
    decreases list.len(),
{
    if list.len() > 0 {
        let rest = list.drop_last();
        assert forall|k: int| 0 <= k < rest.len() implies moderate_decoration(#[trigger] rest[k]) by {
            assert(rest[k] == list[k]);
        }
        lemma_extents(rest);
        assert(moderate_decoration(list[list.len() - 1]));
        lemma_reach(list.last(), 0);
        lemma_reach(list.last(), 1);
    }
}

proof fn lemma_extents_cover(list: Seq<PhysicalDecoration>, i: int)
    requires
        0 <= i < list.len(),
        forall|k: int| 0 <= k < list.len() ==> moderate_decoration(#[trigger] list[k]),
    ensures
        reaches_as_far(extents_of(list, F32 { bits: HALF_BITS }), list[i]),
    decreases list.len(),
{
    let half = F32 { bits: HALF_BITS };
    let rest = list.drop_last();
    let d = list.last();
    assert forall|k: int| 0 <= k < rest.len() implies moderate_decoration(#[trigger] rest[k]) by {
        assert(rest[k] == list[k]);
    }
    lemma_extents(rest);
    assert(moderate_decoration(list[list.len() - 1]));
    lemma_reach(d, 0);
    lemma_reach(d, 1);
    let e = extents_of(rest, half);
    let r = reach_of(d, half);
    lemma_order_is_value_order(e.left, f_sub(r, d.offset@[0]));
    lemma_order_is_value_order(e.top, f_sub(r, d.offset@[1]));
    lemma_order_is_value_order(e.right, f_add(r, d.offset@[0]));
    lemma_order_is_value_order(e.bottom, f_add(r, d.offset@[1]));
    if i < rest.len() {
        lemma_extents_cover(rest, i);
        assert(rest[i] == list[i]);
    }
}

/// The larger and the smaller of two numbers.
pub open spec fn larger(x: int, y: int) -> int {
    if x < y { y } else { x }
}

pub open spec fn smaller(x: int, y: int) -> int {
    if x < y { x } else { y }
}

/// No farther from an exact number than a 2^19th of the reach.
pub open spec fn within_reach(v: int, exact: int, reach: int) -> bool {
    (v - exact) * 0x8_0000 <= reach && (exact - v) * 0x8_0000 <= reach
}

/// What the edges of a shadow along an axis depend on: the glyphs' edges, the clip, the
/// offset and the support of the blur.
pub ghost struct ShadowAxis {
    pub low: F32,
    pub high: F32,
    pub clip_low: F32,
    pub clip_high: F32,
    pub offset: F32,
    pub support: F32,
}

impl ShadowAxis {
    pub open spec fn moderate(self) -> bool {
        &&& moderate(self.low) && moderate(self.high) && moderate(self.clip_low) && moderate(self.clip_high)
        &&& moderate(self.offset) && moderate(self.support)
        &&& self.reach() <= 0x2000_0000_0000_0000 * pow2(149)
    }

    pub open spec fn reach(self) -> int {
        abs_int(self.low.value()) + abs_int(self.high.value()) + abs_int(self.clip_low.value()) + abs_int(
            self.clip_high.value(),
        ) + 2 * abs_int(self.offset.value()) + 2 * abs_int(self.support.value()) + pow2(149)
    }

    /// Where the visible shadow starts: at the glyphs, less the support, displaced, unless
    /// it is clipped.
    pub open spec fn starts(self) -> int {
        larger(self.low.value() - self.support.value() + self.offset.value(), self.clip_low.value())
    }

    pub open spec fn ends(self) -> int {
        smaller(self.high.value() + self.support.value() + self.offset.value(), self.clip_high.value())
    }
}

/// The axis of a shadow.
pub open spec fn shadow_axis(glyphs: Seq<F32>, clip: Seq<F32>, offset: Seq<F32>, support: F32, axis: int) -> ShadowAxis {
    ShadowAxis {
        low: glyphs[axis],
        high: glyphs[axis + 2],
        clip_low: clip[axis],
        clip_high: clip[axis + 2],
        offset: offset[axis],
        support,
    }
}

proof fn lemma_about_larger(v: F32, x: int, w: F32, reach: int)
    requires
        about(v, x, reach, 4),
        w.finite(),
        reach >= 0,
    ensures
        about(f_max(v, w), larger(x, w.value()), reach, 4),
{
    lemma_order_is_value_order(v, w);
}

proof fn lemma_about_smaller(v: F32, x: int, w: F32, reach: int)
    requires
        about(v, x, reach, 4),
        w.finite(),
        reach >= 0,
    ensures
        about(f_min(v, w), smaller(x, w.value()), reach, 4),
{
    lemma_order_is_value_order(w, v);
}

proof fn lemma_shadow_edges(a: ShadowAxis)
    requires
        a.moderate(),
    ensures
        about(f_max(f_add(f_sub(a.low, a.support), a.offset), a.clip_low), a.starts(), a.reach(), 4),
        about(f_min(f_add(f_add(a.high, a.support), a.offset), a.clip_high), a.ends(), a.reach(), 4),
        abs_int(a.starts()) + abs_int(a.offset.value()) + abs_int(a.support.value()) <= a.reach(),
        abs_int(a.ends()) + abs_int(a.offset.value()) + abs_int(a.support.value()) <= a.reach(),
        pow2(149) <= a.reach() <= 0x2000_0000_0000_0000 * pow2(149),
{
    lemma_pow2_pos(149);
    lemma_moderate_value(a.low);
    lemma_moderate_value(a.high);
    lemma_moderate_value(a.clip_low);
    lemma_moderate_value(a.clip_high);
    lemma_moderate_value(a.offset);
    lemma_moderate_value(a.support);
    let reach = a.reach();
    assert(0 * reach == 0) by (nonlinear_arith);
    lemma_about_difference(a.low, a.low.value(), reach, 0, a.support);
    let x = a.low.value() - a.support.value();
    lemma_about_sum(f_sub(a.low, a.support), x, reach, 2, a.offset);
    lemma_about_larger(f_add(f_sub(a.low, a.support), a.offset), x + a.offset.value(), a.clip_low, reach);
    lemma_about_sum(a.high, a.high.value(), reach, 0, a.support);
    let y = a.high.value() + a.support.value();
    lemma_about_sum(f_add(a.high, a.support), y, reach, 2, a.offset);
    lemma_about_smaller(f_add(f_add(a.high, a.support), a.offset), y + a.offset.value(), a.clip_high, reach);
}

/// A shadow's geometry, along an axis: the visible shadow goes from where it starts to
/// where it ends, and the mask behind it covers the same range pulled back by the offset,
/// with the support on either side. All is up to rounding.
pub open spec fn places_shadow(g: BlurGeometry, a: ShadowAxis, axis: int) -> bool {
    let d = g.dest@;
    let s = g.source@;
    let reach = 2 * a.reach();
    let o = a.offset.value();
    let k = a.support.value();
    &&& within_reach(d[axis].value(), a.starts(), reach)
    &&& within_reach(d[axis].value() + d[axis + 2].value(), a.ends(), reach)
    &&& within_reach(s[axis].value(), a.starts() - o - k, reach)
    &&& within_reach(s[axis].value() + s[axis + 2].value(), a.ends() - o + k, reach)
}

/// Where the shadow of some glyphs lies, and what its mask covers.
pub proof fn law_shadows_lie_where_their_glyphs_throw_them(
    glyphs: Seq<F32>,
    clip: Seq<F32>,
    offset: [F32; 2],
    sigma: F32,
    support: F32,
    axis: int,
)
    requires
        axis == 0 || axis == 1,
        shadow_job(glyphs, clip, offset, sigma, support) is Some,
        shadow_axis(glyphs, clip, offset@, support, axis).moderate(),
    ensures
        ({
            let g = shadow_job(glyphs, clip, offset, sigma, support)->0;
            &&& g.offset == offset
            &&& g.sigma == sigma
            &&& g.support == support
            &&& places_shadow(g, shadow_axis(glyphs, clip, offset@, support, axis), axis)
        }),
{
    let a = shadow_axis(glyphs, clip, offset@, support, axis);
    let edges = shadow_edges(glyphs, clip, offset@, support)@;
    let low = edges[axis];
    let high = edges[axis + 2];
    assert(low == f_max(f_add(f_sub(a.low, a.support), a.offset), a.clip_low));
    assert(high == f_min(f_add(f_add(a.high, a.support), a.offset), a.clip_high));
    lemma_axis_geometry(a, low, high);
    let g = shadow_job(glyphs, clip, offset, sigma, support)->0;
    let before = f_sub(f_sub(low, a.offset), a.support);
    let behind = f_add(f_sub(high, a.offset), a.support);
    assert(g.dest@[axis] == low && g.dest@[axis + 2] == f_sub(high, low));
    assert(g.source@[axis] == before && g.source@[axis + 2] == f_sub(behind, before));
}

proof fn lemma_axis_geometry(a: ShadowAxis, low: F32, high: F32)
    requires
        a.moderate(),
        low == f_max(f_add(f_sub(a.low, a.support), a.offset), a.clip_low),
        high == f_min(f_add(f_add(a.high, a.support), a.offset), a.clip_high),
    ensures
        ({
            let reach = 2 * a.reach();
            let o = a.offset.value();
            let k = a.support.value();
            let before = f_sub(f_sub(low, a.offset), a.support);
            let behind = f_add(f_sub(high, a.offset), a.support);
            &&& within_reach(low.value(), a.starts(), reach)
            &&& within_reach(low.value() + f_sub(high, low).value(), a.ends(), reach)
            &&& within_reach(before.value(), a.starts() - o - k, reach)
            &&& within_reach(before.value() + f_sub(behind, before).value(), a.ends() - o + k, reach)
        }),
{
    lemma_shadow_edges(a);
    lemma_moderate_value(a.offset);
    lemma_moderate_value(a.support);
    lemma_mask_range(low, a.starts(), high, a.ends(), a.offset, a.support, a.reach());
}

/// What a mask covers behind a range of a shadow.
proof fn lemma_mask_range(low: F32, x: int, high: F32, y: int, offset: F32, support: F32, reach: int)
    requires
        about(low, x, reach, 4),
        about(high, y, reach, 4),
        offset.finite(),
        support.finite(),
        abs_int(x) + abs_int(offset.value()) + abs_int(support.value()) <= reach,
        abs_int(y) + abs_int(offset.value()) + abs_int(support.value()) <= reach,
        pow2(149) <= reach <= 0x2000_0000_0000_0000 * pow2(149),
    ensures
        ({
            let o = offset.value();
            let k = support.value();
            let before = f_sub(f_sub(low, offset), support);
            let behind = f_add(f_sub(high, offset), support);
            &&& within_reach(low.value(), x, 2 * reach)
            &&& within_reach(low.value() + f_sub(high, low).value(), y, 2 * reach)
            &&& within_reach(before.value(), x - o - k, 2 * reach)
            &&& within_reach(before.value() + f_sub(behind, before).value(), y - o + k, 2 * reach)
        }),
{
    let o = offset.value();
    let k = support.value();
    let before = f_sub(f_sub(low, offset), support);
    let behind = f_add(f_sub(high, offset), support);
    assert(about(before, x - o - k, reach, 8)) by {
        lemma_about_difference(low, x, reach, 4, offset);
        lemma_about_difference(f_sub(low, offset), x - o, reach, 6, support);
    }
    assert(about(behind, y - o + k, reach, 8)) by {
        lemma_about_difference(high, y, reach, 4, offset);
        lemma_about_sum(f_sub(high, offset), y - o, reach, 6, support);
    }
    lemma_length(low, x, high, y, reach, 4);
    lemma_length(before, x - o - k, behind, y - o + k, reach, 8);
}

/// A length between two edges.
proof fn lemma_length(low: F32, x: int, high: F32, y: int, reach: int, k: int)
    requires
        about(low, x, reach, k),
        about(high, y, reach, k),
        0 <= k <= 8,
        abs_int(x) <= reach,
        abs_int(y) <= reach,
        pow2(149) <= reach <= 0x2000_0000_0000_0000 * pow2(149),
    ensures
        within_reach(low.value(), x, 2 * reach),
        within_reach(low.value() + f_sub(high, low).value(), y, 2 * reach),
{
    lemma_bounds_of_size();
    let kr = k * reach;
    assert(kr <= 8 * reach) by (nonlinear_arith)
        requires
            kr == k * reach,
            k <= 8,
            reach >= 0,
    ;
    crate::text_renderer::masks::lemma_finite_difference(high, low);
    crate::float32::lemma_difference_error(high, low);
}

/// A pixel of the shadow samples the mask where the shadow was displaced from: the
/// fraction of the mask's width at which the shadow starts, times the width in texels, is
/// as far into the mask as the shadow's start less the offset is from the mask's origin.
pub proof fn law_shadows_sample_their_masks(g: BlurGeometry, axis: int)
    requires
        axis == 0 || axis == 1,
        moderate(g.dest@[axis]) && moderate(g.offset@[axis]) && moderate(g.source@[axis]) && moderate(g.dest@[axis + 2]),
        ({
            let size = if axis == 0 { g.mask_size().0 } else { g.mask_size().1 };
            1 <= size <= 0x100_0000
        }),
        g.uv()@[axis].finite(),
        g.uv()@[axis + 2].finite(),
    ensures
        ({
            let size = if axis == 0 { g.mask_size().0 } else { g.mask_size().1 };
            let d = g.dest@[axis].value();
            let o = g.offset@[axis].value();
            let s = g.source@[axis].value();
            let w = g.dest@[axis + 2].value();
            let reach = abs_int(d) + abs_int(o) + abs_int(s) + pow2(149);
            &&& within_reach(g.uv()@[axis].value() * size, d - o - s, reach + 0x80_0000 * size)
            &&& within_reach(g.uv()@[axis + 2].value() * size, w, abs_int(w) + 0x80_0000 * size)
        }),
{
    let size = if axis == 0 { g.mask_size().0 } else { g.mask_size().1 };
    let d = g.dest@[axis];
    let o = g.offset@[axis];
    let s = g.source@[axis];
    let w = g.dest@[axis + 2];
    let width = f_from_int(size);
    lemma_pow2_pos(149);
    lemma_moderate_value(d);
    lemma_moderate_value(o);
    lemma_moderate_value(s);
    lemma_moderate_value(w);
    let reach = abs_int(d.value()) + abs_int(o.value()) + abs_int(s.value()) + pow2(149);
    assert(0 * reach == 0) by (nonlinear_arith);
    lemma_about_difference(d, d.value(), reach, 0, o);
    lemma_about_difference(f_sub(d, o), d.value() - o.value(), reach, 2, s);
    let num = f_sub(f_sub(d, o), s);
    law_small_integers_are_exact(size);
    lemma_part(num, width, size);
    lemma_part(w, width, size);
    let n = num.value();
}

/// A fraction of a whole number, times the number.
proof fn lemma_part(num: F32, width: F32, size: int)
    requires
        num.finite(),
        width.finite(),
        width.value() == size * pow2(149),
        size >= 1,
        f_div(num, width).finite(),
    ensures
        ({
            let v = f_div(num, width).value() * size;
            let n = num.value();
            &&& (v - n) * 0x80_0000 <= abs_int(n) + 0x80_0000 * size
            &&& (n - v) * 0x80_0000 <= abs_int(n) + 0x80_0000 * size
        }),
{
    let u = pow2(149) as int;
    lemma_pow2_pos(149);
    let wv = width.value();
    assert(wv > 0) by (nonlinear_arith)
        requires
            wv == size * u,
            size >= 1,
            u > 0,
    ;
    lemma_signed_quotient_error(num, width);
    let q = f_div(num, width).value();
    let n = num.value();
    let v = q * size;
    assert(q * wv == v * u) by (nonlinear_arith)
        requires
            wv == size * u,
            v == q * size,
    ;
    let nu = n * u;
    assert(abs_int(nu) == abs_int(n) * u) by (nonlinear_arith)
        requires
            nu == n * u,
            u > 0,
    ;
    let c = abs_int(n);
    assert((v - n) * 0x80_0000 <= c + 0x80_0000 * size && (n - v) * 0x80_0000 <= c + 0x80_0000 * size) by (nonlinear_arith)
        requires
            (v * u - n * u) * 0x80_0000 <= c * u + 0x80_0000 * (size * u),
            (n * u - v * u) * 0x80_0000 <= c * u + 0x80_0000 * (size * u),
            u > 0,
    ;
}

/// A blur reaches four deviations, rounded up to whole pixels.
pub proof fn law_blurs_reach_four_deviations(blur: F32)
    requires
        !blur.negative(),
        0x80_0000 <= blur.unsigned() <= 0x4980_0000,
    ensures
        ({
            let k = support_of(blur).value();
            let u = pow2(149) as int;
            &&& exists|n: int| k == #[trigger] (n * u)
            &&& 4 * blur.value() <= k < 4 * blur.value() + u
        }),
{
    let u = pow2(149) as int;
    lemma_pow2_pos(149);
    let reach = f_mul(F32 { bits: FOUR_BITS }, blur);
    lemma_four_times(blur);
    let r = reach.value();
    let n = ceil_int(reach);
    vstd::arithmetic::div_mod::lemma_fundamental_div_mod(-r, u);
    vstd::arithmetic::div_mod::lemma_mod_bound(-r, u);
    let m = (-r) / u;
    assert(n == -m);
    assert(n * u == r + (-r) % u) by (nonlinear_arith)
        requires
            -r == u * m + (-r) % u,
            n == -m,
    ;
    assert(0 <= n <= 0x40_0000) by (nonlinear_arith)
        requires
            n * u == r + (-r) % u,
            0 <= (-r) % u < u,
            0 <= r <= 0x40_0000 * u,
            u > 0,
    ;
    law_small_integers_are_exact(n);
    assert(support_of(blur).value() == n * u);
}

proof fn lemma_four_times(blur: F32)
    requires
        !blur.negative(),
        0x80_0000 <= blur.unsigned() <= 0x4980_0000,
    ensures
        ({
            let r = f_mul(F32 { bits: FOUR_BITS }, blur);
            r.finite() && r.value() == 4 * blur.value() && 0 <= r.value() <= 0x40_0000 * pow2(149)
        }),
{
    lemma_times_four_exactly(blur);
    lemma2_to64();
    lemma_pow2_adds(20, 149);
    lemma_pow2_adds(23, 146);
    assert(0x4980_0000int / 0x80_0000 == 147 && 0x4980_0000int % 0x80_0000 == 0);
    if blur.unsigned() < 0x4980_0000 {
        crate::float32::lemma_magnitude_monotone(blur.unsigned(), 0x4980_0000);
    }
    crate::float32::lemma_magnitude_nonneg(blur.unsigned());
    reveal(f_mul);
    let m = magnitude(blur.unsigned());
    let n = magnitude(FOUR_BITS as int);
    assert(m * n == n * m) by (nonlinear_arith);
}

}
