//! What culling leaves out.
use vstd::prelude::*;
use vstd::arithmetic::power2::{lemma2_to64, lemma_pow2_adds, lemma_pow2_pos, pow2};
use crate::float32::{
    F32, ONE_BITS, abs_int, f_add, f_from_int, f_le, f_sub, law_small_integers_are_exact, lemma_difference_error,
    lemma_order_is_value_order, lemma_sum_error, magnitude,
};
use crate::glyph_cache::{COLOR_V1_VECTOR_OFFSET, COLOR_VECTOR_OFFSET, NON_VECTOR_OFFSET};
use crate::text_atlas::AtlasState;
use crate::text_renderer::emit::{AreaContext, Emitted, WorkItem, glyph_quad};
use crate::text_renderer::geometry::{GlyphInstance, Placement, kept_instances, rect_meets, shifted};
use crate::text_renderer::masks::{
    lemma_bounds_of_size, lemma_finite_difference, lemma_finite_sum, lemma_moderate_value, moderate,
};
use crate::types::{DecorationExtents, no_extents};

verus! {

/// One pixel.
proof fn lemma_one_pixel()
    ensures
        (F32 { bits: ONE_BITS }).value() == pow2(149),
{
    lemma2_to64();
    lemma_pow2_adds(23, 126);
    assert(ONE_BITS as int / 0x80_0000 == 127 && ONE_BITS as int % 0x80_0000 == 0);
}

/// A value is near an exact one: the error is at most `k` roundings of the reach.
pub open spec fn about(v: F32, exact: int, reach: int, k: int) -> bool {
    &&& v.finite()
    &&& (v.value() - exact) * 0x80_0000 <= k * reach
    &&& (exact - v.value()) * 0x80_0000 <= k * reach
}

/// One more term.
pub proof fn lemma_about_sum(v: F32, exact: int, reach: int, k: int, b: F32)
    requires
        about(v, exact, reach, k),
        b.finite(),
        0 <= k <= 16,
        abs_int(exact + b.value()) <= reach,
        pow2(149) <= reach <= 0x8000_0000_0000_0000 * pow2(149),
    ensures
        about(f_add(v, b), exact + b.value(), reach, k + 2),
{
    lemma_bounds_of_size();
    let kr = k * reach;
    let k2r = (k + 2) * reach;
    assert(kr <= 16 * reach && k2r == kr + 2 * reach) by (nonlinear_arith)
        requires
            kr == k * reach,
            k2r == (k + 2) * reach,
            0 <= k <= 16,
            reach >= 0,
    ;
    lemma_finite_sum(v, b);
    lemma_sum_error(v, b);
}

/// One term less.
pub proof fn lemma_about_difference(v: F32, exact: int, reach: int, k: int, b: F32)
    requires
        about(v, exact, reach, k),
        b.finite(),
        0 <= k <= 16,
        abs_int(exact - b.value()) <= reach,
        pow2(149) <= reach <= 0x8000_0000_0000_0000 * pow2(149),
    ensures
        about(f_sub(v, b), exact - b.value(), reach, k + 2),
{
    lemma_bounds_of_size();
    let kr = k * reach;
    let k2r = (k + 2) * reach;
    assert(kr <= 16 * reach && k2r == kr + 2 * reach) by (nonlinear_arith)
        requires
            kr == k * reach,
            k2r == (k + 2) * reach,
            0 <= k <= 16,
            reach >= 0,
    ;
    lemma_finite_difference(v, b);
    lemma_difference_error(v, b);
}

/// The far side of a quad along an axis, with what decorations reach and one pixel more.
proof fn lemma_far_side(x: F32, s: F32, w: F32, e: F32)
    requires
        moderate(x),
        moderate(s),
        moderate(w),
        moderate(e),
    ensures
        ({
            let one = F32 { bits: ONE_BITS };
            let u = pow2(149) as int;
            let v = f_add(f_add(f_add(f_add(x, s), w), e), one);
            let exact = x.value() + s.value() + w.value() + e.value() + u;
            let reach = abs_int(x.value()) + abs_int(s.value()) + abs_int(w.value()) + abs_int(e.value()) + u;
            about(v, exact, reach, 8)
        }),
{
    let one = F32 { bits: ONE_BITS };
    let u = pow2(149) as int;
    lemma_pow2_pos(149);
    lemma_one_pixel();
    lemma_moderate_value(x);
    lemma_moderate_value(s);
    lemma_moderate_value(w);
    lemma_moderate_value(e);
    let reach = abs_int(x.value()) + abs_int(s.value()) + abs_int(w.value()) + abs_int(e.value()) + u;
    assert(0 * reach == 0) by (nonlinear_arith);
    lemma_about_sum(x, x.value(), reach, 0, s);
    let a = x.value() + s.value();
    lemma_about_sum(f_add(x, s), a, reach, 2, w);
    lemma_about_sum(f_add(f_add(x, s), w), a + w.value(), reach, 4, e);
    lemma_about_sum(f_add(f_add(f_add(x, s), w), e), a + w.value() + e.value(), reach, 6, one);
}

/// The near side of a quad along an axis, with what decorations reach and one pixel more.
proof fn lemma_near_side(x: F32, s: F32, e: F32)
    requires
        moderate(x),
        moderate(s),
        moderate(e),
    ensures
        ({
            let one = F32 { bits: ONE_BITS };
            let u = pow2(149) as int;
            let v = f_sub(f_sub(f_add(x, s), e), one);
            let exact = x.value() + s.value() - e.value() - u;
            let reach = abs_int(x.value()) + abs_int(s.value()) + abs_int(e.value()) + u;
            about(v, exact, reach, 6)
        }),
{
    let one = F32 { bits: ONE_BITS };
    let u = pow2(149) as int;
    lemma_pow2_pos(149);
    lemma_one_pixel();
    lemma_moderate_value(x);
    lemma_moderate_value(s);
    lemma_moderate_value(e);
    let reach = abs_int(x.value()) + abs_int(s.value()) + abs_int(e.value()) + u;
    assert(0 * reach == 0) by (nonlinear_arith);
    lemma_about_sum(x, x.value(), reach, 0, s);
    let a = x.value() + s.value();
    lemma_about_difference(f_add(x, s), a, reach, 2, e);
    lemma_about_difference(f_sub(f_add(x, s), e), a - e.value(), reach, 4, one);
}

/// What a quad covers along an axis, as it appears on screen, with what decorations
/// reach before and behind it: it starts and ends here.
pub open spec fn covered_from(at: F32, scroll: F32, before: F32) -> int {
    at.value() + scroll.value() - before.value()
}

pub open spec fn covered_to(at: F32, scroll: F32, length: F32, behind: F32) -> int {
    at.value() + scroll.value() + length.value() + behind.value()
}

/// The quantities of a quad along an axis are moderate, and together at most 2^20 pixels.
pub open spec fn on_a_screen(at: F32, scroll: F32, length: F32, before: F32, behind: F32) -> bool {
    let reach = abs_int(at.value()) + abs_int(scroll.value()) + abs_int(length.value()) + abs_int(before.value())
        + abs_int(behind.value());
    &&& moderate(at) && moderate(scroll) && moderate(length) && moderate(before) && moderate(behind)
    &&& reach + pow2(149) <= 0x10_0000 * pow2(149)
}

/// A quad overlaps the bounds along an axis, give or take some pixels.
pub open spec fn overlaps(from: int, to: int, low: int, high: int, pixels: int) -> bool {
    let u = pow2(149) as int;
    low * u <= to + pixels * u && from - pixels * u <= high * u
}

proof fn lemma_axis(at: F32, scroll: F32, length: F32, before: F32, behind: F32, low: int, high: int)
    requires
        on_a_screen(at, scroll, length, before, behind),
        -0x100_0000 <= low <= 0x100_0000,
        -0x100_0000 <= high <= 0x100_0000,
    ensures
        ({
            let one = F32 { bits: ONE_BITS };
            let x = f_add(at, scroll);
            let meets = f_le(f_from_int(low), f_add(f_add(f_add(x, length), behind), one)) && f_le(
                f_sub(f_sub(x, before), one),
                f_from_int(high),
            );
            let from = covered_from(at, scroll, before);
            let to = covered_to(at, scroll, length, behind);
            (overlaps(from, to, low, high, 0) ==> meets) && (meets ==> overlaps(from, to, low, high, 2))
        }),
{
    let one = F32 { bits: ONE_BITS };
    lemma_far_side(at, scroll, length, behind);
    lemma_near_side(at, scroll, before);
    law_small_integers_are_exact(low);
    law_small_integers_are_exact(high);
    lemma_pow2_pos(149);
    let x = f_add(at, scroll);
    lemma_order_is_value_order(f_from_int(low), f_add(f_add(f_add(x, length), behind), one));
    lemma_order_is_value_order(f_sub(f_sub(x, before), one), f_from_int(high));
}

/// The whole quad is of a size that a screen has.
pub open spec fn quad_on_a_screen(rect: Seq<F32>, scroll: Seq<F32>, bounds: Seq<i32>, e: DecorationExtents) -> bool {
    &&& on_a_screen(rect[0], scroll[0], rect[2], e.left, e.right)
    &&& on_a_screen(rect[1], scroll[1], rect[3], e.top, e.bottom)
    &&& forall|i: int| 0 <= i < 4 ==> -0x100_0000 <= #[trigger] bounds[i] <= 0x100_0000
}

/// A quad, as it appears on screen with what its decorations reach on each side, overlaps
/// the bounds, give or take some pixels.
pub open spec fn quad_overlaps(rect: Seq<F32>, scroll: Seq<F32>, bounds: Seq<i32>, e: DecorationExtents, pixels: int) -> bool {
    &&& overlaps(
        covered_from(rect[0], scroll[0], e.left),
        covered_to(rect[0], scroll[0], rect[2], e.right),
        bounds[0] as int,
        bounds[2] as int,
        pixels,
    )
    &&& overlaps(
        covered_from(rect[1], scroll[1], e.top),
        covered_to(rect[1], scroll[1], rect[3], e.bottom),
        bounds[1] as int,
        bounds[3] as int,
        pixels,
    )
}

/// Culling keeps what is visible and little else: a quad that overlaps the bounds, as it
/// appears on screen with what its decorations reach, is kept, and one that is kept is
/// no more than two pixels away from them.
pub proof fn law_visible_quads_are_kept(rect: Seq<F32>, scroll: Seq<F32>, bounds: Seq<i32>, e: DecorationExtents)
    requires
        quad_on_a_screen(rect, scroll, bounds, e),
    ensures
        quad_overlaps(rect, scroll, bounds, e, 0) ==> rect_meets(rect, scroll, bounds, e),
        rect_meets(rect, scroll, bounds, e) ==> quad_overlaps(rect, scroll, bounds, e, 2),
{
    assert(-0x100_0000 <= bounds[0] <= 0x100_0000 && -0x100_0000 <= bounds[1] <= 0x100_0000);
    assert(-0x100_0000 <= bounds[2] <= 0x100_0000 && -0x100_0000 <= bounds[3] <= 0x100_0000);
    lemma_axis(rect[0], scroll[0], rect[2], e.left, e.right, bounds[0] as int, bounds[2] as int);
    lemma_axis(rect[1], scroll[1], rect[3], e.top, e.bottom, bounds[1] as int, bounds[3] as int);
}

/// An outline whose quad is visible becomes an instance, and where nothing was emitted
/// the area is no longer complete.
pub proof fn law_visible_outlines_are_emitted(e: Emitted, ctx: AreaContext, item: WorkItem, atlas: AtlasState)
    requires
        ({
            let entry = atlas.glyphs[item.glyph.key.id()];
            let rect = glyph_quad(ctx, item, entry.bounds@, entry.units_per_em)@;
            &&& entry.glyph_offset != NON_VECTOR_OFFSET
            &&& entry.glyph_offset != COLOR_VECTOR_OFFSET
            &&& entry.glyph_offset != COLOR_V1_VECTOR_OFFSET
            &&& quad_on_a_screen(rect, ctx.scroll@, ctx.clip@, ctx.extents)
        }),
    ensures
        ({
            let entry = atlas.glyphs[item.glyph.key.id()];
            let rect = glyph_quad(ctx, item, entry.bounds@, entry.units_per_em)@;
            let after = e.with_item(ctx, item, atlas);
            let emitted = after.instances.len() == e.instances.len() + 1;
            &&& emitted || (after.instances == e.instances && !after.complete)
            &&& emitted ==> after.complete == e.complete
            &&& quad_overlaps(rect, ctx.scroll@, ctx.clip@, ctx.extents, 0) ==> emitted
            &&& emitted ==> quad_overlaps(rect, ctx.scroll@, ctx.clip@, ctx.extents, 2)
        }),
{
    reveal(Emitted::with_outline);
    let entry = atlas.glyphs[item.glyph.key.id()];
    let rect = glyph_quad(ctx, item, entry.bounds@, entry.units_per_em)@;
    law_visible_quads_are_kept(rect, ctx.scroll@, ctx.clip@, ctx.extents);
}

/// Moving an instance moves its origin and nothing else: the new origin is the old one
/// and the shift, up to rounding.
pub proof fn law_shifts_move_the_origin(i: GlyphInstance, dx: F32, dy: F32)
    requires
        moderate(i.screen_rect@[0]) && moderate(i.screen_rect@[1]) && moderate(dx) && moderate(dy),
    ensures
        ({
            let r = i.screen_rect@;
            let s = shifted(i, dx, dy);
            let m = s.screen_rect@;
            &&& (m[0].value() - (r[0].value() + dx.value())) * 0x10_0000 <= abs_int(r[0].value()) + abs_int(dx.value())
                + 0x10_0000
            &&& ((r[0].value() + dx.value()) - m[0].value()) * 0x10_0000 <= abs_int(r[0].value()) + abs_int(dx.value())
                + 0x10_0000
            &&& (m[1].value() - (r[1].value() + dy.value())) * 0x10_0000 <= abs_int(r[1].value()) + abs_int(dy.value())
                + 0x10_0000
            &&& ((r[1].value() + dy.value()) - m[1].value()) * 0x10_0000 <= abs_int(r[1].value()) + abs_int(dy.value())
                + 0x10_0000
            &&& m[2] == r[2] && m[3] == r[3]
            &&& s.color == i.color && s.depth == i.depth && s.ppem == i.ppem
            &&& s.glyph_offset == i.glyph_offset && s.cmd_texel_count == i.cmd_texel_count
        }),
{
    let r = i.screen_rect@;
    lemma_moderate_value(r[0]);
    lemma_moderate_value(r[1]);
    lemma_moderate_value(dx);
    lemma_moderate_value(dy);
    lemma_pow2_pos(149);
    lemma_finite_sum(r[0], dx);
    lemma_finite_sum(r[1], dy);
    lemma_sum_error(r[0], dx);
    lemma_sum_error(r[1], dy);
}

}
