//! What a shadow's mask encloses.
use vstd::prelude::*;
use vstd::arithmetic::power2::{lemma2_to64, lemma2_to64_rest, lemma_pow2_adds, lemma_pow2_pos, pow2};
use crate::float32::{
    F32, HALF_BITS, abs_int, f_add, f_le, f_max, f_min, f_sub, law_differences_keep_order, law_sums_keep_order,
    lemma_difference_error, lemma_magnitude_monotone, lemma_magnitude_nonneg, lemma_order_is_value_order,
    lemma_sum_error, magnitude,
};
use crate::text_renderer::geometry::GlyphInstance;
use crate::text_renderer::shadow::{bounds_at, hull, mask_rect};

verus! {

/// A value of at most 2^60 in size.
pub open spec fn moderate(v: F32) -> bool {
    v.unsigned() <= 0x5d80_0000
}

/// An instance whose quad and scroll are of moderate size.
pub open spec fn moderate_quad(i: GlyphInstance, scroll: Seq<F32>) -> bool {
    let r = i.screen_rect@;
    &&& moderate(r[0]) && moderate(r[1]) && moderate(r[2]) && moderate(r[3])
    &&& moderate(scroll[0]) && moderate(scroll[1])
}

/// A coordinate on screen, times 2^20: where it is, give or take what rounding may do.
pub open spec fn near_place(e: int, place: int, slack: int) -> bool {
    (e - place) * 0x10_0000 <= slack && (place - e) * 0x10_0000 <= slack
}

pub proof fn lemma_bounds_of_size()
    ensures
        magnitude(0x5d80_0000) == 0x1000_0000_0000_0000 * pow2(149),
        magnitude(0x5f80_0000) == 0x1_0000_0000_0000_0000 * pow2(149),
        2 * magnitude(HALF_BITS as int) == pow2(149),
        pow2(149) >= 0x100_0000_0000,
{
    lemma2_to64();
    lemma2_to64_rest();
    lemma_pow2_adds(23, 186);
    lemma_pow2_adds(60, 149);
    lemma_pow2_adds(23, 190);
    lemma_pow2_adds(64, 149);
    lemma_pow2_adds(23, 125);
    lemma_pow2_adds(1, 148);
    vstd::arithmetic::power2::lemma_pow2_strictly_increases(40, 149);
    assert(0x5d80_0000int / 0x80_0000 == 187 && 0x5d80_0000int % 0x80_0000 == 0);
    assert(0x5f80_0000int / 0x80_0000 == 191 && 0x5f80_0000int % 0x80_0000 == 0);
    assert(HALF_BITS as int / 0x80_0000 == 126 && HALF_BITS as int % 0x80_0000 == 0);
}

pub proof fn lemma_moderate_value(v: F32)
    requires
        moderate(v),
    ensures
        v.finite(),
        abs_int(v.value()) <= 0x1000_0000_0000_0000 * pow2(149),
{
    lemma_bounds_of_size();
    lemma_magnitude_nonneg(v.unsigned());
    if v.unsigned() < 0x5d80_0000 {
        lemma_magnitude_monotone(v.unsigned(), 0x5d80_0000);
    }
}

/// A sum of moderate size is finite.
pub proof fn lemma_finite_sum(a: F32, b: F32)
    requires
        a.finite(),
        b.finite(),
        abs_int(a.value() + b.value()) <= 0x1_0000_0000_0000_0000 * pow2(149),
    ensures
        f_add(a, b).finite(),
{
    lemma_bounds_of_size();
    let high = F32 { bits: 0x5f80_0000 };
    let low = F32 { bits: 0xdf80_0000 };
    law_sums_keep_order(a, b, high);
    law_sums_keep_order(a, b, low);
}

pub proof fn lemma_finite_difference(a: F32, b: F32)
    requires
        a.finite(),
        b.finite(),
        abs_int(a.value() - b.value()) <= 0x1_0000_0000_0000_0000 * pow2(149),
    ensures
        f_sub(a, b).finite(),
{
    lemma_bounds_of_size();
    let high = F32 { bits: 0x5f80_0000 };
    let low = F32 { bits: 0xdf80_0000 };
    law_differences_keep_order(a, b, high);
    law_differences_keep_order(a, b, low);
}

/// The edges that one coordinate of a quad has in a mask.
proof fn lemma_mask_edges(x: F32, s: F32, w: F32)
    requires
        moderate(x),
        moderate(s),
        moderate(w),
    ensures
        ({
            let half = F32 { bits: HALF_BITS };
            let u = pow2(149) as int;
            let at = f_add(x, s);
            let low = f_sub(at, half);
            let high = f_add(f_add(at, w), half);
            let place = x.value() + s.value();
            let slack = abs_int(x.value()) + abs_int(s.value()) + abs_int(w.value()) + u;
            &&& low.finite() && high.finite()
            &&& near_place(2 * low.value(), 2 * place - u, 2 * slack)
            &&& near_place(2 * high.value(), 2 * (place + w.value()) + u, 2 * slack)
        }),
{
    let half = F32 { bits: HALF_BITS };
    let u = pow2(149) as int;
    lemma_pow2_pos(149);
    lemma_bounds_of_size();
    lemma_moderate_value(x);
    lemma_moderate_value(s);
    lemma_moderate_value(w);
    let at = f_add(x, s);
    lemma_finite_sum(x, s);
    lemma_sum_error(x, s);
    lemma_finite_difference(at, half);
    lemma_difference_error(at, half);
    lemma_finite_sum(at, w);
    let end = f_add(at, w);
    lemma_sum_error(at, w);
    lemma_finite_sum(end, half);
    lemma_sum_error(end, half);
}

/// The mask rectangle of an instance is its quad on screen with half a pixel around it,
/// up to rounding.
proof fn lemma_mask_rect(i: GlyphInstance, scroll: Seq<F32>)
    requires
        moderate_quad(i, scroll),
    ensures
        ({
            let m = mask_rect(i, scroll)@;
            let r = i.screen_rect@;
            let u = pow2(149) as int;
            let dx = abs_int(r[0].value()) + abs_int(scroll[0].value()) + abs_int(r[2].value()) + u;
            let dy = abs_int(r[1].value()) + abs_int(scroll[1].value()) + abs_int(r[3].value()) + u;
            let x = r[0].value() + scroll[0].value();
            let y = r[1].value() + scroll[1].value();
            &&& m[0].finite() && m[1].finite() && m[2].finite() && m[3].finite()
            &&& near_place(2 * m[0].value(), 2 * x - u, 2 * dx)
            &&& near_place(2 * m[1].value(), 2 * y - u, 2 * dy)
            &&& near_place(2 * m[2].value(), 2 * (x + r[2].value()) + u, 2 * dx)
            &&& near_place(2 * m[3].value(), 2 * (y + r[3].value()) + u, 2 * dy)
        }),
{
    let r = i.screen_rect@;
    lemma_mask_edges(r[0], scroll[0], r[2]);
    lemma_mask_edges(r[1], scroll[1], r[3]);
}

/// An edge of a mask is that of some instance's rectangle.
spec fn attained(instances: Seq<GlyphInstance>, scroll: Seq<F32>, depth: F32, n: int, k: int, v: int) -> bool {
    exists|i: int|
        0 <= i < n && #[trigger] instances[i].depth == depth && v == mask_rect(instances[i], scroll)@[k].value()
}

/// The bounds of a mask against the rectangles of its instances: no edge is inside any,
/// and each is that of some.
proof fn lemma_bounds_are_hull(instances: Seq<GlyphInstance>, scroll: Seq<F32>, depth: F32, n: int)
    requires
        0 <= n <= instances.len(),
        bounds_at(instances, scroll, depth, n) is Some,
        forall|i: int| 0 <= i < n && (#[trigger] instances[i]).depth == depth ==> moderate_quad(instances[i], scroll),
    ensures
        ({
            let b = (bounds_at(instances, scroll, depth, n)->0)@;
            &&& b[0].finite() && b[1].finite() && b[2].finite() && b[3].finite()
            &&& forall|i: int|
                0 <= i < n && (#[trigger] instances[i]).depth == depth ==> {
                    let m = mask_rect(instances[i], scroll)@;
                    &&& b[0].value() <= m[0].value() && b[1].value() <= m[1].value()
                    &&& m[2].value() <= b[2].value() && m[3].value() <= b[3].value()
                }
            &&& forall|k: int| 0 <= k < 4 ==> #[trigger] attained(instances, scroll, depth, n, k, b[k].value())
        }),
    decreases n,
{
    let last = instances[n - 1];
    let all = bounds_at(instances, scroll, depth, n)->0;
    if last.depth != depth {
        lemma_bounds_are_hull(instances, scroll, depth, n - 1);
        assert forall|k: int| 0 <= k < 4 implies #[trigger] attained(instances, scroll, depth, n, k, all@[k].value()) by {
            assert(attained(instances, scroll, depth, n - 1, k, all@[k].value()));
        }
    } else {
        lemma_mask_rect(last, scroll);
        let m = mask_rect(last, scroll);
        match bounds_at(instances, scroll, depth, n - 1) {
            None => {
                lemma_none_before(instances, scroll, depth, n - 1);
                assert(all == m);
                assert forall|k: int| 0 <= k < 4 implies #[trigger] attained(
                    instances,
                    scroll,
                    depth,
                    n,
                    k,
                    all@[k].value(),
                ) by {
                    assert(instances[n - 1].depth == depth);
                }
            },
            Some(rest) => {
                lemma_bounds_are_hull(instances, scroll, depth, n - 1);
                assert(all == hull(rest, m));
                lemma_order_is_value_order(m@[0], rest@[0]);
                lemma_order_is_value_order(m@[1], rest@[1]);
                lemma_order_is_value_order(rest@[2], m@[2]);
                lemma_order_is_value_order(rest@[3], m@[3]);
                assert forall|k: int| 0 <= k < 4 implies #[trigger] attained(
                    instances,
                    scroll,
                    depth,
                    n,
                    k,
                    all@[k].value(),
                ) by {
                    if all@[k] == m@[k] {
                        assert(instances[n - 1].depth == depth);
                    } else {
                        assert(all@[k] == rest@[k]);
                        assert(attained(instances, scroll, depth, n - 1, k, rest@[k].value()));
                    }
                }
            },
        }
    }
}

proof fn lemma_none_before(instances: Seq<GlyphInstance>, scroll: Seq<F32>, depth: F32, n: int)
    requires
        0 <= n <= instances.len(),
        bounds_at(instances, scroll, depth, n) is None,
    ensures
        forall|i: int| 0 <= i < n ==> (#[trigger] instances[i]).depth != depth,
    decreases n,
{
    if n > 0 {
        lemma_none_before(instances, scroll, depth, n - 1);
    }
}

/// Where the four edges of an instance's quad are on screen: its origin plus the scroll,
/// and its far corner.
pub open spec fn edge_on_screen(i: GlyphInstance, scroll: Seq<F32>, k: int) -> int {
    let r = i.screen_rect@;
    if k == 0 {
        r[0].value() + scroll[0].value()
    } else if k == 1 {
        r[1].value() + scroll[1].value()
    } else if k == 2 {
        r[0].value() + scroll[0].value() + r[2].value()
    } else {
        r[1].value() + scroll[1].value() + r[3].value()
    }
}

/// What rounding may do to an edge.
pub open spec fn edge_slack(i: GlyphInstance, scroll: Seq<F32>, k: int) -> int {
    let r = i.screen_rect@;
    let axis = k % 2;
    abs_int(r[axis].value()) + abs_int(scroll[axis].value()) + abs_int(r[axis + 2].value()) + pow2(149)
}

/// Half a pixel outside an edge: to the left and up, or to the right and down.
pub open spec fn half_pixel_out(k: int) -> int {
    if k < 2 { -(pow2(149) as int) } else { pow2(149) as int }
}

/// An edge of a mask is half a pixel outside the edge of a glyph's quad, up to rounding.
pub open spec fn outlines(v: int, i: GlyphInstance, scroll: Seq<F32>, k: int) -> bool {
    near_place(2 * v, 2 * edge_on_screen(i, scroll, k) + half_pixel_out(k), 2 * edge_slack(i, scroll, k))
}

/// An edge of a mask is at least half a pixel outside the edge of a glyph's quad, up to
/// rounding.
pub open spec fn encloses(v: int, i: GlyphInstance, scroll: Seq<F32>, k: int) -> bool {
    let e = 2 * edge_on_screen(i, scroll, k) + half_pixel_out(k);
    let slack = 2 * edge_slack(i, scroll, k);
    if k < 2 { (2 * v - e) * 0x10_0000 <= slack } else { (e - 2 * v) * 0x10_0000 <= slack }
}

/// An edge of a mask is half a pixel outside the edge of some glyph's quad.
pub open spec fn outlines_some(instances: Seq<GlyphInstance>, scroll: Seq<F32>, depth: F32, k: int, v: int) -> bool {
    exists|i: int|
        0 <= i < instances.len() && instances[i].depth == depth && #[trigger] outlines(v, instances[i], scroll, k)
}

proof fn lemma_rect_outlines(i: GlyphInstance, scroll: Seq<F32>, k: int)
    requires
        0 <= k < 4,
        moderate_quad(i, scroll),
    ensures
        outlines(mask_rect(i, scroll)@[k].value(), i, scroll, k),
{
    lemma_mask_rect(i, scroll);
    if k == 0 {
    } else if k == 1 {
    } else if k == 2 {
    } else {
        assert(k == 3);
    }
}

proof fn lemma_further_out(v: int, m: int, i: GlyphInstance, scroll: Seq<F32>, k: int)
    requires
        outlines(m, i, scroll, k),
        if k < 2 { v <= m } else { m <= v },
    ensures
        encloses(v, i, scroll, k),
{
}

/// A mask's bounds enclose the quad of every glyph of the mask as it appears on screen,
/// at its origin plus the scroll, with half a pixel around it; and they enclose no more:
/// each edge is half a pixel from an edge of some glyph's quad. This is up to rounding,
/// which is a millionth part of the coordinates.
pub proof fn law_masks_enclose_their_glyphs(instances: Seq<GlyphInstance>, scroll: Seq<F32>, depth: F32, k: int)
    requires
        0 <= k < 4,
        bounds_at(instances, scroll, depth, instances.len() as int) is Some,
        forall|i: int|
            0 <= i < instances.len() && (#[trigger] instances[i]).depth == depth ==> moderate_quad(instances[i], scroll),
    ensures
        ({
            let v = (bounds_at(instances, scroll, depth, instances.len() as int)->0)@[k].value();
            &&& forall|i: int|
                0 <= i < instances.len() && (#[trigger] instances[i]).depth == depth ==> encloses(
                    v,
                    instances[i],
                    scroll,
                    k,
                )
            &&& outlines_some(instances, scroll, depth, k, v)
        }),
{
    let n = instances.len() as int;
    let b = (bounds_at(instances, scroll, depth, n)->0)@;
    let v = b[k].value();
    lemma_bounds_are_hull(instances, scroll, depth, n);
    assert forall|i: int| 0 <= i < n && (#[trigger] instances[i]).depth == depth implies encloses(
        v,
        instances[i],
        scroll,
        k,
    ) by {
        lemma_rect_outlines(instances[i], scroll, k);
        lemma_further_out(v, mask_rect(instances[i], scroll)@[k].value(), instances[i], scroll, k);
    }
    assert(attained(instances, scroll, depth, n, k, v));
    let i = choose|i: int|
        0 <= i < n && #[trigger] instances[i].depth == depth && v == mask_rect(instances[i], scroll)@[k].value();
    lemma_rect_outlines(instances[i], scroll, k);
    assert(outlines(v, instances[i], scroll, k));
}

/// Scrolling moves a mask's bounds by as much, up to rounding: if all coordinates are at
/// most `reach` in size, by no more than a few millionths of it.
pub proof fn law_scrolling_moves_masks(
    instances: Seq<GlyphInstance>,
    scroll: Seq<F32>,
    other: Seq<F32>,
    depth: F32,
    reach: int,
    k: int,
)
    requires
        0 <= k < 4,
        bounds_at(instances, scroll, depth, instances.len() as int) is Some,
        bounds_at(instances, other, depth, instances.len() as int) is Some,
        forall|i: int|
            0 <= i < instances.len() && (#[trigger] instances[i]).depth == depth ==> moderate_quad(instances[i], scroll)
                && moderate_quad(instances[i], other) && edge_slack(instances[i], scroll, k) <= reach && edge_slack(
                instances[i],
                other,
                k,
            ) <= reach,
    ensures
        ({
            let a = (bounds_at(instances, scroll, depth, instances.len() as int)->0)@[k].value();
            let b = (bounds_at(instances, other, depth, instances.len() as int)->0)@[k].value();
            near_place(b - a, other[k % 2].value() - scroll[k % 2].value(), 2 * reach)
        }),
{
    law_masks_enclose_their_glyphs(instances, scroll, depth, k);
    law_masks_enclose_their_glyphs(instances, other, depth, k);
    let n = instances.len() as int;
    let a = (bounds_at(instances, scroll, depth, n)->0)@[k].value();
    let b = (bounds_at(instances, other, depth, n)->0)@[k].value();
    let i = choose|i: int|
        0 <= i < n && instances[i].depth == depth && #[trigger] outlines(a, instances[i], scroll, k);
    let j = choose|j: int| 0 <= j < n && instances[j].depth == depth && #[trigger] outlines(b, instances[j], other, k);
    assert(encloses(b, instances[i], other, k) && encloses(a, instances[j], scroll, k));
    lemma_scrolled(a, b, instances[i], instances[j], scroll, other, reach, k);
}

proof fn lemma_scrolled(
    a: int,
    b: int,
    i: GlyphInstance,
    j: GlyphInstance,
    scroll: Seq<F32>,
    other: Seq<F32>,
    reach: int,
    k: int,
)
    requires
        0 <= k < 4,
        outlines(a, i, scroll, k),
        outlines(b, j, other, k),
        encloses(b, i, other, k),
        encloses(a, j, scroll, k),
        edge_slack(i, scroll, k) <= reach,
        edge_slack(i, other, k) <= reach,
        edge_slack(j, scroll, k) <= reach,
        edge_slack(j, other, k) <= reach,
    ensures
        near_place(b - a, other[k % 2].value() - scroll[k % 2].value(), 2 * reach),
{
    let d = other[k % 2].value() - scroll[k % 2].value();
    assert(edge_on_screen(i, other, k) - edge_on_screen(i, scroll, k) == d);
    assert(edge_on_screen(j, other, k) - edge_on_screen(j, scroll, k) == d);
}

}
