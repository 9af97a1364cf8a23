//! Which lines of an area are laid out.
use vstd::prelude::*;
use vstd::arithmetic::power2::{lemma_pow2_pos, pow2};
use crate::border::bezier::lemma_finite_product;
use crate::float32::{
    F32, abs_int, f_add, f_from_int, f_le, f_mul, f_sub, law_small_integers_are_exact, lemma_order_is_value_order,
    lemma_signed_product_error,
};
use crate::text_renderer::culling::{about, lemma_about_difference, lemma_about_sum};
use crate::text_renderer::geometry::run_meets;
use crate::text_renderer::masks::{lemma_bounds_of_size, lemma_moderate_value, moderate};
use crate::types::DecorationExtents;

verus! {

/// A line of text: where its area starts, how large and how far scrolled the area is, and
/// where in it the line lies.
pub struct Line {
    pub top: F32,
    pub scale: F32,
    pub scroll: F32,
    pub line_top: F32,
    pub line_height: F32,
}

/// Where a line and what its decorations reach above it start on screen. Places are
/// products of two values.
pub open spec fn line_from(l: Line, e: DecorationExtents) -> int {
    (l.top.value() + l.scroll.value() - e.top.value()) * pow2(149) + l.line_top.value() * l.scale.value()
}

/// Where a line and what its decorations reach below it end on screen.
pub open spec fn line_to(l: Line, e: DecorationExtents) -> int {
    (l.top.value() + l.scroll.value() + e.bottom.value()) * pow2(149) + (l.line_top.value() + l.line_height.value())
        * l.scale.value()
}

/// All of it is of a size that a screen has.
pub open spec fn line_on_a_screen(l: Line, e: DecorationExtents) -> bool {
    let u = pow2(149) as int;
    let reach = abs_int(l.top.value()) + abs_int(l.scroll.value()) + abs_int(e.top.value()) + abs_int(e.bottom.value());
    &&& moderate(l.top) && moderate(l.scroll) && moderate(e.top) && moderate(e.bottom)
    &&& l.line_top.finite() && l.line_height.finite() && l.scale.finite()
    &&& reach <= 0x4_0000 * u
    &&& abs_int(l.line_top.value() * l.scale.value()) <= 0x4_0000 * (u * u)
    &&& abs_int(l.line_height.value() * l.scale.value()) <= 0x4_0000 * (u * u)
}

/// What stands between two places overlaps the rows of pixels, give or take some.
pub open spec fn overlaps_rows(from: int, to: int, low: int, high: int, rows: int) -> bool {
    let uu = (pow2(149) * pow2(149)) as int;
    low * uu <= to + rows * uu && from - rows * uu <= high * uu
}

/// A product, up to rounding.
proof fn lemma_product(a: F32, b: F32)
    requires
        a.finite(),
        b.finite(),
        abs_int(a.value() * b.value()) <= 0x4_0000 * (pow2(149) * pow2(149)),
    ensures
        ({
            let u = pow2(149) as int;
            let t = f_mul(a, b).value();
            &&& f_mul(a, b).finite()
            &&& abs_int(t) <= 0x5_0000 * u
            &&& (t * u - a.value() * b.value()) * 16 <= u * u
            &&& (a.value() * b.value() - t * u) * 16 <= u * u
        }),
{
    let u = pow2(149) as int;
    lemma_pow2_pos(149);
    lemma_bounds_of_size();
    lemma_finite_product(a, b);
    lemma_signed_product_error(a, b);
    let uu = u * u;
    assert(0x80_0000 * u * 0x100 <= uu) by (nonlinear_arith)
        requires
            u >= 0x100_0000_0000,
            uu == u * u,
    ;
    let t = f_mul(a, b).value();
    let tu = t * u;
    assert(-0x5_0000 * uu <= tu <= 0x5_0000 * uu);
    assert(-0x5_0000 * u <= t <= 0x5_0000 * u) by (nonlinear_arith)
        requires
            tu == t * u,
            uu == u * u,
            -0x5_0000 * uu <= tu <= 0x5_0000 * uu,
            u > 0,
    ;
}

/// Where the line starts and ends, as computed.
proof fn lemma_sides(top: F32, t: F32, scroll: F32, h: F32, before: F32, behind: F32)
    requires
        moderate(top) && moderate(scroll) && moderate(before) && moderate(behind),
        t.finite(),
        h.finite(),
        abs_int(t.value()) <= 0x5_0000 * pow2(149),
        abs_int(h.value()) <= 0x5_0000 * pow2(149),
        abs_int(top.value()) + abs_int(scroll.value()) + abs_int(before.value()) + abs_int(behind.value()) <= 0x4_0000
            * pow2(149),
    ensures
        ({
            let start = f_add(f_add(top, t), scroll);
            let reach = 0xe_0000 * (pow2(149) as int);
            let at = top.value() + t.value() + scroll.value();
            &&& about(f_sub(start, before), at - before.value(), reach, 6)
            &&& about(f_add(f_add(start, h), behind), at + h.value() + behind.value(), reach, 8)
        }),
{
    lemma_pow2_pos(149);
    lemma_moderate_value(top);
    lemma_moderate_value(scroll);
    lemma_moderate_value(before);
    lemma_moderate_value(behind);
    let reach = 0xe_0000 * (pow2(149) as int);
    let start = f_add(f_add(top, t), scroll);
    lemma_about_sum(top, top.value(), reach, 0, t);
    lemma_about_sum(f_add(top, t), top.value() + t.value(), reach, 2, scroll);
    let at = top.value() + t.value() + scroll.value();
    lemma_about_difference(start, at, reach, 4, before);
    lemma_about_sum(start, at, reach, 4, h);
    lemma_about_sum(f_add(start, h), at + h.value(), reach, 6, behind);
}

/// A computed place against a row of pixels.
proof fn lemma_row(v: int, exact: int, product: int, at: int, place: int, row: int)
    requires
        (v - exact) * 0x80_0000 <= 8 * (0xe_0000 * pow2(149)),
        (exact - v) * 0x80_0000 <= 8 * (0xe_0000 * pow2(149)),
        exact == at + product,
        (product * pow2(149) - (place - at * pow2(149))) * 8 <= pow2(149) * pow2(149),
        ((place - at * pow2(149)) - product * pow2(149)) * 8 <= pow2(149) * pow2(149),
    ensures
        v <= row * pow2(149) ==> place - pow2(149) * pow2(149) <= row * (pow2(149) * pow2(149)),
        v >= row * pow2(149) ==> place + pow2(149) * pow2(149) >= row * (pow2(149) * pow2(149)),
        place + pow2(149) * pow2(149) <= row * (pow2(149) * pow2(149)) ==> v <= row * pow2(149),
        place - pow2(149) * pow2(149) >= row * (pow2(149) * pow2(149)) ==> v >= row * pow2(149),
{
    let u = pow2(149) as int;
    lemma_pow2_pos(149);
    let uu = u * u;
    let vu = v * u;
    let ru = row * u;
    let xu = exact * u;
    // In pixels, the computed place is within seven eighths of the exact one.
    let gap = v - exact;
    assert(vu == xu + gap * u) by (nonlinear_arith)
        requires
            vu == v * u,
            xu == exact * u,
            gap == v - exact,
    ;
    assert(-7 * uu <= 8 * (gap * u) <= 7 * uu) by (nonlinear_arith)
        requires
            -7 * u <= 8 * gap <= 7 * u,
            uu == u * u,
            u > 0,
    ;
    assert(xu == at * u + product * u) by (nonlinear_arith)
        requires
            xu == exact * u,
            exact == at + product,
    ;
    assert(ru * u == row * uu) by (nonlinear_arith)
        requires
            ru == row * u,
            uu == u * u,
    ;
    assert((v <= ru) == (v * u <= ru * u)) by (nonlinear_arith)
        requires
            u > 0,
    ;
    assert((v >= ru) == (v * u >= ru * u)) by (nonlinear_arith)
        requires
            u > 0,
    ;
}

/// A line is laid out where it is visible, and hardly anywhere else: one that reaches a
/// row of pixels into the bounds, with what its decorations reach above and below it, is
/// laid out, and one that is laid out is no more than one row away from them.
pub proof fn law_visible_lines_are_laid_out(l: Line, e: DecorationExtents, min_y: i32, max_y: i32)
    requires
        line_on_a_screen(l, e),
        -0x100_0000 <= min_y <= 0x100_0000,
        -0x100_0000 <= max_y <= 0x100_0000,
    ensures
        ({
            let meets = run_meets(l.top, l.scale, l.scroll, l.line_top, l.line_height, min_y, max_y, e);
            let from = line_from(l, e);
            let to = line_to(l, e);
            &&& overlaps_rows(from, to, min_y as int, max_y as int, -1) ==> meets
            &&& meets ==> overlaps_rows(from, to, min_y as int, max_y as int, 1)
        }),
{
    let u = pow2(149) as int;
    lemma_pow2_pos(149);
    let t = f_mul(l.line_top, l.scale);
    let h = f_mul(l.line_height, l.scale);
    lemma_product(l.line_top, l.scale);
    lemma_product(l.line_height, l.scale);
    lemma_sides(l.top, t, l.scroll, h, e.top, e.bottom);
    law_small_integers_are_exact(min_y as int);
    law_small_integers_are_exact(max_y as int);
    let start = f_add(f_add(l.top, t), l.scroll);
    let near = f_sub(start, e.top);
    let far = f_add(f_add(start, h), e.bottom);
    lemma_order_is_value_order(near, f_from_int(max_y as int));
    lemma_order_is_value_order(f_from_int(min_y as int), far);
    let (x, y, s) = (l.line_top.value(), l.line_height.value(), l.scale.value());
    assert((x + y) * s == x * s + y * s) by (nonlinear_arith);
    assert((t.value() + h.value()) * u == t.value() * u + h.value() * u) by (nonlinear_arith);
    let above = l.top.value() + l.scroll.value() - e.top.value();
    let below = l.top.value() + l.scroll.value() + e.bottom.value();
    lemma_row(near.value(), above + t.value(), t.value(), above, line_from(l, e), max_y as int);
    lemma_row(
        far.value(),
        below + t.value() + h.value(),
        t.value() + h.value(),
        below,
        line_to(l, e),
        min_y as int,
    );
}

}
