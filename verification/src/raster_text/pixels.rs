//! What is uploaded of an image, and which images are seen.
use vstd::prelude::*;
use vstd::arithmetic::div_mod::lemma_fundamental_div_mod;
use vstd::arithmetic::power2::{lemma_pow2_pos, pow2};
use crate::border::bezier::lemma_finite_product;
use crate::float32::{
    F32, abs_int, f_add, f_div, f_from_int, f_le, f_mul, law_small_integers_are_exact, lemma_bounded_quotient,
    lemma_magnitude_nonneg, lemma_order_is_value_order, lemma_product_error, lemma_quotient_error, magnitude, trunc_int,
};
use crate::raster_text::{quad_visible, weighted};
use crate::text_renderer::culling::{about, lemma_about_sum};
use crate::text_renderer::masks::{lemma_bounds_of_size, lemma_moderate_value, moderate};

verus! {

/// A weighted byte is the byte times its alpha over 255, rounded down to a whole byte.
pub proof fn law_weighted_bytes_are_products(v: u8, a: u8)
    ensures
        255 * weighted(v, a) <= v * a,
        v * a <= 255 * weighted(v, a) + 255,
{
    let u = pow2(149) as int;
    lemma_pow2_pos(149);
    lemma_bounds_of_size();
    law_small_integers_are_exact(v as int);
    law_small_integers_are_exact(a as int);
    law_small_integers_are_exact(255);
    let x = f_from_int(v as int);
    let y = f_from_int(a as int);
    let d = f_from_int(255);
    assert(v * u >= 0 && a * u >= 0 && a * u <= 255 * u) by (nonlinear_arith)
        requires
            u > 0,
            0 <= v,
            0 <= a <= 255,
    ;
    lemma_bounded_quotient(y, d);
    lemma_quotient_error(y, d);
    let q = f_div(y, d);
    let qv = q.value();
    // Over the unit.
    let au = a * u;
    assert((255 * qv - au) * 0x80_0000 <= au + 0x80_0000 * 255 && (au - 255 * qv) * 0x80_0000 <= au + 0x80_0000 * 255)
        by (nonlinear_arith)
        requires
            (qv * (255 * u) - au * u) * 0x80_0000 <= au * u + 0x80_0000 * (255 * u),
            (au * u - qv * (255 * u)) * 0x80_0000 <= au * u + 0x80_0000 * (255 * u),
            u > 0,
    ;
    assert(qv <= 2 * u);
    let vu = v * u;
    assert(0 <= vu * qv <= 510 * (u * u)) by (nonlinear_arith)
        requires
            vu == v * u,
            0 <= v <= 255,
            0 <= qv <= 2 * u,
            u > 0,
    ;
    lemma_finite_product(x, q);
    lemma_product_error(x, q);
    let p = f_mul(x, q);
    let pv = p.value();
    let vq = v * qv;
    assert((pv - vq) * 0x80_0000 <= vq + 0x80_0000 && (vq - pv) * 0x80_0000 <= vq + 0x80_0000) by (nonlinear_arith)
        requires
            (pv * u - vu * qv) * 0x80_0000 <= vu * qv + 0x80_0000 * u,
            (vu * qv - pv * u) * 0x80_0000 <= vu * qv + 0x80_0000 * u,
            vu == v * u,
            vq == v * qv,
            u > 0,
    ;
    let va = v * a;
    let vau = va * u;
    // Times the byte.
    assert((255 * vq - vau) * 0x80_0000 <= 255 * (au + 0x80_0000 * 255) && (vau - 255 * vq) * 0x80_0000 <= 255 * (au
        + 0x80_0000 * 255)) by (nonlinear_arith)
        requires
            (255 * qv - au) * 0x80_0000 <= au + 0x80_0000 * 255,
            (au - 255 * qv) * 0x80_0000 <= au + 0x80_0000 * 255,
            0 <= v <= 255,
            au >= 0,
            au == a * u,
            vau == (v * a) * u,
            vq == v * qv,
    ;
    assert(vq <= 510 * u) by (nonlinear_arith)
        requires
            vq == v * qv,
            0 <= v <= 255,
            0 <= qv <= 2 * u,
    ;
    assert(16 * (255 * pv - vau) <= u && 16 * (vau - 255 * pv) <= u);
    let w = pv / u;
    lemma_magnitude_nonneg(p.unsigned());
    lemma_fundamental_div_mod(pv, u);
    lemma_fundamental_div_mod(magnitude(p.unsigned()), u);
    assert(w * u <= pv < w * u + u) by {
        assert(u * w == w * u) by (nonlinear_arith);
    }
    assert(255 * w <= va && va <= 255 * w + 255) by (nonlinear_arith)
        requires
            w * u <= pv < w * u + u,
            16 * (255 * pv - va * u) <= u,
            16 * (va * u - 255 * pv) <= u,
            u > 0,
    ;
    assert(va <= 65025) by (nonlinear_arith)
        requires
            va == v * a,
            0 <= v <= 255,
            0 <= a <= 255,
    ;
    assert(w >= 0) by (nonlinear_arith)
        requires
            w * u + u > pv,
            pv >= 0,
            u > 0,
    ;
    assert(trunc_int(p) == w);
}

/// A quad's place, scroll and size along an axis are moderate, and together at most 2^20
/// pixels.
pub open spec fn image_on_a_screen(at: F32, scroll: F32, length: F32) -> bool {
    &&& moderate(at) && moderate(scroll) && moderate(length)
    &&& abs_int(at.value()) + abs_int(scroll.value()) + abs_int(length.value()) <= 0xf_ffff * pow2(149)
}

/// What an image covers along an axis on screen overlaps the clip, give or take some pixels.
pub open spec fn image_overlaps(at: F32, scroll: F32, length: F32, low: int, high: int, pixels: int) -> bool {
    let u = pow2(149) as int;
    let from = at.value() + scroll.value();
    low * u <= from + length.value() + pixels * u && from - pixels * u <= high * u
}

proof fn lemma_image_axis(at: F32, scroll: F32, length: F32, low: int, high: int)
    requires
        image_on_a_screen(at, scroll, length),
        -0x100_0000 <= low <= 0x100_0000,
        -0x100_0000 <= high <= 0x100_0000,
    ensures
        ({
            let x = f_add(at, scroll);
            let meets = f_le(f_from_int(low), f_add(x, length)) && f_le(x, f_from_int(high));
            &&& x.finite() && f_add(x, length).finite()
            &&& image_overlaps(at, scroll, length, low, high, -1) ==> meets
            &&& meets ==> image_overlaps(at, scroll, length, low, high, 1)
        }),
{
    let u = pow2(149) as int;
    lemma_pow2_pos(149);
    lemma_moderate_value(at);
    lemma_moderate_value(scroll);
    lemma_moderate_value(length);
    law_small_integers_are_exact(low);
    law_small_integers_are_exact(high);
    let reach = 0x10_0000 * u;
    lemma_about_sum(at, at.value(), reach, 0, scroll);
    let x = f_add(at, scroll);
    lemma_about_sum(x, at.value() + scroll.value(), reach, 2, length);
    lemma_order_is_value_order(f_from_int(low), f_add(x, length));
    lemma_order_is_value_order(x, f_from_int(high));
}

/// The image of a glyph is drawn where it can be seen, and hardly anywhere else: one that
/// reaches a pixel into the clip, once it has scrolled, is drawn, and one that is drawn is
/// no more than a pixel away from it.
pub proof fn law_visible_images_are_drawn(rect: Seq<F32>, scroll: Seq<F32>, clip: Seq<i32>)
    requires
        image_on_a_screen(rect[0], scroll[0], rect[2]),
        image_on_a_screen(rect[1], scroll[1], rect[3]),
        forall|i: int| 0 <= i < 4 ==> -0x100_0000 <= #[trigger] clip[i] <= 0x100_0000,
    ensures
        image_overlaps(rect[0], scroll[0], rect[2], clip[0] as int, clip[2] as int, -1) && image_overlaps(
            rect[1],
            scroll[1],
            rect[3],
            clip[1] as int,
            clip[3] as int,
            -1,
        ) ==> quad_visible(rect, scroll, clip),
        quad_visible(rect, scroll, clip) ==> image_overlaps(
            rect[0],
            scroll[0],
            rect[2],
            clip[0] as int,
            clip[2] as int,
            1,
        ) && image_overlaps(rect[1], scroll[1], rect[3], clip[1] as int, clip[3] as int, 1),
{
    assert(-0x100_0000 <= clip[0] <= 0x100_0000 && -0x100_0000 <= clip[1] <= 0x100_0000);
    assert(-0x100_0000 <= clip[2] <= 0x100_0000 && -0x100_0000 <= clip[3] <= 0x100_0000);
    law_small_integers_are_exact(clip[0] as int);
    law_small_integers_are_exact(clip[1] as int);
    law_small_integers_are_exact(clip[2] as int);
    law_small_integers_are_exact(clip[3] as int);
    lemma_image_axis(rect[0], scroll[0], rect[2], clip[0] as int, clip[2] as int);
    lemma_image_axis(rect[1], scroll[1], rect[3], clip[1] as int, clip[3] as int);
}

}
