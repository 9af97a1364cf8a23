//! How much border data allows for.
use vstd::prelude::*;
use vstd::arithmetic::power2::{lemma_pow2_pos, pow2};
use crate::float32::{
    F32, HALF_BITS, abs_int, f_add, f_div, f_le, f_max, f_mul, lemma_magnitude_monotone, lemma_magnitude_nonneg,
    lemma_order_is_value_order, lemma_product_error, lemma_quotient_error, lemma_sum_error, magnitude,
};
use crate::text_renderer::capacity::{BorderUse, MIN_POSITIVE_BITS, units_of, widest};
use crate::text_renderer::masks::{lemma_bounds_of_size, lemma_finite_sum, lemma_moderate_value, moderate};
use crate::types::PhysicalDecoration;

verus! {

/// A use of a size that a screen can show: at least one pixel around a glyph of a positive
/// size, in a font of at least one unit per em.
pub open spec fn ordinary_use(b: BorderUse) -> bool {
    &&& moderate(b.ppem) && moderate(b.radius_px) && moderate(b.units_per_em)
    &&& f_le(F32 { bits: MIN_POSITIVE_BITS }, b.ppem)
    &&& b.radius_px.value() >= pow2(149)
    &&& b.units_per_em.value() >= pow2(149)
    &&& units_of(b).finite()
}

/// Scaled back to pixels at the size of its use, the distance in font units is the
/// distance in pixels, up to rounding: the distance is to the em of the font as the
/// pixels are to the size.
pub proof fn law_distances_scale_with_the_size(b: BorderUse)
    requires
        ordinary_use(b),
    ensures
        ({
            let there = units_of(b).value() * b.ppem.value();
            let here = b.radius_px.value() * b.units_per_em.value();
            &&& (there - here) * 0x10_0000 <= here
            &&& (here - there) * 0x10_0000 <= here
        }),
{
    lemma_bounds_of_size();
    lemma_pow2_pos(149);
    lemma_moderate_value(b.ppem);
    lemma_moderate_value(b.radius_px);
    lemma_moderate_value(b.units_per_em);
    let least = F32 { bits: MIN_POSITIVE_BITS };
    let size = f_max(b.ppem, least);
    let p = f_mul(b.radius_px, b.units_per_em);
    assert(size.order() == b.ppem.order());
    assert(size.finite() && size.value() == b.ppem.value()) by {
        lemma_order_is_value_order(size, b.ppem);
    }
    lemma_order_is_value_order(least, b.ppem);
    assert(magnitude(MIN_POSITIVE_BITS as int) > 0) by {
        lemma_magnitude_monotone(0, MIN_POSITIVE_BITS as int);
        lemma_magnitude_nonneg(0);
    }
    assert(p.finite()) by {
        reveal(f_div);
        reveal(f_mul);
    }
    lemma_product_error(b.radius_px, b.units_per_em);
    lemma_quotient_error(p, size);
    lemma_scale(
        b.radius_px.value() * b.units_per_em.value(),
        b.radius_px.value(),
        b.units_per_em.value(),
        p.value(),
        units_of(b).value() * b.ppem.value(),
        b.ppem.value(),
    );
}

proof fn lemma_scale(x: int, s: int, t: int, p: int, there: int, d: int)
    requires
        x == s * t,
        s >= pow2(149),
        t >= pow2(149),
        0 < d <= 0x1000_0000_0000_0000 * pow2(149),
        (p * pow2(149) - x) * 0x80_0000 <= x + 0x80_0000 * pow2(149),
        (x - p * pow2(149)) * 0x80_0000 <= x + 0x80_0000 * pow2(149),
        (there - p * pow2(149)) * 0x80_0000 <= p * pow2(149) + 0x80_0000 * d,
        (p * pow2(149) - there) * 0x80_0000 <= p * pow2(149) + 0x80_0000 * d,
    ensures
        (there - x) * 0x10_0000 <= x,
        (x - there) * 0x10_0000 <= x,
{
    let u = pow2(149) as int;
    lemma_large();
    let y = p * u;
    assert(u * u <= x) by (nonlinear_arith)
        requires
            x == s * t,
            s >= u,
            t >= u,
            u > 0,
    ;
    assert(0x1000_0000_0000_0000_0000_0000 * u <= u * u) by (nonlinear_arith)
        requires
            u >= 0x1000_0000_0000_0000_0000_0000,
    ;
}

proof fn lemma_large()
    ensures
        pow2(149) >= 0x1000_0000_0000_0000_0000_0000,
{
    vstd::arithmetic::power2::lemma2_to64_rest();
    vstd::arithmetic::power2::lemma_pow2_adds(64, 32);
    vstd::arithmetic::power2::lemma2_to64();
    vstd::arithmetic::power2::lemma_pow2_strictly_increases(96, 149);
}

/// The distance that decorations ask for lets every one of them spread as far as it wants,
/// and half a pixel further, up to rounding.
pub proof fn law_widest_allows_every_spread(list: Seq<PhysicalDecoration>, n: int, i: int)
    requires
        0 <= i < n <= list.len(),
        forall|j: int| 0 <= j < n ==> moderate((#[trigger] list[j]).spread),
    ensures
        widest(list, n) is Some,
        ({
            let w = widest(list, n)->0;
            let s = list[i].spread.value();
            w.finite() && (2 * s + pow2(149) - 2 * w.value()) * 0x80_0000 <= 4 * (abs_int(s) + pow2(149))
        }),
    decreases n,
{
    let half = F32 { bits: HALF_BITS };
    lemma_bounds_of_size();
    lemma_moderate_value(list[n - 1].spread);
    lemma_finite_sum(list[n - 1].spread, half);
    lemma_sum_error(list[n - 1].spread, half);
    let reach = f_add(list[n - 1].spread, half);
    if n > 1 {
        law_widest_allows_every_spread(list, n - 1, if i < n - 1 { i } else { 0 });
        let before = widest(list, n - 1)->0;
        lemma_order_is_value_order(before, reach);
    }
}

/// A spread, and half a pixel further, up to rounding.
pub open spec fn reaches(d: PhysicalDecoration, w: F32) -> bool {
    let s = d.spread.value();
    &&& (2 * s + pow2(149) - 2 * w.value()) * 0x80_0000 <= 4 * (abs_int(s) + pow2(149))
    &&& (2 * w.value() - 2 * s - pow2(149)) * 0x80_0000 <= 4 * (abs_int(s) + pow2(149))
}

/// The distance that decorations ask for is what one of them asks for.
pub proof fn law_widest_is_asked_for(list: Seq<PhysicalDecoration>, n: int)
    requires
        0 < n <= list.len(),
        forall|j: int| 0 <= j < n ==> moderate((#[trigger] list[j]).spread),
    ensures
        widest(list, n) is Some,
        exists|i: int| 0 <= i < n && reaches(#[trigger] list[i], widest(list, n)->0),
    decreases n,
{
    let half = F32 { bits: HALF_BITS };
    lemma_bounds_of_size();
    lemma_moderate_value(list[n - 1].spread);
    lemma_finite_sum(list[n - 1].spread, half);
    lemma_sum_error(list[n - 1].spread, half);
    let reach = f_add(list[n - 1].spread, half);
    assert(reaches(list[n - 1], reach));
    if n > 1 {
        law_widest_is_asked_for(list, n - 1);
        let before = widest(list, n - 1)->0;
        let i = choose|i: int| 0 <= i < n - 1 && reaches(#[trigger] list[i], before);
        assert(reaches(list[i], before));
    }
}

}
