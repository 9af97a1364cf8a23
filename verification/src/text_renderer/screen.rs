//! What is seen of an area, and how its scale enlarges its decorations.
use vstd::prelude::*;
use vstd::arithmetic::power2::pow2;
use crate::float32::{F32, abs_int, f_eq, f_mul, lemma_signed_product_error};
use crate::text_renderer::geometry::clipped;
use crate::types::{DecorationMode, Resolution, TextBounds, TextDecoration, blurs, drawable, fault, physical_of};

verus! {

/// A pixel is seen through an area's clip exactly where it lies in the area's bounds and
/// on the target.
pub proof fn law_clips_show_what_is_in_both(bounds: TextBounds, resolution: Resolution, x: int, y: int)
    requires
        resolution.width <= i32::MAX,
        resolution.height <= i32::MAX,
    ensures
        ({
            let c = clipped(bounds, resolution);
            let seen = c[0] <= x < c[2] && c[1] <= y < c[3];
            let inside = bounds.left <= x < bounds.right && bounds.top <= y < bounds.bottom;
            let on_target = 0 <= x < resolution.width && 0 <= y < resolution.height;
            seen <==> inside && on_target
        }),
{
}

/// A value is another one times a scale, up to rounding.
pub open spec fn scaled_by(v: F32, from: F32, scale: F32) -> bool {
    let x = from.value() * scale.value();
    let u = pow2(149) as int;
    &&& (v.value() * u - x) * 0x80_0000 <= abs_int(x) + 0x80_0000 * u
    &&& (x - v.value() * u) * 0x80_0000 <= abs_int(x) + 0x80_0000 * u
}

/// In physical pixels, a decoration is as much larger as its area's scale says, in every
/// length that it has.
pub proof fn law_decorations_scale_with_their_area(d: TextDecoration, scale: F32)
    requires
        d.spread.finite() && d.blur.finite() && d.offset@[0].finite() && d.offset@[1].finite() && scale.finite(),
        ({
            let p = physical_of(d, scale);
            p.spread.finite() && p.blur.finite() && p.offset@[0].finite() && p.offset@[1].finite()
        }),
    ensures
        ({
            let p = physical_of(d, scale);
            &&& scaled_by(p.spread, d.spread, scale)
            &&& scaled_by(p.blur, d.blur, scale)
            &&& scaled_by(p.offset@[0], d.offset@[0], scale)
            &&& scaled_by(p.offset@[1], d.offset@[1], scale)
            &&& p.mode == d.mode
        }),
{
    lemma_signed_product_error(d.spread, scale);
    lemma_signed_product_error(d.blur, scale);
    lemma_signed_product_error(d.offset@[0], scale);
    lemma_signed_product_error(d.offset@[1], scale);
}

/// A list of decorations can be drawn exactly where a ring comes first and sharp or not at
/// all, and nothing is both blurred and spread.
pub proof fn law_drawable_lists(list: Seq<TextDecoration>)
    ensures
        drawable(list) <==> {
            &&& forall|i: int| 0 < i < list.len() ==> (#[trigger] list[i]).mode != DecorationMode::Ring
            &&& list.len() > 0 && list[0].mode == DecorationMode::Ring ==> !blurs(list[0].blur)
            &&& forall|i: int|
                0 <= i < list.len() && blurs((#[trigger] list[i]).blur) ==> f_eq(list[i].spread, F32 { bits: 0 })
        },
{
    if drawable(list) {
        assert forall|i: int| 0 < i < list.len() implies (#[trigger] list[i]).mode != DecorationMode::Ring by {
            assert(fault(list, i) is None);
        }
        if list.len() > 0 {
            assert(fault(list, 0) is None);
        }
        assert forall|i: int| 0 <= i < list.len() && blurs((#[trigger] list[i]).blur) implies f_eq(
            list[i].spread,
            F32 { bits: 0 },
        ) by {
            assert(fault(list, i) is None);
        }
    } else {
        let i = choose|i: int| 0 <= i < list.len() && (#[trigger] fault(list, i)) is Some;
        assert(0 <= i < list.len() && fault(list, i) is Some);
        assert(list[i] == list[i]);
    }
}

}
