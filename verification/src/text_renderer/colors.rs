//! What colors mean.
use vstd::prelude::*;
use vstd::arithmetic::power2::{lemma_pow2_pos, pow2};
use crate::float32::{
    F32, f_div, f_from_int, law_small_integers_are_exact, lemma_magnitude_nonneg, lemma_quotient_error,
    lemma_rounding_passes_no_pattern, magnitude,
};
use crate::text_renderer::emit::{AreaContext, Emitted, WorkItem};
use crate::text_atlas::AtlasState;
use crate::glyph_cache::{COLOR_VECTOR_OFFSET, ColorGlyphLayer, NON_VECTOR_OFFSET};
use crate::types::{PhysicalDecoration, TextDecoration, channels, physical_of};

verus! {

/// A value is a byte over 255, up to rounding.
pub open spec fn is_fraction(v: F32, byte: int) -> bool {
    let u = pow2(149) as int;
    &&& v.finite()
    &&& (255 * v.value() - byte * u) * 0x10_0000 <= byte * u + 0x80_0000_0000
    &&& (byte * u - 255 * v.value()) * 0x10_0000 <= byte * u + 0x80_0000_0000
}

/// Four values are the red, green, blue and alpha of an `0xAARRGGBB` color.
pub open spec fn shows_color(rgba: Seq<F32>, c: u32) -> bool {
    &&& rgba.len() == 4
    &&& is_fraction(rgba[0], c as int / 0x1_0000 % 0x100)
    &&& is_fraction(rgba[1], c as int / 0x100 % 0x100)
    &&& is_fraction(rgba[2], c as int % 0x100)
    &&& is_fraction(rgba[3], c as int / 0x100_0000 % 0x100)
}

proof fn lemma_fraction(byte: int)
    requires
        0 <= byte <= 255,
    ensures
        is_fraction(f_div(f_from_int(byte), f_from_int(255)), byte),
{
    let u = pow2(149) as int;
    lemma_pow2_pos(149);
    let a = f_from_int(byte);
    let b = f_from_int(255);
    law_small_integers_are_exact(byte);
    law_small_integers_are_exact(255);
    let av = a.value();
    let bv = b.value();
    assert(av == byte * u && bv == 255 * u);
    assert(av >= 0 && av <= bv) by (nonlinear_arith)
        requires
            av == byte * u,
            bv == 255 * u,
            0 <= byte <= 255,
            u > 0,
    ;
    let q = f_div(a, b);
    lemma_magnitude_nonneg(a.unsigned());
    lemma_magnitude_nonneg(b.unsigned());
    assert(magnitude(0) == 0);
    assert(q.finite()) by {
        crate::float32::lemma_order_is_value_order(a, b);
        crate::float32::lemma_small_quotient(a, b);
    }
    lemma_quotient_error(a, b);
    let v = q.value();
    // Divide by the unit.
    assert((255 * v - byte * u) * 0x80_0000 <= byte * u + 0x80_0000 * 255) by (nonlinear_arith)
        requires
            (v * bv - av * u) * 0x80_0000 <= av * u + 0x80_0000 * bv,
            av == byte * u,
            bv == 255 * u,
            u > 0,
    ;
    assert((byte * u - 255 * v) * 0x80_0000 <= byte * u + 0x80_0000 * 255) by (nonlinear_arith)
        requires
            (av * u - v * bv) * 0x80_0000 <= av * u + 0x80_0000 * bv,
            av == byte * u,
            bv == 255 * u,
            u > 0,
    ;
    assert(byte * u >= 0) by (nonlinear_arith)
        requires
            byte >= 0,
            u > 0,
    ;
}

/// A color's channels are its bytes: red, green, blue and then alpha, each over 255.
pub proof fn law_channels_are_bytes(c: u32)
    ensures
        shows_color(channels(c)@, c),
{
    lemma_fraction(c as int / 0x1_0000 % 0x100);
    lemma_fraction(c as int / 0x100 % 0x100);
    lemma_fraction(c as int % 0x100);
    lemma_fraction(c as int / 0x100_0000);
}

/// A decoration is painted in its own color.
pub proof fn law_decorations_keep_their_color(d: TextDecoration, scale: F32)
    ensures
        shows_color(physical_of(d, scale).color@, d.color),
        physical_of(d, scale).mode == d.mode,
{
    law_channels_are_bytes(d.color);
}

/// A glyph is drawn in its own color, or in that of its area if it has none.
pub proof fn law_instances_show_their_color(e: Emitted, ctx: AreaContext, item: WorkItem, atlas: AtlasState)
    requires
        ({
            let entry = atlas.glyphs[item.glyph.key.id()];
            let after = e.with_item(ctx, item, atlas);
            &&& entry.glyph_offset != NON_VECTOR_OFFSET
            &&& entry.glyph_offset != COLOR_VECTOR_OFFSET
            &&& after.instances.len() > e.instances.len()
        }),
    ensures
        shows_color(
            e.with_item(ctx, item, atlas).instances.last().color@,
            match item.glyph.color {
                Some(c) => c,
                None => ctx.default_color,
            },
        ),
{
    reveal(Emitted::with_commands);
    reveal(Emitted::with_outline);
    law_channels_are_bytes(ctx.default_color);
    if let Some(c) = item.glyph.color {
        law_channels_are_bytes(c);
    }
}

/// An image is drawn in the color of its glyph, at the glyph's depth and place.
pub proof fn law_images_show_their_color(e: Emitted, ctx: AreaContext, item: WorkItem, atlas: AtlasState)
    requires
        atlas.glyphs[item.glyph.key.id()].glyph_offset == NON_VECTOR_OFFSET,
    ensures
        ({
            let after = e.with_item(ctx, item, atlas);
            let r = after.raster.last();
            &&& after.instances == e.instances
            &&& after.raster == e.raster.push(r)
            &&& r.physical == item.glyph.physical
            &&& r.depth == item.glyph.depth
            &&& r.clip_bounds == ctx.clip
            &&& shows_color(
                r.color@,
                match item.glyph.color {
                    Some(c) => c,
                    None => ctx.default_color,
                },
            )
        }),
{
    law_channels_are_bytes(ctx.default_color);
    if let Some(c) = item.glyph.color {
        law_channels_are_bytes(c);
    }
}

/// A layer is drawn in its own color, or in that of the text where it asks for it.
pub proof fn law_layers_show_their_color(e: Emitted, ctx: AreaContext, item: WorkItem, layer: ColorGlyphLayer, units: F32)
    requires
        e.with_layer(ctx, item, layer, units).instances.len() > e.instances.len(),
    ensures
        ({
            let i = e.with_layer(ctx, item, layer, units).instances.last();
            if layer.use_foreground {
                shows_color(
                    i.color@,
                    match item.glyph.color {
                        Some(c) => c,
                        None => ctx.default_color,
                    },
                )
            } else {
                i.color == layer.color
            }
        }),
{
    reveal(Emitted::with_layer);
    law_channels_are_bytes(ctx.default_color);
    if let Some(c) = item.glyph.color {
        law_channels_are_bytes(c);
    }
}

}
