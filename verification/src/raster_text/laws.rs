//! Where the images of glyphs are drawn, and from where.
use vstd::prelude::*;
use vstd::arithmetic::power2::{lemma_pow2_pos, pow2};
use crate::float32::{
    F32, abs_int, f_div, f_from_int, f_mul, law_small_integers_are_exact, lemma_quotient_error,
    lemma_signed_product_error,
};
use crate::raster_text::atlas::{OpModel, Pass, VertexModel, line_of, vertex_color};
use crate::raster_text::{ImageContent, NonVectorGlyph, RasterImage};

verus! {

/// An image of ordinary size, placed near its glyph.
pub open spec fn ordinary_image(image: RasterImage) -> bool {
    &&& 0 < image.width < 0x1_0000
    &&& 0 < image.height < 0x1_0000
    &&& -0x8000 <= image.left < 0x8000
    &&& -0x8000 <= image.top < 0x8000
}

/// A glyph that is placed within some million pixels of the origin.
pub open spec fn ordinary_glyph(g: NonVectorGlyph) -> bool {
    &&& -0x7f_0000 <= g.physical.x <= 0x7f_0000
    &&& -0x7f_0000 <= line_of(g) + g.physical.y <= 0x7f_0000
}

/// A value is a whole number of pixels.
pub open spec fn is_whole(v: F32, n: int) -> bool {
    v.finite() && v.value() == n * pow2(149)
}

/// A value is a number of texels over the atlas's size, up to rounding.
pub open spec fn is_part(v: F32, n: int, size: int) -> bool {
    let u = pow2(149) as int;
    &&& v.finite()
    &&& (v.value() * size - n * u) * 0x80_0000 <= n * u + 0x80_0000 * size
    &&& (n * u - v.value() * size) * 0x80_0000 <= n * u + 0x80_0000 * size
}

/// A quad draws an image of a glyph that stands at a spot of the atlas: on screen its
/// corner is the glyph's pixel, moved right by the image's left bearing and up by its top
/// bearing from the line, its size is the image's in pixels, and it reads the atlas at the
/// spot, over the image's size.
pub open spec fn draws_image(v: VertexModel, g: NonVectorGlyph, image: RasterImage, spot: (int, int), size: int) -> bool {
    &&& is_whole(v.screen_pos[0], g.physical.x + image.left)
    &&& is_whole(v.screen_pos[1], line_of(g) + g.physical.y - image.top)
    &&& is_whole(v.screen_size[0], image.width as int)
    &&& is_whole(v.screen_size[1], image.height as int)
    &&& is_part(v.atlas_pos[0], spot.0, size)
    &&& is_part(v.atlas_pos[1], spot.1, size)
    &&& is_part(v.atlas_size[0], image.width as int, size)
    &&& is_part(v.atlas_size[1], image.height as int, size)
    &&& v.depth == g.depth
}

proof fn lemma_part(n: int, size: int)
    requires
        0 <= n <= 0xffff,
        1 <= size <= 0x100_0000,
    ensures
        is_part(f_div(f_from_int(n), f_from_int(size)), n, size),
{
    let u = pow2(149) as int;
    lemma_pow2_pos(149);
    let a = f_from_int(n);
    let b = f_from_int(size);
    law_small_integers_are_exact(n);
    law_small_integers_are_exact(size);
    let av = a.value();
    let bv = b.value();
    assert(av == n * u && bv == size * u);
    assert(av >= 0 && bv >= u && av <= 0xffff * bv) by (nonlinear_arith)
        requires
            av == n * u,
            bv == size * u,
            0 <= n <= 0xffff,
            size >= 1,
            u > 0,
    ;
    lemma_quotient_is_finite(a, b);
    lemma_quotient_error(a, b);
    let v = f_div(a, b).value();
    let vs = v * size;
    assert(v * bv == vs * u) by (nonlinear_arith)
        requires
            bv == size * u,
            vs == v * size,
    ;
    let nu = n * u;
    assert((vs - nu) * 0x80_0000 <= nu + 0x80_0000 * size && (nu - vs) * 0x80_0000 <= nu + 0x80_0000 * size) by (nonlinear_arith)
        requires
            (vs * u - nu * u) * 0x80_0000 <= nu * u + 0x80_0000 * (size * u),
            (nu * u - vs * u) * 0x80_0000 <= nu * u + 0x80_0000 * (size * u),
            u > 0,
    ;
}

proof fn lemma_quotient_is_finite(a: F32, b: F32)
    requires
        a.finite(),
        b.finite(),
        a.value() >= 0,
        b.value() >= pow2(149),
        a.value() <= 0xffff * b.value(),
    ensures
        f_div(a, b).finite(),
{
    lemma_pow2_pos(149);
    crate::float32::lemma_bounded_quotient(a, b);
}

/// An image that is entered for a glyph is written to the spot that its quad reads, and
/// drawn where the glyph is.
pub proof fn law_images_are_drawn_where_they_were_written(p: Pass, g: NonVectorGlyph, image: RasterImage, scroll: Seq<F32>, limit: int)
    requires
        !p.atlas.cached.contains_key(g.physical.image),
        p.has_room(image),
        ordinary_image(image),
        ordinary_glyph(g),
        0 <= p.atlas.packer.spot(image.width as int).0 < 0x1_0000,
        0 <= p.atlas.packer.spot(image.width as int).1 < 0x1_0000,
        1 <= p.atlas.size <= 0x100_0000,
        p.placed(g, Some(image), scroll, limit).vertices.len() > p.vertices.len(),
    ensures
        ({
            let after = p.placed(g, Some(image), scroll, limit);
            let spot = p.atlas.packer.spot(image.width as int);
            &&& after.vertices == p.vertices.push(after.vertices.last())
            &&& draws_image(after.vertices.last(), g, image, spot, p.atlas.size)
            &&& after.ops == p.ops.push(after.ops.last())
            &&& after.ops.last() == (OpModel::Write { x: spot.0 as u16, y: spot.1 as u16, image })
        }),
{
    let spot = p.atlas.packer.spot(image.width as int);
    let size = p.atlas.size;
    law_small_integers_are_exact(g.physical.x + image.left);
    law_small_integers_are_exact(line_of(g) + g.physical.y - image.top);
    law_small_integers_are_exact(image.width as int);
    law_small_integers_are_exact(image.height as int);
    lemma_part(spot.0, size);
    lemma_part(spot.1, size);
    lemma_part(image.width as int, size);
    lemma_part(image.height as int, size);
}

/// The color of a quad. A mask is painted in its glyph's color, whose channels are
/// weighted by alpha; an image in color is only made as transparent as the glyph.
pub proof fn law_quads_are_premultiplied(color: Seq<F32>, is_color: bool, k: int)
    requires
        color.len() == 4,
        0 <= k < 3,
        color[0].finite() && color[1].finite() && color[2].finite() && color[3].finite(),
        f_mul(color[k], color[3]).finite(),
    ensures
        ({
            let v = vertex_color(color, is_color);
            let u = pow2(149) as int;
            let x = color[k].value() * color[3].value();
            &&& v[3] == color[3]
            &&& if is_color {
                v[k] == color[3]
            } else {
                &&& (v[k].value() * u - x) * 0x80_0000 <= abs_int(x) + 0x80_0000 * u
                &&& (x - v[k].value() * u) * 0x80_0000 <= abs_int(x) + 0x80_0000 * u
            }
        }),
{
    lemma_signed_product_error(color[k], color[3]);
}

}
