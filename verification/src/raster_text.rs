//! Raster fallback for glyphs without outlines: emoji and bitmap fonts.
use vstd::prelude::*;
use vstd::arithmetic::power::pow;
use crate::float32::{F32, f_add, f_mul, f_div, f_lt, f_from_int, saturate, trunc_int};
use crate::wide::{at_most, scaled_by_power, wide};

pub mod atlas;
pub mod laws;
pub mod packer;
pub mod pixels;

verus! {

/// What one instance of a raster quad reads.
#[derive(Clone, Copy, Debug)]
pub struct RasterVertex {
    pub screen_pos: [F32; 2],
    pub screen_size: [F32; 2],
    pub atlas_pos: [F32; 2],
    pub atlas_size: [F32; 2],
    pub color: [F32; 4],
    pub depth: F32,
}

/// A glyph snapped to the pixel grid.
#[derive(Clone, Copy, Debug)]
pub struct PhysicalGlyph {
    /// Identity of the glyph's image (see [`ImageKey`]).
    pub image: u128,
    pub x: i32,
    pub y: i32,
}

/// What the image of a glyph depends on: font, glyph, size and subpixel position.
#[derive(Clone, Copy, Debug, PartialEq, Eq, Structural)]
pub struct ImageKey {
    /// The font's number.
    pub font: u32,
    pub glyph_id: u16,
    /// The pattern of the font's size.
    pub font_size_bits: u32,
    pub font_weight: u16,
    /// Quarters of a pixel to the right and down.
    pub x_bin: u8,
    pub y_bin: u8,
    pub flags: u32,
}

impl ImageKey {
    /// The key fits one integer.
    pub open spec fn wf(self) -> bool {
        self.x_bin < 4 && self.y_bin < 4 && self.flags < 0x1000_0000
    }

    /// The key as one integer.
    pub open spec fn id(self) -> u128 {
        (self.font + 0x1_0000_0000 * (self.font_size_bits + 0x1_0000_0000 * (self.glyph_id + 0x1_0000 * (self.font_weight
            + 0x1_0000 * (self.x_bin + 4 * (self.y_bin + 4 * self.flags)))))) as u128
    }

    /// Whether the key fits one integer.
    pub fn is_packable(self) -> (r: bool)
        ensures
            r == self.wf(),
    {
        self.x_bin < 4 && self.y_bin < 4 && self.flags < 0x1000_0000
    }

    /// The key as one integer.
    pub fn packed(self) -> (r: u128)
        requires
            self.wf(),
        ensures
            r == self.id(),
    {
        self.font as u128 + 0x1_0000_0000 * (self.font_size_bits as u128 + 0x1_0000_0000 * (self.glyph_id as u128
            + 0x1_0000 * (self.font_weight as u128 + 0x1_0000 * (self.x_bin as u128 + 4 * (self.y_bin as u128 + 4
            * self.flags as u128)))))
    }

    /// The key that an integer stands for.
    pub fn unpacked(id: u128) -> (r: ImageKey)
        ensures
            r.wf(),
            r.id() == id,
    {
        let rest: u128 = id / 0x1_0000_0000;
        let glyph: u128 = rest / 0x1_0000_0000;
        let weight: u128 = glyph / 0x1_0000;
        let bins: u128 = weight / 0x1_0000;
        ImageKey {
            font: (id % 0x1_0000_0000) as u32,
            glyph_id: (glyph % 0x1_0000) as u16,
            font_size_bits: (rest % 0x1_0000_0000) as u32,
            font_weight: (weight % 0x1_0000) as u16,
            x_bin: (bins % 4) as u8,
            y_bin: (bins / 4 % 4) as u8,
            flags: (bins / 16) as u32,
        }
    }
}

/// Different images have different ids.
pub proof fn law_image_ids_are_distinct(a: ImageKey, b: ImageKey)
    requires
        a.wf(),
        b.wf(),
    ensures
        a.id() == b.id() <==> a == b,
{
}

/// A glyph that is drawn from its image.
#[derive(Clone, Copy, Debug)]
pub struct NonVectorGlyph {
    pub physical: PhysicalGlyph,
    pub color: [F32; 4],
    pub depth: F32,
    pub line_y_scaled_rounded: F32,
    /// Left, top, right and bottom of the visible part of the screen.
    pub clip_bounds: [i32; 4],
}

/// What the bytes of an image are.
#[derive(Clone, Copy, Debug, PartialEq, Eq, Structural)]
pub enum ImageContent {
    /// One byte of coverage per entry.
    Mask,
    /// Four bytes of color per pixel: red, green, blue, alpha.
    Color,
}

/// A rasterized glyph.
#[derive(Debug)]
pub struct RasterImage {
    pub left: i32,
    pub top: i32,
    pub width: u32,
    pub height: u32,
    pub content: ImageContent,
    pub data: Vec<u8>,
}

/// The sRGB encoding of the linear byte `v` reaches `s - 1/2`. In fractions of
/// 255 the encoding is `1.055 * v^(5/12) - 0.055`, so this says
/// `s + 13.525 <= 269.025 * (v / 255)^(5/12)`, without the root.
pub open spec fn encoding_reaches(v: int, s: int) -> bool {
    pow(40 * s + 541, 12) * pow(255, 5) <= pow(10761, 12) * pow(v, 5)
}

/// `r` is the sRGB encoding of the linear byte `v`, to the nearest byte.
pub open spec fn srgb_byte(v: u8, r: u8) -> bool {
    &&& r > 0 ==> encoding_reaches(v as int, r as int)
    &&& forall|s: int| r < s <= 255 ==> !#[trigger] encoding_reaches(v as int, s)
}

/// A color byte weighted by an alpha byte.
pub open spec fn weighted(v: u8, a: u8) -> u8 {
    let product = f_mul(f_from_int(v as int), f_div(f_from_int(a as int), f_from_int(255)));
    saturate(product, trunc_int(product), 0, 255) as u8
}

/// `rgba` holds the color pixels of `data` with each channel weighted by its
/// pixel's alpha. Bytes past the last whole pixel stay.
pub open spec fn weighted_pixels(rgba: Seq<u8>, data: Seq<u8>) -> bool {
    &&& rgba.len() == data.len()
    &&& forall|j: int|
        0 <= j < data.len() ==> #[trigger] rgba[j] == (if j % 4 == 3 || j / 4 * 4 + 3 >= data.len() {
            data[j]
        } else {
            weighted(data[j], data[j / 4 * 4 + 3])
        })
}

/// `rgba` holds a pixel for each byte of coverage: white times coverage, in sRGB
/// encoding, with the coverage itself as alpha. Sampling decodes the color
/// channels and not the alpha, so it finds the coverage in all four.
pub open spec fn covered_pixels(rgba: Seq<u8>, data: Seq<u8>) -> bool {
    &&& rgba.len() == 4 * data.len()
    &&& forall|i: int| 0 <= i < data.len() ==> #[trigger] covered_pixel(rgba, data[i], i)
}

/// Pixel `i` of `rgba` stands for the coverage `alpha`.
pub open spec fn covered_pixel(rgba: Seq<u8>, alpha: u8, i: int) -> bool {
    &&& srgb_byte(alpha, rgba[4 * i])
    &&& rgba[4 * i + 1] == rgba[4 * i]
    &&& rgba[4 * i + 2] == rgba[4 * i]
    &&& rgba[4 * i + 3] == alpha
}

/// `rgba` holds the pixels that are uploaded for an image.
pub open spec fn premultiplied(rgba: Seq<u8>, content: ImageContent, data: Seq<u8>) -> bool {
    match content {
        ImageContent::Color => weighted_pixels(rgba, data),
        ImageContent::Mask => covered_pixels(rgba, data),
    }
}

/// A quad (origin and size, unscrolled) meets the clip, which does not scroll.
pub open spec fn quad_visible(rect: Seq<F32>, scroll: Seq<F32>, clip: Seq<i32>) -> bool {
    let x = f_add(rect[0], scroll[0]);
    let y = f_add(rect[1], scroll[1]);
    !(f_lt(f_add(x, rect[2]), f_from_int(clip[0] as int)) || f_lt(f_from_int(clip[2] as int), x) || f_lt(
        f_add(y, rect[3]),
        f_from_int(clip[1] as int),
    ) || f_lt(f_from_int(clip[3] as int), y))
}

/// The visibility test of a raster quad. The scroll is added here, as the shader
/// adds it to the unscrolled position, while the clip is fixed on screen.
pub fn raster_rect_visible(rect: [F32; 4], scroll: [F32; 2], clip_bounds: [i32; 4]) -> (r: bool)
    ensures
        r == quad_visible(rect@, scroll@, clip_bounds@),
{
    let x: F32 = rect[0].plus(scroll[0]);
    let y: F32 = rect[1].plus(scroll[1]);
    let left: F32 = F32::from_i64(clip_bounds[0] as i64);
    let top: F32 = F32::from_i64(clip_bounds[1] as i64);
    let right: F32 = F32::from_i64(clip_bounds[2] as i64);
    let bottom: F32 = F32::from_i64(clip_bounds[3] as i64);
    !(x.plus(rect[2]).lt(left) || right.lt(x) || y.plus(rect[3]).lt(top) || bottom.lt(y))
}

/// The sRGB encoding of a linear byte.
pub fn linear_to_srgb(v: u8) -> (r: u8)
    ensures
        srgb_byte(v, r),
{
    let one: Vec<u32> = vec![1u32];
    proof {
        reveal_with_fuel(wide, 3);
        reveal_with_fuel(crate::wide::weight, 2);
        assert(one@.drop_last() =~= Seq::empty());
        assert(wide(one@) == 1);
        assert(1 * pow(10761, 12) == pow(10761, 12));
    }
    let bound: Vec<u32> = scaled_by_power(scaled_by_power(one, 10761, 12), v as u32, 5);
    let mut low: u32 = 0;
    let mut high: u32 = 256;
    while high - low > 1
        invariant
            0 <= low < high <= 256,
            wide(bound@) == pow(10761, 12) * pow(v as int, 5),
            bound@.len() == 18,
            low > 0 ==> encoding_reaches(v as int, low as int),
            high < 256 ==> !encoding_reaches(v as int, high as int),
        decreases high - low,
    {
        let middle: u32 = low + (high - low) / 2;
        let unit: Vec<u32> = vec![1u32];
        proof {
            reveal_with_fuel(wide, 3);
            reveal_with_fuel(crate::wide::weight, 2);
            assert(unit@.drop_last() =~= Seq::empty());
            assert(wide(unit@) == 1);
            assert(1 * pow(40 * middle + 541, 12) == pow(40 * middle + 541, 12));
        }
        let want: Vec<u32> = scaled_by_power(scaled_by_power(unit, 40 * middle + 541, 12), 255, 5);
        if at_most(&want, &bound) {
            low = middle;
        } else {
            high = middle;
        }
    }
    proof {
        assert forall|s: int| low < s <= 255 implies !#[trigger] encoding_reaches(v as int, s) by {
            if encoding_reaches(v as int, s) {
                lemma_encoding_reaches_less(v as int, high as int, s);
            }
        }
    }
    low as u8
}

proof fn lemma_power_monotone(x: int, y: int, n: nat)
    requires
        0 <= x <= y,
    ensures
        0 <= pow(x, n) <= pow(y, n),
    decreases n,
{
    reveal(pow);
    if n > 0 {
        lemma_power_monotone(x, y, (n - 1) as nat);
        let p = pow(x, (n - 1) as nat);
        let q = pow(y, (n - 1) as nat);
        assert(0 <= x * p && x * p <= y * q) by (nonlinear_arith)
            requires
                0 <= x <= y,
                0 <= p <= q,
        ;
    }
}

/// What an encoding does not reach, it does not reach past either.
proof fn lemma_encoding_reaches_less(v: int, s: int, t: int)
    requires
        0 <= s <= t,
        encoding_reaches(v, t),
    ensures
        encoding_reaches(v, s),
{
    lemma_power_monotone(40 * s + 541, 40 * t + 541, 12);
    lemma_power_monotone(0, 255, 5);
    let p = pow(40 * s + 541, 12);
    let q = pow(40 * t + 541, 12);
    let k = pow(255, 5);
    assert(p * k <= q * k) by (nonlinear_arith)
        requires
            p <= q,
            0 <= k,
    ;
}

fn weighted_byte(v: u8, a: u8) -> (r: u8)
    ensures
        r == weighted(v, a),
{
    let alpha: F32 = F32::from_i64(a as i64).over(F32::from_i64(255));
    let whole: i64 = F32::from_i64(v as i64).times(alpha).trunc_i64();
    if whole < 0 {
        0
    } else if whole > 255 {
        255
    } else {
        whole as u8
    }
}

/// The pixels that are uploaded for an image.
pub fn to_premultiplied_rgba(image: &RasterImage) -> (rgba: Vec<u8>)
    ensures
        premultiplied(rgba@, image.content, image.data@),
{
    let mut rgba: Vec<u8> = Vec::new();
    let n: usize = image.data.len();
    match image.content {
        ImageContent::Color => {
            for j in 0..n
                invariant
                    n == image.data@.len(),
                    rgba@.len() == j,
                    forall|k: int|
                        0 <= k < j ==> #[trigger] rgba@[k] == (if k % 4 == 3 || k / 4 * 4 + 3 >= n {
                            image.data@[k]
                        } else {
                            weighted(image.data@[k], image.data@[k / 4 * 4 + 3])
                        }),
            {
                let lane: usize = j % 4;
                let byte: u8 = image.data[j];
                assert(j / 4 * 4 + lane == j);
                if lane == 3 || n - j <= 3 - lane {
                    rgba.push(byte);
                } else {
                    rgba.push(weighted_byte(byte, image.data[j + (3 - lane)]));
                }
            }
        },
        ImageContent::Mask => {
            let mut known: Vec<Option<u8>> = Vec::new();
            while known.len() < 256
                invariant
                    known@.len() <= 256,
                    forall|v: int| 0 <= v < known@.len() ==> #[trigger] known@[v] == None::<u8>,
                decreases 256 - known.len(),
            {
                known.push(None);
            }
            for i in 0..n
                invariant
                    n == image.data@.len(),
                    known@.len() == 256,
                    forall|v: int|
                        0 <= v < 256 && (#[trigger] known@[v]) is Some ==> srgb_byte(v as u8, known@[v]->0),
                    rgba@.len() == 4 * i,
                    forall|k: int| 0 <= k < i ==> #[trigger] covered_pixel(rgba@, image.data@[k], k),
            {
                let ghost before = rgba@;
                let alpha: u8 = image.data[i];
                let srgb: u8 = match known[alpha as usize] {
                    Some(srgb) => srgb,
                    None => {
                        let srgb: u8 = linear_to_srgb(alpha);
                        known.set(alpha as usize, Some(srgb));
                        srgb
                    },
                };
                rgba.push(srgb);
                rgba.push(srgb);
                rgba.push(srgb);
                rgba.push(alpha);
                assert forall|k: int| 0 <= k < i + 1 implies #[trigger] covered_pixel(rgba@, image.data@[k], k) by {
                    if k < i {
                        assert(covered_pixel(before, image.data@[k], k));
                        assert(rgba@[4 * k] == before[4 * k]);
                    }
                }
            }
        },
    }
    rgba
}

}
