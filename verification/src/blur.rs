//! Blurred shadows: the rectangles and the uniforms of a shadow job.
//!
//! A blurred shadow is a convolution of the whole glyph mask of an area. The
//! mask is rendered once, blurred along each axis, tinted and composited; what
//! is blurred is linear coverage, and the color is applied at the end.
use vstd::prelude::*;
use crate::float32::{
    F32, f_add, f_sub, f_div, f_max, f_min, f_lt, f_le, f_from_int, ceil_int, saturate, trunc_int,
    law_sums_keep_order, law_differences_keep_order, lemma_difference_error, lemma_order_is_value_order, abs_int,
    ONE_BITS,
};
use crate::types::Resolution;
use crate::viewport::{Params, size_of_target};

verus! {

/// The geometry of a shadow job, in physical pixels. Rectangles hold an origin
/// and a size.
#[derive(Clone, Copy, Debug)]
pub struct BlurGeometry {
    /// Where the finished shadow lands on screen.
    pub dest: [F32; 4],
    /// What the mask covers: the destination pulled back by the offset and grown
    /// by the kernel's support on every side.
    pub source: [F32; 4],
    /// A pixel `p` of the destination samples the mask at `p - offset`.
    pub offset: [F32; 2],
    pub support: F32,
    pub sigma: F32,
}

/// What one blur pass reads.
#[derive(Clone, Copy, Debug)]
pub struct BlurUniform {
    pub texel: [F32; 2],
    pub direction: [F32; 2],
    pub sigma: F32,
    pub support: i32,
}

/// What the composite reads.
#[derive(Clone, Copy, Debug)]
pub struct ShadowUniform {
    pub color: [F32; 4],
    pub rect: [F32; 4],
    pub uv_rect: [F32; 4],
    pub screen_size: [F32; 2],
    pub flags: u32,
    pub depth: F32,
}

/// The edges (left, top, right, bottom) of the visible shadow: the glyphs' edges
/// grown by the support, displaced, then clipped.
pub open spec fn shadow_edges(glyphs: Seq<F32>, clip: Seq<F32>, offset: Seq<F32>, support: F32) -> [F32; 4] {
    [
        f_max(f_add(f_sub(glyphs[0], support), offset[0]), clip[0]),
        f_max(f_add(f_sub(glyphs[1], support), offset[1]), clip[1]),
        f_min(f_add(f_add(glyphs[2], support), offset[0]), clip[2]),
        f_min(f_add(f_add(glyphs[3], support), offset[1]), clip[3]),
    ]
}

/// The rectangle between four edges encloses something.
pub open spec fn encloses(edges: Seq<F32>) -> bool {
    f_lt(edges[0], edges[2]) && f_lt(edges[1], edges[3])
}

/// The edges of the mask behind a shadow with the given edges.
pub open spec fn mask_edges(edges: Seq<F32>, offset: Seq<F32>, support: F32) -> [F32; 4] {
    [
        f_sub(f_sub(edges[0], offset[0]), support),
        f_sub(f_sub(edges[1], offset[1]), support),
        f_add(f_sub(edges[2], offset[0]), support),
        f_add(f_sub(edges[3], offset[1]), support),
    ]
}

/// Edges as an origin and a size.
pub open spec fn sized(edges: Seq<F32>) -> [F32; 4] {
    [edges[0], edges[1], f_sub(edges[2], edges[0]), f_sub(edges[3], edges[1])]
}

/// The number of texels that a length takes: at least one.
pub open spec fn texels(length: F32) -> int {
    let whole = saturate(length, ceil_int(length), 0, u32::MAX as int);
    if whole < 1 { 1 } else { whole }
}

/// The geometry of a shadow that is visible.
pub open spec fn geometry_of(glyphs: Seq<F32>, clip: Seq<F32>, offset: [F32; 2], sigma: F32, support: F32) -> BlurGeometry {
    let edges = shadow_edges(glyphs, clip, offset@, support)@;
    BlurGeometry {
        dest: sized(edges),
        source: sized(mask_edges(edges, offset@, support)@),
        offset,
        support,
        sigma,
    }
}

/// The job of a shadow, if anything of it is visible.
pub open spec fn shadow_job(glyphs: Seq<F32>, clip: Seq<F32>, offset: [F32; 2], sigma: F32, support: F32) -> Option<
    BlurGeometry,
> {
    if encloses(shadow_edges(glyphs, clip, offset@, support)@) {
        Some(geometry_of(glyphs, clip, offset, sigma, support))
    } else {
        None
    }
}

impl BlurGeometry {
    /// Width and height of the mask in texels.
    pub open spec fn mask_size(self) -> (int, int) {
        (texels(self.source@[2]), texels(self.source@[3]))
    }

    /// The destination inside the mask, as fractions of the mask's size.
    pub open spec fn uv(self) -> [F32; 4] {
        let width = f_from_int(self.mask_size().0);
        let height = f_from_int(self.mask_size().1);
        [
            f_div(f_sub(f_sub(self.dest@[0], self.offset@[0]), self.source@[0]), width),
            f_div(f_sub(f_sub(self.dest@[1], self.offset@[1]), self.source@[1]), height),
            f_div(self.dest@[2], width),
            f_div(self.dest@[3], height),
        ]
    }

    /// The job of a shadow, or `None` when nothing of it would be visible.
    ///
    /// `glyph_bounds` and `clip` are edges. The shadow is clipped and its mask is
    /// not: a glyph outside the clip still reaches into it through the kernel.
    pub fn new(glyph_bounds: [F32; 4], clip: [F32; 4], offset: [F32; 2], sigma: F32, support: F32) -> (r: Option<
        BlurGeometry,
    >)
        ensures
            r == shadow_job(glyph_bounds@, clip@, offset, sigma, support),
    {
        let left: F32 = glyph_bounds[0].minus(support).plus(offset[0]).max(clip[0]);
        let top: F32 = glyph_bounds[1].minus(support).plus(offset[1]).max(clip[1]);
        let right: F32 = glyph_bounds[2].plus(support).plus(offset[0]).min(clip[2]);
        let bottom: F32 = glyph_bounds[3].plus(support).plus(offset[1]).min(clip[3]);
        assert(shadow_edges(glyph_bounds@, clip@, offset@, support) == [left, top, right, bottom]);
        if !(left.lt(right) && top.lt(bottom)) {
            return None;
        }
        let mask_left: F32 = left.minus(offset[0]).minus(support);
        let mask_top: F32 = top.minus(offset[1]).minus(support);
        let mask_right: F32 = right.minus(offset[0]).plus(support);
        let mask_bottom: F32 = bottom.minus(offset[1]).plus(support);
        Some(BlurGeometry {
            dest: [left, top, right.minus(left), bottom.minus(top)],
            source: [mask_left, mask_top, mask_right.minus(mask_left), mask_bottom.minus(mask_top)],
            offset,
            support,
            sigma,
        })
    }

    /// Width and height of the mask in texels.
    pub fn source_size(&self) -> (r: (u32, u32))
        ensures
            (r.0 as int, r.1 as int) == self.mask_size(),
    {
        let width: u32 = self.source[2].ceil_u32();
        let height: u32 = self.source[3].ceil_u32();
        (if width < 1 { 1 } else { width }, if height < 1 { 1 } else { height })
    }

    /// Where the destination sits inside the mask: origin and size as fractions
    /// of the mask. The mask is larger than the destination, so the composite
    /// samples this part of it only.
    pub fn uv_rect(&self) -> (r: [F32; 4])
        ensures
            r == self.uv(),
    {
        let (w, h) = self.source_size();
        let width: F32 = F32::from_i64(w as i64);
        let height: F32 = F32::from_i64(h as i64);
        [
            self.dest[0].minus(self.offset[0]).minus(self.source[0]).over(width),
            self.dest[1].minus(self.offset[1]).minus(self.source[1]).over(height),
            self.dest[2].over(width),
            self.dest[3].over(height),
        ]
    }

    /// The uniforms of the horizontal and of the vertical pass.
    pub fn passes(&self) -> (r: [BlurUniform; 2])
        ensures
            forall|i: int| 0 <= i < 2 ==> {
                let pass = #[trigger] r@[i];
                let one = F32 { bits: ONE_BITS };
                let zero = F32 { bits: 0 };
                &&& pass.texel@ == seq![
                    f_div(one, f_from_int(self.mask_size().0)),
                    f_div(one, f_from_int(self.mask_size().1)),
                ]
                &&& pass.direction@ == if i == 0 { seq![one, zero] } else { seq![zero, one] }
                &&& pass.sigma == self.sigma
                &&& pass.support == saturate(self.support, trunc_int(self.support), i32::MIN as int, i32::MAX as int)
            },
    {
        let one: F32 = F32 { bits: ONE_BITS };
        let zero: F32 = F32 { bits: 0 };
        let (w, h) = self.source_size();
        let texel: [F32; 2] = [one.over(F32::from_i64(w as i64)), one.over(F32::from_i64(h as i64))];
        let whole: i64 = self.support.trunc_i64();
        let support: i32 = if whole < -0x8000_0000 {
            i32::MIN
        } else if whole > 0x7fff_ffff {
            i32::MAX
        } else {
            whole as i32
        };
        let along: [F32; 2] = [one, zero];
        let across: [F32; 2] = [zero, one];
        assert(texel@ =~= seq![
            f_div(one, f_from_int(self.mask_size().0)),
            f_div(one, f_from_int(self.mask_size().1)),
        ]);
        assert(along@ =~= seq![one, zero]);
        assert(across@ =~= seq![zero, one]);
        [
            BlurUniform { texel, direction: along, sigma: self.sigma, support },
            BlurUniform { texel, direction: across, sigma: self.sigma, support },
        ]
    }

    /// The uniform block under which the mask is rendered. Glyphs are placed
    /// relative to the mask's origin, which was measured with the scroll applied.
    pub fn mask_params(&self, scroll: [F32; 2], flags: u32) -> (r: Params)
        ensures
            r.screen_size@ == seq![f_from_int(self.mask_size().0), f_from_int(self.mask_size().1)],
            r.scroll_offset@ == seq![f_sub(scroll@[0], self.source@[0]), f_sub(scroll@[1], self.source@[1])],
            r.flags == flags,
            // What was at the mask's origin on screen is at the origin of the mask.
            forall|k: int|
                0 <= k < 2 && scroll@[k].finite() && self.source@[k].finite() && (#[trigger] r.scroll_offset@[k]).finite()
                    ==> {
                    let place = scroll@[k].value() - self.source@[k].value();
                    let v = r.scroll_offset@[k].value();
                    &&& (v - place) * 0x80_0000 <= abs_int(place) + 0x80_0000
                    &&& (place - v) * 0x80_0000 <= abs_int(place) + 0x80_0000
                },
    {
        let (w, h) = self.source_size();
        let r = Params {
            screen_size: [F32::from_i64(w as i64), F32::from_i64(h as i64)],
            scroll_offset: [scroll[0].minus(self.source[0]), scroll[1].minus(self.source[1])],
            flags,
        };
        assert(r.screen_size@ =~= seq![f_from_int(self.mask_size().0), f_from_int(self.mask_size().1)]);
        assert(r.scroll_offset@ =~= seq![
            f_sub(scroll@[0], self.source@[0]),
            f_sub(scroll@[1], self.source@[1]),
        ]);
        proof {
            if f_sub(scroll@[0], self.source@[0]).finite() && scroll@[0].finite() && self.source@[0].finite() {
                lemma_difference_error(scroll@[0], self.source@[0]);
            }
            if f_sub(scroll@[1], self.source@[1]).finite() && scroll@[1].finite() && self.source@[1].finite() {
                lemma_difference_error(scroll@[1], self.source@[1]);
            }
        }
        r
    }

    /// The uniform of the composite.
    pub fn shadow_uniform(&self, color: [F32; 4], resolution: Resolution, flags: u32, depth: F32) -> (r: ShadowUniform)
        ensures
            r.color == color,
            r.rect == self.dest,
            r.uv_rect == self.uv(),
            r.screen_size@ == size_of_target(resolution),
            r.flags == flags,
            r.depth == depth,
    {
        let screen_size: [F32; 2] = [
            F32::from_i64(resolution.width as i64),
            F32::from_i64(resolution.height as i64),
        ];
        assert(screen_size@ =~= size_of_target(resolution));
        ShadowUniform { color, rect: self.dest, uv_rect: self.uv_rect(), screen_size, flags, depth }
    }
}

/// A visible shadow lies inside its clip.
pub proof fn law_shadow_is_clipped(glyphs: Seq<F32>, clip: Seq<F32>, offset: Seq<F32>, support: F32)
    requires
        glyphs.len() == 4,
        clip.len() == 4,
        offset.len() == 2,
        forall|i: int| 0 <= i < 4 ==> !(#[trigger] clip[i]).nan(),
        encloses(shadow_edges(glyphs, clip, offset, support)@),
    ensures
        f_le(clip[0], shadow_edges(glyphs, clip, offset, support)@[0]),
        f_le(clip[1], shadow_edges(glyphs, clip, offset, support)@[1]),
        f_le(shadow_edges(glyphs, clip, offset, support)@[2], clip[2]),
        f_le(shadow_edges(glyphs, clip, offset, support)@[3], clip[3]),
{
    assert(!clip[0].nan() && !clip[1].nan() && !clip[2].nan() && !clip[3].nan());
}

/// The mask reaches past the shadow, pulled back by its offset, on every side:
/// whatever throws light into the shadow through the kernel is in the mask.
pub proof fn law_mask_reaches_past_the_shadow(edges: Seq<F32>, offset: Seq<F32>, support: F32)
    requires
        edges.len() == 4,
        offset.len() == 2,
        support.finite(),
        f_le(F32 { bits: 0 }, support),
        forall|i: int| 0 <= i < 4 ==> (#[trigger] f_sub(edges[i], offset[i % 2])).finite(),
    ensures
        f_le(mask_edges(edges, offset, support)@[0], f_sub(edges[0], offset[0])),
        f_le(mask_edges(edges, offset, support)@[1], f_sub(edges[1], offset[1])),
        f_le(f_sub(edges[2], offset[0]), mask_edges(edges, offset, support)@[2]),
        f_le(f_sub(edges[3], offset[1]), mask_edges(edges, offset, support)@[3]),
{
    let left = f_sub(edges[0], offset[0int % 2]);
    let top = f_sub(edges[1], offset[1int % 2]);
    let right = f_sub(edges[2], offset[2int % 2]);
    let bottom = f_sub(edges[3], offset[3int % 2]);
    let zero = F32 { bits: 0 };
    lemma_order_is_value_order(zero, support);
    assert(zero.value() == 0);
    law_differences_keep_order(left, support, left);
    law_differences_keep_order(top, support, top);
    law_sums_keep_order(right, support, right);
    law_sums_keep_order(bottom, support, bottom);
}

}
