//! The shared atlas of rasterized glyphs.
//!
//! [`RasterState`] decides where images go and what is drawn; the caller owns
//! the texture and carries out the [`AtlasOp`]s in order.
use vstd::prelude::*;
use vstd::arithmetic::power2::{pow2, lemma2_to64, lemma_pow2_unfold};
use std::collections::HashMap;
use crate::float32::{F32, f_mul, f_div, f_from_int, saturate, trunc_int};
use crate::packing::{wrap16, wrap_i16};
use crate::raster_text::{
    ImageContent, NonVectorGlyph, RasterImage, RasterVertex, premultiplied, quad_visible, raster_rect_visible,
    to_premultiplied_rgba,
};
use crate::raster_text::packer::RowPacker;

verus! {

broadcast use vstd::std_specs::hash::group_hash_axioms;

/// The size of a fresh atlas in pixels a side.
pub const INITIAL_ATLAS_SIZE: u32 = 1024;

/// Where the image of a glyph lies in the atlas and how it is placed.
#[derive(Clone, Copy, Debug, PartialEq, Eq, Structural)]
pub struct CachedGlyph {
    pub atlas_x: u16,
    pub atlas_y: u16,
    pub atlas_w: u16,
    pub atlas_h: u16,
    pub placement_left: i16,
    pub placement_top: i16,
    pub is_color: bool,
}

/// A change of the atlas texture.
#[derive(Debug)]
pub enum AtlasOp {
    /// Replace the texture by an empty one with this many pixels a side.
    Resize(u32),
    /// Write the pixels of an image.
    Write { x: u16, y: u16, width: u32, height: u32, rgba: Vec<u8> },
}

/// What an [`AtlasOp`] does, apart from the pixels.
pub enum OpModel {
    Resize(int),
    Write { x: u16, y: u16, image: RasterImage },
}

/// `op` does what `model` says.
pub open spec fn op_is(op: AtlasOp, model: OpModel) -> bool {
    match (op, model) {
        (AtlasOp::Resize(size), OpModel::Resize(n)) => size == n,
        (AtlasOp::Write { x, y, width, height, rgba }, OpModel::Write { x: px, y: py, image }) => {
            &&& x == px
            &&& y == py
            &&& width == image.width
            &&& height == image.height
            &&& premultiplied(rgba@, image.content, image.data@)
        },
        _ => false,
    }
}

/// The operations do what the models say, one by one.
pub open spec fn ops_are(ops: Seq<AtlasOp>, models: Seq<OpModel>) -> bool {
    &&& ops.len() == models.len()
    &&& forall|i: int| 0 <= i < ops.len() ==> op_is(#[trigger] ops[i], models[i])
}

/// A vertex, as lists.
pub struct VertexModel {
    pub screen_pos: Seq<F32>,
    pub screen_size: Seq<F32>,
    pub atlas_pos: Seq<F32>,
    pub atlas_size: Seq<F32>,
    pub color: Seq<F32>,
    pub depth: F32,
}

impl RasterVertex {
    pub open spec fn model(self) -> VertexModel {
        VertexModel {
            screen_pos: self.screen_pos@,
            screen_size: self.screen_size@,
            atlas_pos: self.atlas_pos@,
            atlas_size: self.atlas_size@,
            color: self.color@,
            depth: self.depth,
        }
    }
}

/// The state of the atlas.
pub struct AtlasModel {
    /// Pixels a side.
    pub size: int,
    pub packer: RowPacker,
    pub cached: Map<u128, CachedGlyph>,
    /// Glyphs drawn since the frame began.
    pub used: int,
}

/// The state of the atlas while glyphs are placed, and what was produced.
pub struct Pass {
    pub atlas: AtlasModel,
    pub grew: bool,
    pub vertices: Seq<VertexModel>,
    pub ops: Seq<OpModel>,
}

/// The size that an atlas grows to.
pub open spec fn grown_size(size: int, limit: int) -> int {
    if 2 * size < limit { 2 * size } else { limit }
}

/// The entry for an image that was written at a spot of the atlas.
pub open spec fn entry_for(image: RasterImage, spot: (int, int)) -> CachedGlyph {
    CachedGlyph {
        atlas_x: (spot.0 % 0x1_0000) as u16,
        atlas_y: (spot.1 % 0x1_0000) as u16,
        atlas_w: (image.width as int % 0x1_0000) as u16,
        atlas_h: (image.height as int % 0x1_0000) as u16,
        placement_left: wrap16(image.left as int) as i16,
        placement_top: wrap16(image.top as int) as i16,
        is_color: image.content == ImageContent::Color,
    }
}

impl Pass {
    /// The pass after the image was asked room for and given it.
    pub open spec fn written(self, key: u128, image: RasterImage) -> Pass {
        let spot = self.atlas.packer.spot(image.width as int);
        let entry = entry_for(image, spot);
        Pass {
            atlas: AtlasModel {
                packer: self.atlas.packer.after(image.width as int, image.height as int),
                cached: self.atlas.cached.insert(key, entry),
                ..self.atlas
            },
            ops: self.ops.push(OpModel::Write { x: entry.atlas_x, y: entry.atlas_y, image }),
            ..self
        }
    }

    /// The pass after the image was asked room for in vain.
    pub open spec fn turned_away(self, image: RasterImage) -> Pass {
        Pass {
            atlas: AtlasModel {
                packer: self.atlas.packer.after(image.width as int, image.height as int),
                ..self.atlas
            },
            ..self
        }
    }

    /// The pass after the atlas was replaced by a larger, empty one.
    pub open spec fn enlarged(self, limit: int) -> Pass {
        let size = grown_size(self.atlas.size, limit);
        Pass {
            atlas: AtlasModel {
                size,
                packer: RowPacker::empty(size as u32, size as u32),
                cached: Map::empty(),
                ..self.atlas
            },
            grew: true,
            ops: self.ops.push(OpModel::Resize(size)),
            ..self
        }
    }

    /// The image has room in the atlas as it is.
    pub open spec fn has_room(self, image: RasterImage) -> bool {
        self.atlas.packer.places(image.width as int, image.height as int)
    }

    /// The pass after a glyph's image was looked up and, where it was not there,
    /// entered. A full atlas is enlarged, up to `limit`; an image that still has
    /// no room is left out.
    pub open spec fn located(self, key: u128, image: Option<RasterImage>, limit: int) -> Pass {
        if self.atlas.cached.contains_key(key) {
            self
        } else if image is None || image->0.width == 0 || image->0.height == 0 {
            self
        } else {
            let image = image->0;
            if self.has_room(image) {
                self.written(key, image)
            } else {
                let full = self.turned_away(image);
                if grown_size(full.atlas.size, limit) == full.atlas.size {
                    full
                } else {
                    let larger = full.enlarged(limit);
                    if larger.has_room(image) {
                        larger.written(key, image)
                    } else {
                        larger.turned_away(image)
                    }
                }
            }
        }
    }

    /// The pass after a located glyph was drawn, if it is visible.
    pub open spec fn drawn(self, g: NonVectorGlyph, scroll: Seq<F32>) -> Pass {
        let c = self.atlas.cached[g.physical.image];
        let x = f_from_int(g.physical.x + c.placement_left);
        let y = f_from_int(line_of(g) + g.physical.y - c.placement_top);
        let w = f_from_int(c.atlas_w as int);
        let h = f_from_int(c.atlas_h as int);
        if !quad_visible(seq![x, y, w, h], scroll, g.clip_bounds@) {
            self
        } else {
            let size = f_from_int(self.atlas.size);
            Pass {
                atlas: AtlasModel { used: self.atlas.used + 1, ..self.atlas },
                vertices: self.vertices.push(
                    VertexModel {
                        screen_pos: seq![x, y],
                        screen_size: seq![w, h],
                        atlas_pos: seq![
                            f_div(f_from_int(c.atlas_x as int), size),
                            f_div(f_from_int(c.atlas_y as int), size),
                        ],
                        atlas_size: seq![f_div(w, size), f_div(h, size)],
                        color: vertex_color(g.color@, c.is_color),
                        depth: g.depth,
                    },
                ),
                ..self
            }
        }
    }

    /// The pass after one more glyph.
    pub open spec fn placed(self, g: NonVectorGlyph, image: Option<RasterImage>, scroll: Seq<F32>, limit: int) -> Pass {
        let p = self.located(g.physical.image, image, limit);
        if p.atlas.cached.contains_key(g.physical.image) { p.drawn(g, scroll) } else { p }
    }
}

/// The line's vertical position in whole pixels.
pub open spec fn line_of(g: NonVectorGlyph) -> int {
    let y = g.line_y_scaled_rounded;
    saturate(y, trunc_int(y), i32::MIN as int, i32::MAX as int)
}

/// The position of the glyph fits 32 bits whatever its placement is.
pub open spec fn placeable(g: NonVectorGlyph) -> bool {
    let line = line_of(g) + g.physical.y;
    &&& i32::MIN + 0x8000 <= g.physical.x <= i32::MAX - 0x8000
    &&& i32::MIN + 0x8000 <= line <= i32::MAX - 0x8000
}

/// The color of a quad: a tint by alpha alone for a color image, premultiplied
/// for a mask.
pub open spec fn vertex_color(color: Seq<F32>, is_color: bool) -> Seq<F32> {
    let a = color[3];
    if is_color {
        seq![a, a, a, a]
    } else {
        seq![f_mul(color[0], a), f_mul(color[1], a), f_mul(color[2], a), a]
    }
}

/// The pass after the first `n` glyphs.
pub open spec fn walked(
    p: Pass,
    glyphs: Seq<NonVectorGlyph>,
    images: Seq<Option<RasterImage>>,
    scroll: Seq<F32>,
    limit: int,
    n: int,
) -> Pass
    decreases n,
{
    if n <= 0 {
        p
    } else {
        walked(p, glyphs, images, scroll, limit, n - 1).placed(glyphs[n - 1], images[n - 1], scroll, limit)
    }
}

/// How often an atlas can still grow.
pub open spec fn growths(size: int, limit: int) -> nat
    decreases (if size < limit { limit - size } else { 0 }),
{
    if size == limit || size <= 0 {
        0
    } else if size > limit {
        1
    } else {
        1 + growths(if 2 * size < limit { 2 * size } else { limit }, limit)
    }
}

/// The pass with nothing drawn yet.
pub open spec fn fresh(p: Pass) -> Pass {
    Pass { grew: false, vertices: Seq::empty(), ..p }
}

/// All glyphs walked, and walked again as long as the atlas grew on the way: a
/// larger atlas starts empty, so what was drawn before is void.
pub open spec fn settled(
    p: Pass,
    glyphs: Seq<NonVectorGlyph>,
    images: Seq<Option<RasterImage>>,
    scroll: Seq<F32>,
    limit: int,
) -> Pass
    decreases growths(p.atlas.size, limit),
{
    let end = walked(fresh(p), glyphs, images, scroll, limit, glyphs.len() as int);
    if end.grew && growths(end.atlas.size, limit) < growths(p.atlas.size, limit) {
        settled(end, glyphs, images, scroll, limit)
    } else {
        end
    }
}

/// Decides where the images of glyphs go and which quads are drawn from them.
#[derive(Debug)]
pub struct RasterState {
    atlas_size: u32,
    limit: u32,
    packer: RowPacker,
    glyph_cache: HashMap<u128, CachedGlyph>,
    frame_used: u64,
}

/// What a frame's worth of raster glyphs comes to.
#[derive(Debug)]
pub struct RasterOutput {
    pub vertices: Vec<RasterVertex>,
    pub ops: Vec<AtlasOp>,
}

/// A walk over a frame's raster glyphs, as far as it has come.
#[derive(Debug)]
pub struct RasterWalk {
    pub vertices: Vec<RasterVertex>,
    pub ops: Vec<AtlasOp>,
    /// The atlas grew on the way.
    pub grew: bool,
}

/// The atlas and the walk are those of a pass.
pub open spec fn walk_is(state: RasterState, walk: RasterWalk, p: Pass) -> bool {
    &&& state.model() == p.atlas
    &&& walk.grew == p.grew
    &&& yields(walk.vertices@, walk.ops@, p)
}

/// The vertices and operations of a pass.
pub open spec fn yields(vertices: Seq<RasterVertex>, ops: Seq<AtlasOp>, p: Pass) -> bool {
    &&& vertices.len() == p.vertices.len()
    &&& forall|i: int| 0 <= i < vertices.len() ==> (#[trigger] vertices[i]).model() == p.vertices[i]
    &&& ops_are(ops, p.ops)
}

/// The images can be given to the packer.
pub open spec fn images_fit(images: Seq<Option<RasterImage>>) -> bool {
    forall|i: int| 0 <= i < images.len() ==> image_fits(#[trigger] images[i])
}

pub open spec fn image_fits(image: Option<RasterImage>) -> bool {
    image is Some ==> image->0.width < u32::MAX && image->0.height < u32::MAX
}

proof fn lemma_growths_bound(size: int, limit: int, k: nat)
    requires
        0 < size,
        0 < limit <= size * pow2(k),
    ensures
        growths(size, limit) <= k + 1,
    decreases k,
{
    if size < limit {
        lemma2_to64();
        if k == 0 {
            assert(size * pow2(0) == size) by (nonlinear_arith)
                requires
                    pow2(0) == 1,
            ;
        } else {
            lemma_pow2_unfold(k);
            let q = pow2((k - 1) as nat) as int;
            assert(size * (2 * q) == (2 * size) * q) by (nonlinear_arith);
            if 2 * size < limit {
                lemma_growths_bound(2 * size, limit, (k - 1) as nat);
            } else {
                reveal_with_fuel(growths, 2);
            }
        }
    }
}

/// Growing uses up one of the growths that were left.
proof fn lemma_growing_is_progress(size: int, limit: int)
    requires
        0 < size,
        0 < limit,
        grown_size(size, limit) != size,
    ensures
        growths(grown_size(size, limit), limit) < growths(size, limit),
{
    reveal_with_fuel(growths, 2);
}

impl RasterState {
    /// The state of the atlas.
    pub closed spec fn model(&self) -> AtlasModel {
        AtlasModel {
            size: self.atlas_size as int,
            packer: self.packer,
            cached: self.glyph_cache@,
            used: self.frame_used as int,
        }
    }

    /// The largest size that the atlas may have.
    pub closed spec fn limit(&self) -> int {
        self.limit as int
    }

    pub open spec fn wf(&self) -> bool {
        &&& 0 < self.limit() <= u32::MAX
        &&& 0 < self.model().size <= u32::MAX
        &&& self.model().packer.wf()
    }

    /// An empty atlas of the initial size that may grow up to `limit` pixels a
    /// side.
    pub fn new(limit: u32) -> (r: RasterState)
        requires
            0 < limit,
        ensures
            r.wf(),
            r.limit() == limit,
            r.model() == (AtlasModel {
                size: INITIAL_ATLAS_SIZE as int,
                packer: RowPacker::empty(INITIAL_ATLAS_SIZE, INITIAL_ATLAS_SIZE),
                cached: Map::empty(),
                used: 0,
            }),
    {
        RasterState {
            atlas_size: INITIAL_ATLAS_SIZE,
            limit,
            packer: RowPacker::new(INITIAL_ATLAS_SIZE, INITIAL_ATLAS_SIZE),
            glyph_cache: HashMap::new(),
            frame_used: 0,
        }
    }

    /// The atlas's size in pixels a side.
    pub fn atlas_size(&self) -> (r: u32)
        ensures
            r == self.model().size,
    {
        self.atlas_size
    }

    /// The number of images in the atlas.
    pub fn cached_count(&self) -> (r: usize)
        ensures
            r == self.model().cached.len(),
    {
        self.glyph_cache.len()
    }

    /// Doubles the atlas, up to its limit, and empties it. Reports whether there
    /// was room to grow.
    fn grow_atlas(&mut self) -> (grew: bool)
        requires
            old(self).wf(),
        ensures
            final(self).wf(),
            final(self).limit() == old(self).limit(),
            grew == (grown_size(old(self).model().size, old(self).limit()) != old(self).model().size),
            !grew ==> final(self).model() == old(self).model(),
            grew ==> {
                let size = grown_size(old(self).model().size, old(self).limit());
                final(self).model() == (AtlasModel {
                    size,
                    packer: RowPacker::empty(size as u32, size as u32),
                    cached: Map::empty(),
                    used: old(self).model().used,
                })
            },
    {
        let doubled: u64 = self.atlas_size as u64 * 2;
        let size: u32 = if doubled < self.limit as u64 { doubled as u32 } else { self.limit };
        if size == self.atlas_size {
            return false;
        }
        self.atlas_size = size;
        self.packer.reset(size, size);
        self.glyph_cache.clear();
        true
    }

    /// Enters an image that was given room at a spot.
    fn write_image(&mut self, key: u128, image: &RasterImage, spot: (u16, u16), ops: &mut Vec<AtlasOp>, Ghost(p): Ghost<Pass>)
        requires
            old(self).wf(),
            p.has_room(*image),
            spot.0 == p.atlas.packer.spot(image.width as int).0 % 0x1_0000,
            spot.1 == p.atlas.packer.spot(image.width as int).1 % 0x1_0000,
            old(self).model() == p.turned_away(*image).atlas,
            ops_are(old(ops)@, p.ops),
        ensures
            final(self).wf(),
            final(self).limit() == old(self).limit(),
            final(self).model() == p.written(key, *image).atlas,
            ops_are(final(ops)@, p.written(key, *image).ops),
    {
        let cached = CachedGlyph {
            atlas_x: spot.0,
            atlas_y: spot.1,
            atlas_w: (image.width % 0x1_0000) as u16,
            atlas_h: (image.height % 0x1_0000) as u16,
            placement_left: wrap_i16(image.left as i64),
            placement_top: wrap_i16(image.top as i64),
            is_color: image.content == ImageContent::Color,
        };
        self.glyph_cache.insert(key, cached);
        ops.push(
            AtlasOp::Write {
                x: spot.0,
                y: spot.1,
                width: image.width,
                height: image.height,
                rgba: to_premultiplied_rgba(image),
            },
        );
    }

    /// Makes sure that the image of a glyph is in the atlas, if it can be.
    fn locate(&mut self, key: u128, image: &Option<RasterImage>, ops: &mut Vec<AtlasOp>, grew: bool, Ghost(p): Ghost<Pass>) -> (r: bool)
        requires
            old(self).wf(),
            image_fits(*image),
            old(self).model() == p.atlas,
            grew == p.grew,
            ops_are(old(ops)@, p.ops),
        ensures
            final(self).wf(),
            final(self).limit() == old(self).limit(),
            final(self).model() == p.located(key, *image, old(self).limit()).atlas,
            r == p.located(key, *image, old(self).limit()).grew,
            ops_are(final(ops)@, p.located(key, *image, old(self).limit()).ops),
    {
        if self.glyph_cache.contains_key(&key) {
            return grew;
        }
        let image = match image {
            Some(image) => image,
            None => return grew,
        };
        if image.width == 0 || image.height == 0 {
            return grew;
        }
        if let Some(spot) = self.packer.allocate(image.width, image.height) {
            self.write_image(key, image, spot, ops, Ghost(p));
            return grew;
        }
        let ghost full = p.turned_away(*image);
        if !self.grow_atlas() {
            return grew;
        }
        ops.push(AtlasOp::Resize(self.atlas_size));
        let ghost larger = full.enlarged(self.limit());
        if let Some(spot) = self.packer.allocate(image.width, image.height) {
            self.write_image(key, image, spot, ops, Ghost(larger));
        }
        true
    }

    /// Draws a glyph whose image is in the atlas, if it is visible.
    fn draw(&mut self, g: &NonVectorGlyph, scroll: [F32; 2], vertices: &mut Vec<RasterVertex>, Ghost(p): Ghost<Pass>)
        requires
            old(self).wf(),
            old(self).model() == p.atlas,
            p.atlas.used < u64::MAX,
            p.atlas.cached.contains_key(g.physical.image),
            placeable(*g),
            yields(old(vertices)@, Seq::empty(), Pass { ops: Seq::empty(), ..p }),
        ensures
            final(self).wf(),
            final(self).limit() == old(self).limit(),
            final(self).model() == p.drawn(*g, scroll@).atlas,
            yields(final(vertices)@, Seq::empty(), Pass { ops: Seq::empty(), ..p.drawn(*g, scroll@) }),
    {
        let cached: CachedGlyph = match self.glyph_cache.get(&g.physical.image) {
            Some(cached) => *cached,
            None => return,
        };
        let whole: i64 = g.line_y_scaled_rounded.trunc_i64();
        let line: i64 = if whole < -0x8000_0000 {
            -0x8000_0000
        } else if whole > 0x7fff_ffff {
            0x7fff_ffff
        } else {
            whole
        };
        let x: F32 = F32::from_i64(g.physical.x as i64 + cached.placement_left as i64);
        let y: F32 = F32::from_i64(line + g.physical.y as i64 - cached.placement_top as i64);
        let w: F32 = F32::from_i64(cached.atlas_w as i64);
        let h: F32 = F32::from_i64(cached.atlas_h as i64);
        let rect: [F32; 4] = [x, y, w, h];
        assert(rect@ =~= seq![x, y, w, h]);
        if !raster_rect_visible(rect, scroll, g.clip_bounds) {
            return;
        }
        let a: F32 = g.color[3];
        let color: [F32; 4] = if cached.is_color {
            [a, a, a, a]
        } else {
            [g.color[0].times(a), g.color[1].times(a), g.color[2].times(a), a]
        };
        let size: F32 = F32::from_i64(self.atlas_size as i64);
        self.frame_used = self.frame_used + 1;
        let vertex = RasterVertex {
            screen_pos: [x, y],
            screen_size: [w, h],
            atlas_pos: [
                F32::from_i64(cached.atlas_x as i64).over(size),
                F32::from_i64(cached.atlas_y as i64).over(size),
            ],
            atlas_size: [w.over(size), h.over(size)],
            color,
            depth: g.depth,
        };
        proof {
            let v = p.drawn(*g, scroll@).vertices.last();
            assert(vertex.screen_pos@ =~= v.screen_pos);
            assert(vertex.screen_size@ =~= v.screen_size);
            assert(vertex.atlas_pos@ =~= v.atlas_pos);
            assert(vertex.atlas_size@ =~= v.atlas_size);
            assert(vertex.color@ =~= v.color);
            assert(vertex.model() == v);
        }
        vertices.push(vertex);
    }
}

/// What one walk over the glyphs does to the atlas's size.
proof fn lemma_walk_size(
    p: Pass,
    glyphs: Seq<NonVectorGlyph>,
    images: Seq<Option<RasterImage>>,
    scroll: Seq<F32>,
    limit: int,
    n: int,
)
    requires
        0 < p.atlas.size,
        0 < limit,
        !p.grew,
    ensures
        ({
            let q = walked(p, glyphs, images, scroll, limit, n);
            &&& 0 < q.atlas.size
            &&& q.grew ==> growths(q.atlas.size, limit) < growths(p.atlas.size, limit)
            &&& !q.grew ==> q.atlas.size == p.atlas.size
        }),
    decreases n,
{
    if n > 0 {
        lemma_walk_size(p, glyphs, images, scroll, limit, n - 1);
        let q = walked(p, glyphs, images, scroll, limit, n - 1);
        if grown_size(q.atlas.size, limit) != q.atlas.size {
            lemma_growing_is_progress(q.atlas.size, limit);
        }
    }
}

impl RasterState {
    /// Whether a glyph's position fits 32 bits whatever its placement is.
    pub fn is_placeable(g: &NonVectorGlyph) -> (r: bool)
        ensures
            r == placeable(*g),
    {
        let whole: i64 = g.line_y_scaled_rounded.trunc_i64();
        let line: i64 = if whole < -0x8000_0000 {
            -0x8000_0000
        } else if whole > 0x7fff_ffff {
            0x7fff_ffff
        } else {
            whole
        };
        let y: i64 = line + g.physical.y as i64;
        -0x7fff_8000 <= g.physical.x && g.physical.x <= 0x7fff_7fff && -0x7fff_8000 <= y && y <= 0x7fff_7fff
    }

    /// One walk over the glyphs.
    fn walk(
        &mut self,
        glyphs: &[NonVectorGlyph],
        images: &[Option<RasterImage>],
        scroll: [F32; 2],
        ops: &mut Vec<AtlasOp>,
        Ghost(start): Ghost<Pass>,
    ) -> (r: (Vec<RasterVertex>, bool))
        requires
            old(self).wf(),
            images@.len() == glyphs@.len(),
            images_fit(images@),
            forall|i: int| 0 <= i < glyphs@.len() ==> placeable(#[trigger] glyphs@[i]),
            start == fresh(start),
            old(self).model() == start.atlas,
            start.atlas.used + glyphs@.len() <= u64::MAX,
            ops_are(old(ops)@, start.ops),
        ensures
            final(self).wf(),
            final(self).limit() == old(self).limit(),
            final(self).model().used <= old(self).model().used + glyphs@.len(),
            ({
                let end = walked(start, glyphs@, images@, scroll@, old(self).limit(), glyphs@.len() as int);
                &&& final(self).model() == end.atlas
                &&& r.1 == end.grew
                &&& yields(r.0@, final(ops)@, end)
            }),
    {
        let mut vertices: Vec<RasterVertex> = Vec::new();
        let mut grew: bool = false;
        let ghost limit = self.limit();
        for i in 0..glyphs.len()
            invariant
                self.wf(),
                self.limit() == limit,
                limit == old(self).limit(),
                images@.len() == glyphs@.len(),
                images_fit(images@),
                forall|j: int| 0 <= j < glyphs@.len() ==> placeable(#[trigger] glyphs@[j]),
                start.atlas.used == old(self).model().used,
                start.atlas.used + glyphs@.len() <= u64::MAX,
                self.model().used <= start.atlas.used + i,
                self.model() == walked(start, glyphs@, images@, scroll@, limit, i as int).atlas,
                grew == walked(start, glyphs@, images@, scroll@, limit, i as int).grew,
                yields(vertices@, ops@, walked(start, glyphs@, images@, scroll@, limit, i as int)),
        {
            let ghost p = walked(start, glyphs@, images@, scroll@, limit, i as int);
            let g: NonVectorGlyph = glyphs[i];
            let ghost q = p.located(g.physical.image, images@[i as int], limit);
            assert(image_fits(images@[i as int]));
            assert(placeable(glyphs@[i as int]));
            grew = self.locate(g.physical.image, &images[i], ops, grew, Ghost(p));
            assert(q.vertices == p.vertices);
            if self.glyph_cache.contains_key(&g.physical.image) {
                self.draw(&g, scroll, &mut vertices, Ghost(q));
                assert(walked(start, glyphs@, images@, scroll@, limit, i + 1) == q.drawn(g, scroll@));
            } else {
                assert(walked(start, glyphs@, images@, scroll@, limit, i + 1) == q);
            }
        }
        (vertices, grew)
    }

    /// Draws a frame's raster glyphs. `images[i]` is the image of `glyphs[i]`, or
    /// `None` where the glyph has none. Where the atlas has to grow, it starts
    /// empty and the walk starts over; the quads are those of the last walk.
    pub fn rasterize_glyphs(&mut self, glyphs: &[NonVectorGlyph], images: &[Option<RasterImage>], scroll: [F32; 2]) -> (r:
        RasterOutput)
        requires
            old(self).wf(),
            images@.len() == glyphs@.len(),
            glyphs@.len() <= u32::MAX,
            images_fit(images@),
            forall|i: int| 0 <= i < glyphs@.len() ==> placeable(#[trigger] glyphs@[i]),
        ensures
            final(self).wf(),
            final(self).limit() == old(self).limit(),
            ({
                let start = Pass {
                    atlas: AtlasModel { used: 0, ..old(self).model() },
                    grew: false,
                    vertices: Seq::empty(),
                    ops: Seq::empty(),
                };
                let end = settled(start, glyphs@, images@, scroll@, old(self).limit());
                &&& final(self).model() == end.atlas
                &&& yields(r.vertices@, r.ops@, end)
            }),
    {
        self.frame_used = 0;
        let mut ops: Vec<AtlasOp> = Vec::new();
        let ghost limit = self.limit();
        let ghost start = Pass {
            atlas: AtlasModel { used: 0, ..old(self).model() },
            grew: false,
            vertices: Seq::empty(),
            ops: Seq::empty(),
        };
        let ghost mut p = start;
        let ghost goal = settled(start, glyphs@, images@, scroll@, limit);
        let ghost most = growths(start.atlas.size, limit) as int;
        let ghost n = glyphs@.len() as int;
        proof {
            lemma2_to64();
            let size = start.atlas.size;
            assert(limit <= size * pow2(32)) by (nonlinear_arith)
                requires
                    limit <= 0xffff_ffff,
                    size >= 1,
                    pow2(32) == 0x1_0000_0000,
            ;
            lemma_growths_bound(size, limit, 32);
            assert((most - most) * n == 0) by (nonlinear_arith);
        }
        loop
            invariant
                self.wf(),
                self.limit() == limit,
                limit == old(self).limit(),
                images@.len() == glyphs@.len(),
                n == glyphs@.len(),
                n <= u32::MAX,
                images_fit(images@),
                forall|i: int| 0 <= i < glyphs@.len() ==> placeable(#[trigger] glyphs@[i]),
                self.model() == p.atlas,
                ops_are(ops@, p.ops),
                settled(p, glyphs@, images@, scroll@, limit) == goal,
                0 <= most <= 33,
                growths(p.atlas.size, limit) <= most,
                p.atlas.used <= (most - growths(p.atlas.size, limit)) * n,
                goal == settled(
                    Pass {
                        atlas: AtlasModel { used: 0, ..old(self).model() },
                        grew: false,
                        vertices: Seq::empty(),
                        ops: Seq::empty(),
                    },
                    glyphs@,
                    images@,
                    scroll@,
                    old(self).limit(),
                ),
            decreases growths(p.atlas.size, limit),
        {
            let ghost before = growths(p.atlas.size, limit) as int;
            let ghost used = p.atlas.used;
            let ghost end = walked(fresh(p), glyphs@, images@, scroll@, limit, n);
            proof {
                assert((most - before) * n + n <= 0x22_ffff_ffff) by (nonlinear_arith)
                    requires
                        0 <= most - before <= 33,
                        0 <= n <= 0xffff_ffff,
                ;
                lemma_walk_size(fresh(p), glyphs@, images@, scroll@, limit, n);
            }
            let (vertices, grew) = self.walk(glyphs, images, scroll, &mut ops, Ghost(fresh(p)));
            if !grew {
                return RasterOutput { vertices, ops };
            }
            proof {
                p = end;
                let left = growths(end.atlas.size, limit) as int;
                assert((most - before) * n + n <= (most - left) * n) by (nonlinear_arith)
                    requires
                        left + 1 <= before,
                        0 <= n,
                ;
            }
        }
    }

    /// Whether the image of a glyph is in the atlas. If it is, it need not be
    /// fetched to place the glyph.
    pub fn has_image(&self, image: u128) -> (r: bool)
        ensures
            r == self.model().cached.contains_key(image),
    {
        self.glyph_cache.contains_key(&image)
    }

    /// The number of glyphs drawn since the frame began.
    pub fn used(&self) -> (r: u64)
        ensures
            r == self.model().used,
    {
        self.frame_used
    }

    /// Starts to draw a frame's raster glyphs one by one, for a caller that fetches
    /// images only when they are needed (see [`RasterState::has_image`]).
    pub fn begin_walk(&mut self) -> (walk: RasterWalk)
        requires
            old(self).wf(),
        ensures
            final(self).wf(),
            final(self).limit() == old(self).limit(),
            walk_is(
                *final(self),
                walk,
                Pass {
                    atlas: AtlasModel { used: 0, ..old(self).model() },
                    grew: false,
                    vertices: Seq::empty(),
                    ops: Seq::empty(),
                },
            ),
    {
        self.frame_used = 0;
        RasterWalk { vertices: Vec::new(), ops: Vec::new(), grew: false }
    }

    /// Places one more glyph of a walk.
    pub fn place_glyph(&mut self, walk: &mut RasterWalk, g: &NonVectorGlyph, image: &Option<RasterImage>, scroll: [F32; 2])
        requires
            old(self).wf(),
            old(self).model().used < u64::MAX,
            image_fits(*image),
            placeable(*g),
        ensures
            final(self).wf(),
            final(self).limit() == old(self).limit(),
            final(self).model().used <= old(self).model().used + 1,
            forall|p: Pass| #[trigger]
                walk_is(*old(self), *old(walk), p) ==> walk_is(
                    *final(self),
                    *final(walk),
                    p.placed(*g, *image, scroll@, old(self).limit()),
                ),
    {
        let ghost base = Pass { atlas: self.model(), grew: walk.grew, vertices: Seq::empty(), ops: Seq::empty() };
        let ghost limit = self.limit();
        let ghost q = base.located(g.physical.image, *image, limit);
        let ghost end = base.placed(*g, *image, scroll@, limit);
        let ghost before = *walk;
        let mut ops: Vec<AtlasOp> = Vec::new();
        let mut vertices: Vec<RasterVertex> = Vec::new();
        let grew: bool = self.locate(g.physical.image, image, &mut ops, walk.grew, Ghost(base));
        if self.glyph_cache.contains_key(&g.physical.image) {
            self.draw(g, scroll, &mut vertices, Ghost(q));
        }
        walk.grew = grew;
        let ghost new_ops = ops@;
        let ghost new_vertices = vertices@;
        walk.ops.append(&mut ops);
        walk.vertices.append(&mut vertices);
        proof {
            assert forall|p: Pass| #[trigger] walk_is(*old(self), before, p) implies walk_is(
                *self,
                *walk,
                p.placed(*g, *image, scroll@, limit),
            ) by {
                lemma_placing_appends(p, base, *g, *image, scroll@, limit);
                let after = p.placed(*g, *image, scroll@, limit);
                assert forall|i: int| 0 <= i < walk.vertices@.len() implies (#[trigger] walk.vertices@[i]).model()
                    == after.vertices[i] by {
                    if i < before.vertices@.len() {
                        assert(walk.vertices@[i] == before.vertices@[i]);
                    } else {
                        assert(walk.vertices@[i] == new_vertices[i - before.vertices@.len()]);
                    }
                }
                assert forall|i: int| 0 <= i < walk.ops@.len() implies op_is(#[trigger] walk.ops@[i], after.ops[i]) by {
                    if i < before.ops@.len() {
                        assert(walk.ops@[i] == before.ops@[i]);
                    } else {
                        assert(walk.ops@[i] == new_ops[i - before.ops@.len()]);
                    }
                }
            }
        }
    }

    /// Shrinks an enlarged atlas back to its initial size when the last frame drew
    /// fewer glyphs than a quarter of the number of its images, rounded down.
    /// Reports whether the texture has to be replaced.
    pub fn trim(&mut self) -> (reset: bool)
        requires
            old(self).wf(),
        ensures
            final(self).wf(),
            final(self).limit() == old(self).limit(),
            reset == (old(self).model().used < old(self).model().cached.len() as int / 4 && old(self).model().size
                > INITIAL_ATLAS_SIZE),
            !reset ==> final(self).model() == old(self).model(),
            reset ==> final(self).model() == (AtlasModel {
                size: INITIAL_ATLAS_SIZE as int,
                packer: RowPacker::empty(INITIAL_ATLAS_SIZE, INITIAL_ATLAS_SIZE),
                cached: Map::empty(),
                used: old(self).model().used,
            }),
    {
        let cached: u64 = self.glyph_cache.len() as u64;
        if cached > 0 && self.frame_used < cached / 4 && self.atlas_size > INITIAL_ATLAS_SIZE {
            self.atlas_size = INITIAL_ATLAS_SIZE;
            self.packer.reset(INITIAL_ATLAS_SIZE, INITIAL_ATLAS_SIZE);
            self.glyph_cache.clear();
            true
        } else {
            false
        }
    }
}

impl RasterWalk {
    /// Ends a walk over all the glyphs. If the atlas grew on the way, what was drawn
    /// is void and the walk starts over.
    pub fn is_settled(&mut self) -> (r: bool)
        ensures
            r == !old(self).grew,
            r ==> *final(self) == *old(self),
            !r ==> forall|state: RasterState, p: Pass| #[trigger]
                walk_is(state, *old(self), p) ==> walk_is(state, *final(self), fresh(p)),
    {
        if self.grew {
            self.vertices = Vec::new();
            self.grew = false;
            false
        } else {
            true
        }
    }
}

/// Placing a glyph adds to what was drawn and changed before, whatever that was.
proof fn lemma_placing_appends(p: Pass, base: Pass, g: NonVectorGlyph, image: Option<RasterImage>, scroll: Seq<F32>, limit: int)
    requires
        p.atlas == base.atlas,
        p.grew == base.grew,
        base.vertices.len() == 0,
        base.ops.len() == 0,
    ensures
        ({
            let after = p.placed(g, image, scroll, limit);
            let end = base.placed(g, image, scroll, limit);
            &&& after.atlas == end.atlas
            &&& after.grew == end.grew
            &&& after.vertices == p.vertices + end.vertices
            &&& after.ops == p.ops + end.ops
        }),
{
    let after = p.placed(g, image, scroll, limit);
    let end = base.placed(g, image, scroll, limit);
    assert(after.vertices =~= p.vertices + end.vertices);
    assert(after.ops =~= p.ops + end.ops);
}

/// A glyph whose image is in the atlas is placed alike whether or not the image is
/// at hand.
pub proof fn law_images_in_the_atlas_are_not_needed(
    p: Pass,
    g: NonVectorGlyph,
    image: Option<RasterImage>,
    scroll: Seq<F32>,
    limit: int,
)
    requires
        p.atlas.cached.contains_key(g.physical.image),
    ensures
        p.placed(g, image, scroll, limit) == p.placed(g, None, scroll, limit),
{
}

/// Walking until a walk settles leads to the settled pass: a walk during which the
/// atlas grew is followed by another, and the first that needs no growth is the last.
pub proof fn law_walks_lead_to_the_settled_pass(
    p: Pass,
    glyphs: Seq<NonVectorGlyph>,
    images: Seq<Option<RasterImage>>,
    scroll: Seq<F32>,
    limit: int,
)
    requires
        0 < p.atlas.size,
        0 < limit,
    ensures
        ({
            let end = walked(fresh(p), glyphs, images, scroll, limit, glyphs.len() as int);
            settled(p, glyphs, images, scroll, limit) == (if end.grew {
                settled(fresh(end), glyphs, images, scroll, limit)
            } else {
                end
            })
        }),
{
    lemma_walk_size(fresh(p), glyphs, images, scroll, limit, glyphs.len() as int);
    let end = walked(fresh(p), glyphs, images, scroll, limit, glyphs.len() as int);
    reveal_with_fuel(settled, 2);
    assert(fresh(fresh(end)) == fresh(end));
}

/// Drawing ends with a walk during which the atlas did not grow, so every quad
/// refers to the atlas as it is left.
pub proof fn law_last_walk_does_not_grow(
    p: Pass,
    glyphs: Seq<NonVectorGlyph>,
    images: Seq<Option<RasterImage>>,
    scroll: Seq<F32>,
    limit: int,
)
    requires
        0 < p.atlas.size,
        0 < limit,
    ensures
        !settled(p, glyphs, images, scroll, limit).grew,
    decreases growths(p.atlas.size, limit),
{
    let n = glyphs.len() as int;
    let end = walked(fresh(p), glyphs, images, scroll, limit, n);
    lemma_walk_size(fresh(p), glyphs, images, scroll, limit, n);
    if end.grew {
        law_last_walk_does_not_grow(end, glyphs, images, scroll, limit);
    }
}

/// As long as the atlas does not grow, an image stays where it was entered.
pub proof fn law_images_stay_put(
    p: Pass,
    glyphs: Seq<NonVectorGlyph>,
    images: Seq<Option<RasterImage>>,
    scroll: Seq<F32>,
    limit: int,
    n: int,
    key: u128,
)
    requires
        p.atlas.cached.contains_key(key),
        !walked(p, glyphs, images, scroll, limit, n).grew,
    ensures
        walked(p, glyphs, images, scroll, limit, n).atlas.cached.contains_key(key),
        walked(p, glyphs, images, scroll, limit, n).atlas.cached[key] == p.atlas.cached[key],
    decreases n,
{
    if n > 0 {
        law_images_stay_put(p, glyphs, images, scroll, limit, n - 1, key);
    }
}

}
