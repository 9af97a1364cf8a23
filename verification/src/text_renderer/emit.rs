//! Instances of a laid-out area.
//!
//! Every glyph of an area becomes instances according to its kind: an image, a
//! sequence of color commands, a stack of colored layers, or an outline in one
//! color. Only outlines in one color are decorated.
use vstd::prelude::*;
use crate::float32::{F32, f_add, f_div, f_mul, f_round, f_sub};
use crate::glyph_cache::{
    COLOR_V1_VECTOR_OFFSET, COLOR_VECTOR_OFFSET, ColorGlyphEntry, ColorGlyphLayer, ColorV1GlyphEntry, GlyphEntry,
    GlyphKey, NON_VECTOR_OFFSET, monochrome,
};
use crate::raster_text::NonVectorGlyph;
use crate::text_atlas::{AtlasState, TextAtlas, border_start};
use crate::text_renderer::geometry::{GlyphInstance, rect_meets, vector_rect_visible};
use crate::text_renderer::layout::LayoutGlyph;
use crate::types::{DecorationExtents, channels, color_to_f32, no_extents};

verus! {

/// A glyph of a line, with the line's baseline.
#[derive(Clone, Copy, Debug)]
pub struct WorkItem {
    pub glyph: LayoutGlyph,
    pub line_y: F32,
}

/// What the instances of an area depend on beside its glyphs.
#[derive(Clone, Copy, Debug)]
pub struct AreaContext {
    pub left: F32,
    pub top: F32,
    pub scale: F32,
    /// `0xAARRGGBB`.
    pub default_color: u32,
    pub clip: [i32; 4],
    pub scroll: [F32; 2],
    pub extents: DecorationExtents,
    /// Whether the area has decorations.
    pub decorated: bool,
}

/// What is emitted for an area.
pub ghost struct Emitted {
    pub instances: Seq<GlyphInstance>,
    /// Per instance: whether it is an outline in one color.
    pub decorated: Seq<bool>,
    pub raster: Seq<NonVectorGlyph>,
    /// The outlines in one color again, with their border data.
    pub border: Seq<GlyphInstance>,
    pub keys: Seq<GlyphKey>,
    /// Whether every instance was visible.
    pub complete: bool,
}

/// The color of a glyph that carries or inherits one.
pub open spec fn glyph_color(ctx: AreaContext, glyph: LayoutGlyph) -> [F32; 4] {
    match glyph.color {
        Some(c) => channels(c),
        None => channels(ctx.default_color),
    }
}

/// The size that a glyph is drawn at.
pub open spec fn glyph_ppem(ctx: AreaContext, glyph: LayoutGlyph) -> F32 {
    f_mul(glyph.font_size, ctx.scale)
}

/// The quad of a glyph with the given bounds, in font units.
#[verifier::opaque]
pub open spec fn glyph_quad(ctx: AreaContext, item: WorkItem, bounds: Seq<F32>, units_per_em: F32) -> [F32; 4] {
    let scale = f_div(glyph_ppem(ctx, item.glyph), units_per_em);
    let x = f_add(ctx.left, f_mul(f_add(item.glyph.x, item.glyph.x_offset), ctx.scale));
    let y = f_add(ctx.top, f_mul(f_add(item.line_y, item.glyph.y_offset), ctx.scale));
    [
        f_add(x, f_mul(bounds[0], scale)),
        f_sub(y, f_mul(bounds[3], scale)),
        f_mul(f_sub(bounds[2], bounds[0]), scale),
        f_mul(f_sub(bounds[3], bounds[1]), scale),
    ]
}

/// The instance of a glyph.
pub open spec fn instance_of(ctx: AreaContext, item: WorkItem, rect: [F32; 4], color: [F32; 4], offset: u32, texels: u32) -> GlyphInstance {
    GlyphInstance {
        screen_rect: rect,
        color,
        glyph_offset: offset,
        cmd_texel_count: texels,
        depth: item.glyph.depth,
        ppem: glyph_ppem(ctx, item.glyph),
    }
}

/// A quad of the area is visible.
pub open spec fn visible(ctx: AreaContext, rect: [F32; 4], extents: DecorationExtents) -> bool {
    rect_meets(rect@, ctx.scroll@, ctx.clip@, extents)
}

/// A glyph that is drawn from its image.
pub open spec fn raster_glyph(ctx: AreaContext, item: WorkItem) -> NonVectorGlyph {
    NonVectorGlyph {
        physical: item.glyph.physical,
        color: glyph_color(ctx, item.glyph),
        depth: item.glyph.depth,
        line_y_scaled_rounded: f_round(f_mul(item.line_y, ctx.scale)),
        clip_bounds: ctx.clip,
    }
}

impl Emitted {
    /// One more undecorated instance, if its quad is visible.
    pub open spec fn with_plain(self, ctx: AreaContext, instance: GlyphInstance) -> Emitted {
        if visible(ctx, instance.screen_rect, no_extents()) {
            Emitted {
                instances: self.instances.push(instance),
                decorated: self.decorated.push(false),
                ..self
            }
        } else {
            Emitted { complete: false, ..self }
        }
    }

    /// The instance of a glyph that is drawn by commands.
    #[verifier::opaque]
    pub open spec fn with_commands(self, ctx: AreaContext, item: WorkItem, entry: ColorV1GlyphEntry) -> Emitted {
        let rect = glyph_quad(ctx, item, entry.bounds@, entry.units_per_em);
        self.with_plain(
            ctx,
            instance_of(
                ctx,
                item,
                rect,
                glyph_color(ctx, item.glyph),
                entry.glyph_offset,
                entry.cmd_texel_count,
            ),
        )
    }

    /// The instance of a layer, unless it is empty.
    #[verifier::opaque]
    pub open spec fn with_layer(self, ctx: AreaContext, item: WorkItem, layer: ColorGlyphLayer, units_per_em: F32) -> Emitted {
        if layer.entry.glyph_offset == NON_VECTOR_OFFSET {
            self
        } else {
            let rect = glyph_quad(ctx, item, layer.entry.bounds@, units_per_em);
            let color = if layer.use_foreground { glyph_color(ctx, item.glyph) } else { layer.color };
            self.with_plain(ctx, instance_of(ctx, item, rect, color, layer.entry.glyph_offset, 0))
        }
    }

    /// The instances of the first `n` layers, back to front.
    pub open spec fn with_layers(self, ctx: AreaContext, item: WorkItem, entry: ColorGlyphEntry, n: int) -> Emitted
        decreases n,
    {
        if n <= 0 {
            self
        } else {
            self.with_layers(ctx, item, entry, n - 1).with_layer(ctx, item, entry.layers@[n - 1], entry.units_per_em)
        }
    }

    /// The instance of an outline in one color, and its decorated twin.
    #[verifier::opaque]
    pub open spec fn with_outline(self, ctx: AreaContext, item: WorkItem, entry: GlyphEntry, border: Option<u32>) -> Emitted {
        let rect = glyph_quad(ctx, item, entry.bounds@, entry.units_per_em);
        let fill = instance_of(ctx, item, rect, glyph_color(ctx, item.glyph), entry.glyph_offset, 0);
        if visible(ctx, rect, ctx.extents) {
            Emitted {
                instances: self.instances.push(fill),
                decorated: self.decorated.push(true),
                border: if ctx.decorated {
                    self.border.push(GlyphInstance { glyph_offset: border->0, ..fill })
                } else {
                    self.border
                },
                ..self
            }
        } else {
            Emitted { complete: false, ..self }
        }
    }

    /// The instances of one more glyph.
    pub open spec fn with_item(self, ctx: AreaContext, item: WorkItem, atlas: AtlasState) -> Emitted {
        let id = item.glyph.key.id();
        let entry = atlas.glyphs[id];
        let known = Emitted { keys: self.keys.push(item.glyph.key), ..self };
        if entry.glyph_offset == NON_VECTOR_OFFSET {
            Emitted { raster: known.raster.push(raster_glyph(ctx, item)), ..known }
        } else if entry.glyph_offset == COLOR_V1_VECTOR_OFFSET {
            if atlas.commands.contains_key(id) {
                known.with_commands(ctx, item, atlas.commands[id])
            } else {
                Emitted { complete: false, ..known }
            }
        } else if entry.glyph_offset == COLOR_VECTOR_OFFSET {
            if atlas.layers.contains_key(id) {
                known.with_layers(ctx, item, atlas.layers[id], atlas.layers[id].layers@.len() as int)
            } else {
                Emitted { complete: false, ..known }
            }
        } else {
            known.with_outline(ctx, item, entry, border_start(atlas, id))
        }
    }
}

/// What the first `n` glyphs of an area become.
pub open spec fn emitted(ctx: AreaContext, work: Seq<WorkItem>, atlas: AtlasState, complete: bool, n: int) -> Emitted
    decreases n,
{
    if n <= 0 {
        Emitted {
            instances: Seq::empty(),
            decorated: Seq::empty(),
            raster: Seq::empty(),
            border: Seq::empty(),
            keys: Seq::empty(),
            complete,
        }
    } else {
        emitted(ctx, work, atlas, complete, n - 1).with_item(ctx, work[n - 1], atlas)
    }
}

/// The atlas holds what a glyph needs: its entry and, under decorations, its
/// border data.
pub open spec fn item_ready(item: WorkItem, atlas: AtlasState, decorated: bool) -> bool {
    let id = item.glyph.key.id();
    &&& atlas.glyphs.contains_key(id)
    &&& decorated && monochrome(atlas.glyphs[id]) ==> border_start(atlas, id).is_some()
}

/// The atlas holds what every glyph needs.
pub open spec fn work_ready(work: Seq<WorkItem>, atlas: AtlasState, decorated: bool) -> bool {
    forall|i: int| 0 <= i < work.len() ==> item_ready(#[trigger] work[i], atlas, decorated)
}

/// What is emitted for an area, as it grows.
#[derive(Debug)]
pub struct AreaOutput {
    pub instances: Vec<GlyphInstance>,
    pub decorated: Vec<bool>,
    pub raster: Vec<NonVectorGlyph>,
    pub border: Vec<GlyphInstance>,
    pub keys: Vec<GlyphKey>,
    pub complete: bool,
}

impl AreaContext {
    fn color(&self, glyph: &LayoutGlyph) -> (r: [F32; 4])
        ensures
            r == glyph_color(*self, *glyph),
    {
        match glyph.color {
            Some(c) => color_to_f32(c),
            None => color_to_f32(self.default_color),
        }
    }

    fn quad(&self, item: &WorkItem, bounds: &[F32; 4], units_per_em: F32) -> (r: [F32; 4])
        ensures
            r == glyph_quad(*self, *item, bounds@, units_per_em),
    {
        reveal(glyph_quad);
        let scale: F32 = item.glyph.font_size.times(self.scale).over(units_per_em);
        let x: F32 = self.left.plus(item.glyph.x.plus(item.glyph.x_offset).times(self.scale));
        let y: F32 = self.top.plus(item.line_y.plus(item.glyph.y_offset).times(self.scale));
        [
            x.plus(bounds[0].times(scale)),
            y.minus(bounds[3].times(scale)),
            bounds[2].minus(bounds[0]).times(scale),
            bounds[3].minus(bounds[1]).times(scale),
        ]
    }

    fn instance(&self, item: &WorkItem, rect: [F32; 4], color: [F32; 4], offset: u32, texels: u32) -> (r: GlyphInstance)
        ensures
            r == instance_of(*self, *item, rect, color, offset, texels),
    {
        GlyphInstance {
            screen_rect: rect,
            color,
            glyph_offset: offset,
            cmd_texel_count: texels,
            depth: item.glyph.depth,
            ppem: item.glyph.font_size.times(self.scale),
        }
    }
}

impl AreaOutput {
    pub open spec fn model(&self) -> Emitted {
        Emitted {
            instances: self.instances@,
            decorated: self.decorated@,
            raster: self.raster@,
            border: self.border@,
            keys: self.keys@,
            complete: self.complete,
        }
    }

    fn push_plain(&mut self, ctx: &AreaContext, instance: GlyphInstance)
        ensures
            final(self).model() == old(self).model().with_plain(*ctx, instance),
    {
        let zero: F32 = F32 { bits: 0 };
        let none = DecorationExtents { left: zero, top: zero, right: zero, bottom: zero };
        if vector_rect_visible(instance.screen_rect, ctx.scroll, ctx.clip, none) {
            self.instances.push(instance);
            self.decorated.push(false);
        } else {
            self.complete = false;
        }
    }

    fn push_commands(&mut self, ctx: &AreaContext, item: &WorkItem, entry: &ColorV1GlyphEntry)
        ensures
            final(self).model() == old(self).model().with_commands(*ctx, *item, *entry),
    {
        reveal(Emitted::with_commands);
        let rect: [F32; 4] = ctx.quad(item, &entry.bounds, entry.units_per_em);
        let color: [F32; 4] = ctx.color(&item.glyph);
        self.push_plain(ctx, ctx.instance(item, rect, color, entry.glyph_offset, entry.cmd_texel_count));
    }

    fn push_layer(&mut self, ctx: &AreaContext, item: &WorkItem, layer: &ColorGlyphLayer, units_per_em: F32)
        ensures
            final(self).model() == old(self).model().with_layer(*ctx, *item, *layer, units_per_em),
    {
        reveal(Emitted::with_layer);
        if layer.entry.is_non_vector() {
            return;
        }
        let rect: [F32; 4] = ctx.quad(item, &layer.entry.bounds, units_per_em);
        let color: [F32; 4] = if layer.use_foreground { ctx.color(&item.glyph) } else { layer.color };
        self.push_plain(ctx, ctx.instance(item, rect, color, layer.entry.glyph_offset, 0));
    }

    fn push_layers(&mut self, ctx: &AreaContext, item: &WorkItem, entry: &ColorGlyphEntry)
        ensures
            final(self).model() == old(self).model().with_layers(*ctx, *item, *entry, entry.layers@.len() as int),
    {
        let ghost start = self.model();
        for i in 0..entry.layers.len()
            invariant
                self.model() == start.with_layers(*ctx, *item, *entry, i as int),
        {
            self.push_layer(ctx, item, &entry.layers[i], entry.units_per_em);
        }
    }

    fn push_outline(&mut self, ctx: &AreaContext, item: &WorkItem, entry: &GlyphEntry, border: Option<u32>)
        requires
            ctx.decorated ==> border.is_some(),
        ensures
            final(self).model() == old(self).model().with_outline(*ctx, *item, *entry, border),
    {
        reveal(Emitted::with_outline);
        let rect: [F32; 4] = ctx.quad(item, &entry.bounds, entry.units_per_em);
        if !vector_rect_visible(rect, ctx.scroll, ctx.clip, ctx.extents) {
            self.complete = false;
            return;
        }
        let color: [F32; 4] = ctx.color(&item.glyph);
        let fill: GlyphInstance = ctx.instance(item, rect, color, entry.glyph_offset, 0);
        self.instances.push(fill);
        self.decorated.push(true);
        if ctx.decorated {
            if let Some(start) = border {
                self.border.push(GlyphInstance { glyph_offset: start, ..fill });
            }
        }
    }

    fn push_item(&mut self, ctx: &AreaContext, item: &WorkItem, atlas: &TextAtlas)
        requires
            item_ready(*item, atlas@, ctx.decorated),
        ensures
            final(self).model() == old(self).model().with_item(*ctx, *item, atlas@),
    {
        let key: GlyphKey = item.glyph.key;
        let entry: GlyphEntry = match atlas.glyph(&key) {
            Some(entry) => entry,
            None => return,
        };
        self.keys.push(key);
        if entry.is_non_vector() {
            let glyph = NonVectorGlyph {
                physical: item.glyph.physical,
                color: ctx.color(&item.glyph),
                depth: item.glyph.depth,
                line_y_scaled_rounded: item.line_y.times(ctx.scale).round(),
                clip_bounds: ctx.clip,
            };
            self.raster.push(glyph);
        } else if entry.is_color_v1_vector() {
            match atlas.color_v1_glyph(&key) {
                Some(commands) => self.push_commands(ctx, item, commands),
                None => {
                    self.complete = false;
                },
            }
        } else if entry.is_color_vector() {
            match atlas.color_glyph(&key) {
                Some(layers) => self.push_layers(ctx, item, layers),
                None => {
                    self.complete = false;
                },
            }
        } else {
            self.push_outline(ctx, item, &entry, atlas.border_descriptor(&key));
        }
    }

    /// Emits the glyphs of an area in order.
    pub fn of_area(ctx: &AreaContext, work: &Vec<WorkItem>, atlas: &TextAtlas, all_runs_included: bool) -> (r: AreaOutput)
        requires
            work_ready(work@, atlas@, ctx.decorated),
        ensures
            r.model() == emitted(*ctx, work@, atlas@, all_runs_included, work@.len() as int),
    {
        let mut r = AreaOutput {
            instances: Vec::new(),
            decorated: Vec::new(),
            raster: Vec::new(),
            border: Vec::new(),
            keys: Vec::new(),
            complete: all_runs_included,
        };
        for i in 0..work.len()
            invariant
                work_ready(work@, atlas@, ctx.decorated),
                r.model() == emitted(*ctx, work@, atlas@, all_runs_included, i as int),
        {
            assert(item_ready(work@[i as int], atlas@, ctx.decorated));
            r.push_item(ctx, &work[i], atlas);
        }
        r
    }
}

}
