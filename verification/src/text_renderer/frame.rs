//! The renderer's state and the planning of a frame.
use vstd::prelude::*;
use rustc_hash::FxHashMap;
use crate::float32::{F32, f_sub, HALF_BITS};
use crate::fx::{map_get, map_insert, map_new};
use crate::glyph_cache::GlyphKey;
use crate::text_atlas::{AtlasState, TextAtlas};
use crate::text_renderer::area::{AreaModel, CachedTextArea};
use crate::text_renderer::draws::OrderedDraw;
use crate::text_renderer::emit::AreaContext;
use crate::text_renderer::geometry::{GlyphInstance, PlacementClass, clipped, clipped_bounds};
use crate::text_renderer::keys::{sorted_keys, sorted_set};
use crate::text_renderer::layout::LayoutRun;
use crate::text_renderer::plan::{
    AreaPlan, MissArea, PlanModel, all_known, area_extents, area_id, area_key, class_of, classify, collect_runs,
    is_reusable, mark_all, marked_from, reusable, walk,
};
use crate::types::{
    DecorationExtents, PhysicalDecoration, PrepareError, Resolution, TextArea, drawable, first_fault, physical_list,
};
use crate::viewport::{Viewport, whole_pixels};

verus! {

/// How the areas of a frame were prepared.
#[derive(Clone, Copy, Debug, PartialEq, Eq, Structural)]
pub struct PrepareStats {
    pub direct_hits: usize,
    pub reculls: usize,
    pub misses: usize,
}

/// No areas.
pub open spec fn no_stats() -> PrepareStats {
    PrepareStats { direct_hits: 0, reculls: 0, misses: 0 }
}

impl Default for PrepareStats {
    fn default() -> (r: PrepareStats)
        ensures
            r == no_stats(),
    {
        PrepareStats { direct_hits: 0, reculls: 0, misses: 0 }
    }
}

/// A frame that is being prepared.
#[derive(Debug)]
pub struct Frame {
    pub(crate) resolution: Resolution,
    pub(crate) scroll: [F32; 2],
    pub(crate) generation: u32,
    pub(crate) plans: Vec<AreaPlan>,
    pub(crate) misses: Vec<GlyphKey>,
    pub(crate) all_direct_hits: bool,
    pub(crate) stats: PrepareStats,
    pub(crate) previous_instances: Vec<GlyphInstance>,
    pub(crate) previous_border_instances: Vec<GlyphInstance>,
    pub(crate) previously_drawn: usize,
}

/// The content of a [`Frame`].
pub ghost struct FrameModel {
    pub resolution: Resolution,
    pub scroll: [F32; 2],
    /// The atlas generation that the frame is prepared against.
    pub generation: u32,
    pub plans: Seq<PlanModel>,
    /// Glyphs that are not in the atlas, as often as they occur.
    pub misses: Seq<GlyphKey>,
    pub all_direct_hits: bool,
    pub stats: PrepareStats,
    /// The streams of the frame before.
    pub previous: Seq<GlyphInstance>,
    pub previous_border: Seq<GlyphInstance>,
    /// How many instances the vertex buffer held for drawing then.
    pub drawn: int,
}

/// The plans of a list.
pub open spec fn plan_models(plans: Seq<AreaPlan>) -> Seq<PlanModel> {
    plans.map_values(|p: AreaPlan| p.model())
}

impl Frame {
    pub open(crate) spec fn model(&self) -> FrameModel {
        FrameModel {
            resolution: self.resolution,
            scroll: self.scroll,
            generation: self.generation,
            plans: plan_models(self.plans@),
            misses: self.misses@,
            all_direct_hits: self.all_direct_hits,
            stats: self.stats,
            previous: self.previous_instances@,
            previous_border: self.previous_border_instances@,
            drawn: self.previously_drawn as int,
        }
    }

    /// The glyphs that have to be resolved before instances can be emitted, each
    /// once and in order.
    pub fn missing_glyphs(&self) -> (r: Vec<GlyphKey>)
        ensures
            sorted_set(r@, self.model().misses),
    {
        sorted_keys(&self.misses)
    }
}

impl FrameModel {
    /// Every planned area was counted, and an area that is laid out again knows
    /// whether it has decorations.
    pub open spec fn wf(self) -> bool {
        &&& self.stats.direct_hits + self.stats.reculls + self.stats.misses == self.plans.len()
        &&& forall|i: int| 0 <= i < self.plans.len() ==> (#[trigger] self.plans[i]).wf()
    }

    /// One more area.
    pub open spec fn with_plan(self, plan: PlanModel) -> FrameModel {
        FrameModel {
            plans: self.plans.push(plan),
            all_direct_hits: self.all_direct_hits && plan is HitDirect,
            stats: match plan {
                PlanModel::HitDirect { .. } => PrepareStats {
                    direct_hits: (self.stats.direct_hits + 1) as usize,
                    ..self.stats
                },
                PlanModel::ReCull { .. } => PrepareStats { reculls: (self.stats.reculls + 1) as usize, ..self.stats },
                PlanModel::Miss { .. } => PrepareStats { misses: (self.stats.misses + 1) as usize, ..self.stats },
            },
            ..self
        }
    }
}

/// Prepares text areas for drawing.
///
/// A frame is prepared in steps. [`TextRenderer::begin_frame`] starts it,
/// [`TextRenderer::plan_area`] adds an area, the caller resolves the glyphs of
/// [`Frame::missing_glyphs`] and the border data of
/// [`TextRenderer::border_requirements`] in the atlas, and
/// [`TextRenderer::emit`] produces the instances and draws.
#[derive(Debug)]
pub struct TextRenderer {
    pub(crate) instances: Vec<GlyphInstance>,
    pub(crate) border_instances: Vec<GlyphInstance>,
    pub(crate) draws: Vec<OrderedDraw>,
    pub(crate) glyphs_to_render: usize,
    pub(crate) raster_glyphs_to_render: usize,
    pub(crate) text_area_cache: FxHashMap<u128, CachedTextArea>,
    pub(crate) text_area_occurrences: FxHashMap<u128, usize>,
    pub(crate) last_prepare_stats: PrepareStats,
    pub(crate) cached_resolution: Resolution,
    pub(crate) prepared_atlas_generation: u32,
    pub(crate) atlas_id: u64,
    pub(crate) buffers: BufferSizes,
}

/// The sizes of the buffers that the caller holds for the renderer, in bytes.
#[derive(Clone, Copy, Debug, PartialEq, Eq, Structural)]
pub struct BufferSizes {
    pub vertices: u64,
    pub raster_vertices: u64,
    pub border_vertices: u64,
    /// `None` until there is one.
    pub border_uniforms: Option<u64>,
    /// The distance between two decoration uniforms.
    pub uniform_stride: u64,
}

/// The mathematical content of a renderer.
pub ghost struct RendererState {
    /// The atlas that instances refer to.
    pub atlas_id: u64,
    /// Prepared areas by identity.
    pub cache: Map<u128, AreaModel>,
    /// How many areas of the frame showed each buffer so far.
    pub counts: Map<u128, usize>,
    pub instances: Seq<GlyphInstance>,
    pub border: Seq<GlyphInstance>,
    pub draws: Seq<OrderedDraw>,
    /// Instances that the vertex buffer holds for drawing.
    pub glyphs: int,
    pub raster: int,
    pub stats: PrepareStats,
    pub resolution: Resolution,
    /// The atlas generation that instances refer to.
    pub generation: u32,
    pub buffers: BufferSizes,
}

/// The contents of the prepared areas.
pub open spec fn area_models(m: Map<u128, CachedTextArea>) -> Map<u128, AreaModel> {
    m.map_values(|c: CachedTextArea| c.model())
}

/// A prepared area's flags go with its instances, and its decoration stream holds
/// some of them.
pub open spec fn area_wf(a: AreaModel) -> bool {
    &&& a.decorated.len() == a.instances.len()
    &&& a.border.len() <= a.instances.len()
}

impl View for TextRenderer {
    type V = RendererState;

    open(crate) spec fn view(&self) -> RendererState {
        RendererState {
            atlas_id: self.atlas_id,
            cache: area_models(self.text_area_cache@),
            counts: self.text_area_occurrences@,
            instances: self.instances@,
            border: self.border_instances@,
            draws: self.draws@,
            glyphs: self.glyphs_to_render as int,
            raster: self.raster_glyphs_to_render as int,
            stats: self.last_prepare_stats,
            resolution: self.cached_resolution,
            generation: self.prepared_atlas_generation,
            buffers: self.buffers,
        }
    }
}

impl RendererState {
    /// Every prepared area is well formed.
    pub open spec fn wf(self) -> bool {
        forall|k: u128| #[trigger] self.cache.contains_key(k) ==> area_wf(self.cache[k])
    }

    /// How many areas of the frame showed a buffer so far.
    pub open spec fn occurrences(self, buffer: u64) -> usize {
        if self.counts.contains_key(buffer as u128) { self.counts[buffer as u128] } else { 0 }
    }

    /// A frame belongs to the renderer's state: nothing was emitted yet, its areas
    /// were counted, and the prepared areas that it reuses are there.
    pub open spec fn holds(self, f: FrameModel) -> bool {
        &&& f.wf()
        &&& self.instances.len() == 0
        &&& self.border.len() == 0
        &&& self.glyphs == 0
        &&& forall|b: u128| #[trigger] self.counts.contains_key(b) ==> self.counts[b] <= f.plans.len()
        &&& forall|i: int|
            0 <= i < f.plans.len() && !((#[trigger] f.plans[i]) is Miss) ==> self.cache.contains_key(f.plans[i].key())
        &&& forall|i: int| 0 <= i < f.plans.len() ==> shown(self.counts, (#[trigger] f.plans[i]).key())
        &&& forall|i: int, j: int|
            0 <= i < j < f.plans.len() ==> (#[trigger] f.plans[i]).key() != (#[trigger] f.plans[j]).key()
    }
}

/// An identity is that of an area which the frame showed.
pub open spec fn shown(counts: Map<u128, usize>, key: u128) -> bool {
    let buffer = (key as int % 0x1_0000_0000_0000_0000) as u128;
    counts.contains_key(buffer) && key as int / 0x1_0000_0000_0000_0000 < counts[buffer]
}

/// An identity gives back its buffer and its occurrence.
proof fn lemma_identity_parts(buffer: u64, occurrence: usize)
    ensures
        area_id(buffer, occurrence) as int % 0x1_0000_0000_0000_0000 == buffer,
        area_id(buffer, occurrence) as int / 0x1_0000_0000_0000_0000 == occurrence,
{
}

/// The prepared area that an area may reuse is there and fits it.
pub open spec fn candidate(s: RendererState, f: FrameModel, area: TextArea) -> bool {
    let key = area_id(area.buffer, s.occurrences(area.buffer));
    s.cache.contains_key(key) && reusable(s.cache[key], area, f.generation)
}

/// The atlas after the glyphs of a candidate were marked used.
pub open spec fn after_candidate(s: RendererState, f: FrameModel, atlas: AtlasState, area: TextArea) -> AtlasState {
    let key = area_id(area.buffer, s.occurrences(area.buffer));
    if candidate(s, f, area) { marked_from(atlas, s.cache[key].keys, 0) } else { atlas }
}

/// How an area is prepared.
pub open spec fn area_class(s: RendererState, f: FrameModel, atlas: AtlasState, area: TextArea) -> PlacementClass {
    let key = area_id(area.buffer, s.occurrences(area.buffer));
    if candidate(s, f, area) && all_known(atlas, s.cache[key].keys) {
        class_of(s.cache[key], area, f.scroll@)
    } else {
        PlacementClass::Miss
    }
}

/// The renderer after an area was counted.
pub open spec fn counted(s: RendererState, area: TextArea) -> RendererState {
    RendererState {
        counts: s.counts.insert(area.buffer as u128, (s.occurrences(area.buffer) + 1) as usize),
        ..s
    }
}

/// What the instances of an area depend on beside its glyphs.
pub open spec fn area_context(f: FrameModel, area: TextArea) -> AreaContext {
    AreaContext {
        left: area.left,
        top: area.top,
        scale: area.scale,
        default_color: area.default_color,
        clip: clipped(area.bounds, f.resolution),
        scroll: f.scroll,
        extents: area_extents(area),
        decorated: area.decorations@.len() > 0,
    }
}

/// The plan of an area, the frame and the atlas after it.
pub open spec fn planned(s: RendererState, f: FrameModel, atlas: AtlasState, area: TextArea, runs: Seq<LayoutRun>) -> (
    FrameModel,
    AtlasState,
) {
    let key = area_id(area.buffer, s.occurrences(area.buffer));
    let ctx = area_context(f, area);
    let marked = after_candidate(s, f, atlas, area);
    match area_class(s, f, atlas, area) {
        PlacementClass::Direct => (
            f.with_plan(
                PlanModel::HitDirect { key, decorations: physical_list(area), bounds: ctx.clip },
            ),
            marked,
        ),
        PlacementClass::ReCull => (
            f.with_plan(
                PlanModel::ReCull {
                    key,
                    dx: f_sub(area.left, s.cache[key].left),
                    dy: f_sub(area.top, s.cache[key].top),
                    left: area.left,
                    top: area.top,
                    bounds: ctx.clip,
                    scroll: f.scroll,
                    decorations: physical_list(area),
                    extents: ctx.extents,
                },
            ),
            marked,
        ),
        PlacementClass::Miss => {
            let w = walk(runs, ctx, marked, f.misses, runs.len() as int);
            let plan = PlanModel::Miss {
                key,
                ctx,
                area_bounds: area.bounds,
                work: w.work,
                all_runs_included: w.all_runs_included,
                decorations: physical_list(area),
            };
            (FrameModel { misses: w.misses, ..f }.with_plan(plan), w.atlas)
        },
    }
}

/// A frame was started: nothing is planned or drawable yet, the streams of the frame
/// before are kept for comparison, and the prepared areas stay if the target has the
/// same size.
pub open spec fn begun(before: RendererState, s: RendererState, f: FrameModel) -> bool {
    &&& f.plans.len() == 0
    &&& f.misses.len() == 0
    &&& f.all_direct_hits
    &&& f.stats == no_stats()
    &&& f.previous == before.instances
    &&& f.previous_border == before.border
    &&& f.drawn == before.glyphs
    &&& s == (RendererState {
        cache: if f.resolution == before.resolution { before.cache } else { Map::empty() },
        counts: Map::empty(),
        instances: Seq::empty(),
        border: Seq::empty(),
        draws: Seq::empty(),
        glyphs: 0,
        raster: 0,
        resolution: f.resolution,
        ..before
    })
}

impl TextRenderer {
    /// A renderer for the given atlas. Its vertex buffers have their initial size.
    pub fn new(atlas: &TextAtlas) -> (r: TextRenderer)
        ensures
            r@.wf(),
            r@.atlas_id == atlas@.id,
            r@.cache == Map::<u128, AreaModel>::empty(),
            r@.counts == Map::<u128, usize>::empty(),
            r@.instances.len() == 0,
            r@.border.len() == 0,
            r@.draws.len() == 0,
            r@.glyphs == 0,
            r@.raster == 0,
            r@.stats == no_stats(),
            r@.resolution == (Resolution { width: 0, height: 0 }),
            r@.generation == 0,
            r@.buffers == (BufferSizes {
                vertices: 4096,
                raster_vertices: 4096,
                border_vertices: 0,
                border_uniforms: None,
                uniform_stride: 0,
            }),
    {
        let r = TextRenderer {
            instances: Vec::new(),
            border_instances: Vec::new(),
            draws: Vec::new(),
            glyphs_to_render: 0,
            raster_glyphs_to_render: 0,
            text_area_cache: map_new(),
            text_area_occurrences: map_new(),
            last_prepare_stats: PrepareStats { direct_hits: 0, reculls: 0, misses: 0 },
            cached_resolution: Resolution { width: 0, height: 0 },
            prepared_atlas_generation: 0,
            atlas_id: atlas.id(),
            buffers: BufferSizes {
                vertices: 4096,
                raster_vertices: 4096,
                border_vertices: 0,
                border_uniforms: None,
                uniform_stride: 0,
            },
        };
        assert(r@.cache =~= Map::<u128, AreaModel>::empty());
        r
    }

    /// Starts a frame. Whatever happens to the frame from here on, the renderer
    /// draws nothing until it has been prepared again. Prepared areas are dropped
    /// when the target's size changed.
    pub fn begin_frame(&mut self, atlas: &TextAtlas, viewport: &Viewport) -> (frame: Frame)
        requires
            old(self)@.wf(),
            atlas@.id == old(self)@.atlas_id,
        ensures
            final(self)@.wf(),
            final(self)@.holds(frame.model()),
            ({
                let f = frame.model();
                let before = old(self)@;
                &&& f.resolution.width == whole_pixels(viewport.block().screen_size@[0])
                &&& f.resolution.height == whole_pixels(viewport.block().screen_size@[1])
                &&& f.scroll == viewport.block().scroll_offset
                &&& f.generation == atlas@.generation
                &&& begun(before, final(self)@, f)
            }),
    {
        let mut previous_instances: Vec<GlyphInstance> = Vec::new();
        let mut previous_border_instances: Vec<GlyphInstance> = Vec::new();
        std::mem::swap(&mut previous_instances, &mut self.instances);
        std::mem::swap(&mut previous_border_instances, &mut self.border_instances);
        self.draws = Vec::new();
        let previously_drawn: usize = self.glyphs_to_render;
        self.glyphs_to_render = 0;
        self.raster_glyphs_to_render = 0;
        self.text_area_occurrences = map_new();
        let resolution: Resolution = viewport.resolution();
        if resolution != self.cached_resolution {
            self.text_area_cache = map_new();
            self.cached_resolution = resolution;
            assert(self@.cache =~= Map::<u128, AreaModel>::empty());
        }
        let frame = Frame {
            resolution,
            scroll: viewport.scroll_offset(),
            generation: atlas.generation(),
            plans: Vec::new(),
            misses: Vec::new(),
            all_direct_hits: true,
            stats: PrepareStats { direct_hits: 0, reculls: 0, misses: 0 },
            previous_instances,
            previous_border_instances,
            previously_drawn,
        };
        assert(self@.counts =~= Map::<u128, usize>::empty());
        assert(self@.instances =~= Seq::empty() && self@.border =~= Seq::empty() && self@.draws =~= Seq::empty());
        assert(self@.cache == old(self)@.cache || self@.cache == Map::<u128, AreaModel>::empty());
        assert(begun(old(self)@, self@, frame.model()));
        frame
    }
}

impl TextRenderer {
    /// How an area would be prepared. Only an area that misses needs its layout.
    pub fn classify_area(&self, frame: &Frame, atlas: &TextAtlas, area: &TextArea) -> (r: PlacementClass)
        requires
            drawable(area.decorations@),
        ensures
            r == area_class(self@, frame.model(), atlas@, *area),
    {
        let count: usize = match map_get(&self.text_area_occurrences, area.buffer as u128) {
            Some(count) => *count,
            None => 0,
        };
        let key: u128 = area_key(area.buffer, count);
        let cached = match map_get(&self.text_area_cache, key) {
            Some(cached) => cached,
            None => return PlacementClass::Miss,
        };
        assert(self@.cache[key] == cached.model());
        if !is_reusable(cached, area, frame.generation) {
            return PlacementClass::Miss;
        }
        for i in 0..cached.distinct_keys.len()
            invariant
                forall|j: int| 0 <= j < i ==> atlas@.glyphs.contains_key((#[trigger] cached.distinct_keys@[j]).id()),
                key == area_id(area.buffer, self@.occurrences(area.buffer)),
                self@.cache.contains_key(key),
                self@.cache[key] == cached.model(),
        {
            if atlas.glyph(&cached.distinct_keys[i]).is_none() {
                assert(!atlas@.glyphs.contains_key(cached.distinct_keys@[i as int].id()));
                return PlacementClass::Miss;
            }
        }
        match area.physical_decorations() {
            Ok(decorations) => {
                let half: F32 = F32 { bits: HALF_BITS };
                let extents = DecorationExtents::of(decorations.as_slice(), half);
                classify(cached, area, &extents, frame.scroll)
            },
            Err(_) => PlacementClass::Miss,
        }
    }

    /// Adds an area to a frame. `runs` is the area's layout; it matters only for an
    /// area that misses (see [`TextRenderer::classify_area`]).
    ///
    /// Fails for an area whose decorations cannot be drawn; the frame is then given
    /// up.
    pub fn plan_area(&mut self, frame: &mut Frame, atlas: &mut TextAtlas, area: &TextArea, runs: &Vec<LayoutRun>) -> (r:
        Result<(), PrepareError>)
        requires
            old(self)@.wf(),
            old(self)@.holds(old(frame).model()),
            old(frame).model().plans.len() < usize::MAX,
            old(atlas).wf(),
        ensures
            final(self)@.wf(),
            final(atlas).wf(),
            final(self)@ == counted(old(self)@, *area),
            r.is_ok() <==> drawable(area.decorations@),
            r is Ok ==> {
                &&& final(self)@.holds(final(frame).model())
                &&& (final(frame).model(), final(atlas)@) == planned(
                    old(self)@,
                    old(frame).model(),
                    old(atlas)@,
                    *area,
                    runs@,
                )
            },
            r is Err ==> {
                &&& final(frame).model() == old(frame).model()
                &&& final(atlas)@ == after_candidate(old(self)@, old(frame).model(), old(atlas)@, *area)
                &&& r->Err_0 is InvalidDecorations
                &&& first_fault(area.decorations@, r->Err_0->InvalidDecorations_0)
            },
    {
        let ghost s = self@;
        let ghost f = frame.model();
        let ghost first = atlas@;
        let count: usize = match map_get(&self.text_area_occurrences, area.buffer as u128) {
            Some(count) => *count,
            None => 0,
        };
        assert(count == s.occurrences(area.buffer));
        let key: u128 = area_key(area.buffer, count);
        map_insert(&mut self.text_area_occurrences, area.buffer as u128, count + 1);
        let mut known: bool = false;
        if let Some(cached) = map_get(&self.text_area_cache, key) {
            assert(s.cache[key] == cached.model());
            if is_reusable(cached, area, frame.generation) {
                known = mark_all(atlas, &cached.distinct_keys);
            }
        }
        assert(known == (candidate(s, f, *area) && all_known(first, s.cache[key].keys)));
        let decorations: Vec<PhysicalDecoration> = match area.physical_decorations() {
            Ok(decorations) => decorations,
            Err(e) => return Err(e),
        };
        let half: F32 = F32 { bits: HALF_BITS };
        let extents = DecorationExtents::of(decorations.as_slice(), half);
        let bounds: [i32; 4] = clipped_bounds(area.bounds, frame.resolution);
        let mut class: PlacementClass = PlacementClass::Miss;
        let mut dx: F32 = half;
        let mut dy: F32 = half;
        if known {
            if let Some(cached) = map_get(&self.text_area_cache, key) {
                class = classify(cached, area, &extents, frame.scroll);
                dx = area.left.minus(cached.left);
                dy = area.top.minus(cached.top);
            }
        }
        assert(class == area_class(s, f, first, *area));
        let ctx = AreaContext {
            left: area.left,
            top: area.top,
            scale: area.scale,
            default_color: area.default_color,
            clip: bounds,
            scroll: frame.scroll,
            extents,
            decorated: area.decorations.len() > 0,
        };
        assert(ctx == area_context(f, *area));
        let ghost plans = frame.plans@;
        match class {
            PlacementClass::Direct => {
                frame.stats.direct_hits = frame.stats.direct_hits + 1;
                frame.plans.push(AreaPlan::HitDirect { cache_key: key, decorations, bounds });
            },
            PlacementClass::ReCull => {
                frame.all_direct_hits = false;
                frame.stats.reculls = frame.stats.reculls + 1;
                frame.plans.push(
                    AreaPlan::ReCull {
                        cache_key: key,
                        dx,
                        dy,
                        left: area.left,
                        top: area.top,
                        bounds,
                        scroll: frame.scroll,
                        decorations,
                        extents,
                    },
                );
            },
            PlacementClass::Miss => {
                frame.all_direct_hits = false;
                frame.stats.misses = frame.stats.misses + 1;
                let (work, all_runs_included) = collect_runs(runs, &ctx, atlas, &mut frame.misses);
                frame.plans.push(
                    AreaPlan::Miss(
                        MissArea { cache_key: key, ctx, bounds: area.bounds, work, all_runs_included, decorations },
                    ),
                );
            },
        }
        proof {
            let plan = frame.plans@.last();
            assert(frame.plans@ == plans.push(plan));
            assert(plan_models(frame.plans@) =~= plan_models(plans).push(plan.model()));
            let target = planned(s, f, first, *area, runs@).0;
            assert(frame.model().plans =~= target.plans);
            let g = frame.model();
            assert forall|i: int| 0 <= i < g.plans.len() && !((#[trigger] g.plans[i]) is Miss) implies self@.cache.contains_key(
                g.plans[i].key(),
            ) by {
                if i < f.plans.len() {
                    assert(g.plans[i] == f.plans[i]);
                }
            }
            assert forall|i: int| 0 <= i < g.plans.len() implies (#[trigger] g.plans[i]).wf() by {
                if i < f.plans.len() {
                    assert(g.plans[i] == f.plans[i]);
                }
            }
            lemma_identity_parts(area.buffer, count);
            assert forall|i: int| 0 <= i < f.plans.len() implies (#[trigger] g.plans[i]).key() != key && shown(
                self@.counts,
                g.plans[i].key(),
            ) by {
                assert(g.plans[i] == f.plans[i]);
                assert(shown(s.counts, f.plans[i].key()));
            }
            assert(g.plans.last().key() == key);
            assert(shown(self@.counts, key));
            assert forall|i: int, j: int| 0 <= i < j < g.plans.len() implies (#[trigger] g.plans[i]).key() != (
            #[trigger] g.plans[j]).key() by {
                assert(g.plans[i] == f.plans[i]);
                if j < f.plans.len() {
                    assert(g.plans[j] == f.plans[j]);
                }
            }
        }
        Ok(())
    }
}

}
