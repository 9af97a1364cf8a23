//! First pass over a frame's areas: which prepared areas are reused, and what is
//! laid out again.
use vstd::prelude::*;
use crate::float32::{F32, f_eq, f_sub, HALF_BITS};
use crate::glyph_cache::GlyphKey;
use crate::text_atlas::{AtlasState, TextAtlas};
use crate::text_renderer::area::{AreaModel, CachedTextArea};
use crate::text_renderer::emit::{AreaContext, WorkItem};
use crate::text_renderer::geometry::{PlacementClass, classify_placement, placement_class, run_is_visible, run_meets};
use crate::text_renderer::layout::{LayoutGlyph, LayoutRun};
use crate::types::{
    DecorationExtents, PhysicalDecoration, TextArea, TextBounds, extents_of, physical_list, same_extents,
};
use crate::viewport::same_pair;

verus! {

/// What is done with an area.
#[derive(Debug)]
pub enum AreaPlan {
    /// The prepared area is drawn as it is.
    HitDirect { cache_key: u128, decorations: Vec<PhysicalDecoration>, bounds: [i32; 4] },
    /// The prepared area is moved and culled again.
    ReCull {
        cache_key: u128,
        dx: F32,
        dy: F32,
        left: F32,
        top: F32,
        bounds: [i32; 4],
        scroll: [F32; 2],
        decorations: Vec<PhysicalDecoration>,
        extents: DecorationExtents,
    },
    /// The area is emitted from its layout.
    Miss(MissArea),
}

/// An area that is emitted from its layout.
#[derive(Debug)]
pub struct MissArea {
    pub cache_key: u128,
    pub ctx: AreaContext,
    pub bounds: TextBounds,
    pub work: Vec<WorkItem>,
    pub all_runs_included: bool,
    pub decorations: Vec<PhysicalDecoration>,
}

/// The content of an [`AreaPlan`].
pub ghost enum PlanModel {
    HitDirect { key: u128, decorations: Seq<PhysicalDecoration>, bounds: [i32; 4] },
    ReCull {
        key: u128,
        dx: F32,
        dy: F32,
        left: F32,
        top: F32,
        bounds: [i32; 4],
        scroll: [F32; 2],
        decorations: Seq<PhysicalDecoration>,
        extents: DecorationExtents,
    },
    Miss {
        key: u128,
        ctx: AreaContext,
        area_bounds: TextBounds,
        work: Seq<WorkItem>,
        all_runs_included: bool,
        decorations: Seq<PhysicalDecoration>,
    },
}

impl AreaPlan {
    pub open spec fn model(&self) -> PlanModel {
        match *self {
            AreaPlan::HitDirect { cache_key, decorations, bounds } => PlanModel::HitDirect {
                key: cache_key,
                decorations: decorations@,
                bounds,
            },
            AreaPlan::ReCull { cache_key, dx, dy, left, top, bounds, scroll, decorations, extents } => PlanModel::ReCull {
                key: cache_key,
                dx,
                dy,
                left,
                top,
                bounds,
                scroll,
                decorations: decorations@,
                extents,
            },
            AreaPlan::Miss(area) => PlanModel::Miss {
                key: area.cache_key,
                ctx: area.ctx,
                area_bounds: area.bounds,
                work: area.work@,
                all_runs_included: area.all_runs_included,
                decorations: area.decorations@,
            },
        }
    }

    /// The area's decorations, whatever is done with it.
    pub fn decorations(&self) -> (r: &Vec<PhysicalDecoration>)
        ensures
            r@ == self.model().list(),
    {
        match self {
            AreaPlan::HitDirect { decorations, .. } => decorations,
            AreaPlan::ReCull { decorations, .. } => decorations,
            AreaPlan::Miss(area) => &area.decorations,
        }
    }

    /// The visible rectangle of the area.
    pub fn clip(&self) -> (r: [i32; 4])
        ensures
            r == self.model().clip(),
    {
        match self {
            AreaPlan::HitDirect { bounds, .. } => *bounds,
            AreaPlan::ReCull { bounds, .. } => *bounds,
            AreaPlan::Miss(area) => area.ctx.clip,
        }
    }
}

impl PlanModel {
    /// The area's decorations.
    pub open spec fn list(self) -> Seq<PhysicalDecoration> {
        match self {
            PlanModel::HitDirect { decorations, .. } => decorations,
            PlanModel::ReCull { decorations, .. } => decorations,
            PlanModel::Miss { decorations, .. } => decorations,
        }
    }

    /// The visible rectangle of the area.
    pub open spec fn clip(self) -> [i32; 4] {
        match self {
            PlanModel::HitDirect { bounds, .. } => bounds,
            PlanModel::ReCull { bounds, .. } => bounds,
            PlanModel::Miss { ctx, .. } => ctx.clip,
        }
    }

    /// An area that is laid out again knows whether it has decorations.
    pub open spec fn wf(self) -> bool {
        match self {
            PlanModel::Miss { ctx, decorations, .. } => ctx.decorated == (decorations.len() > 0),
            _ => true,
        }
    }

    /// Where the prepared area is kept.
    pub open spec fn key(self) -> u128 {
        match self {
            PlanModel::HitDirect { key, .. } => key,
            PlanModel::ReCull { key, .. } => key,
            PlanModel::Miss { key, .. } => key,
        }
    }
}

/// The identity of an area: its buffer, and how many areas of the frame showed
/// the same buffer before it.
pub open spec fn area_id(buffer: u64, occurrence: usize) -> u128 {
    (buffer + 0x1_0000_0000_0000_0000 * occurrence) as u128
}

/// The identity of an area.
pub fn area_key(buffer: u64, occurrence: usize) -> (r: u128)
    ensures
        r == area_id(buffer, occurrence),
{
    buffer as u128 + 0x1_0000_0000_0000_0000 * occurrence as u128
}

/// Different areas have different identities.
pub proof fn law_area_ids_are_distinct(buffer: u64, occurrence: usize, other: u64, other_occurrence: usize)
    ensures
        area_id(buffer, occurrence) == area_id(other, other_occurrence) <==> buffer == other && occurrence
            == other_occurrence,
{
}

/// A prepared area shows the same text in the same style from the same atlas
/// data, wherever it is placed.
pub open spec fn reusable(cached: AreaModel, area: TextArea, generation: u32) -> bool {
    &&& !area.redraw
    &&& f_eq(cached.scale, area.scale)
    &&& cached.bounds == area.bounds
    &&& cached.default_color == area.default_color
    &&& cached.generation == generation
}

/// All the glyphs are in the atlas.
pub open spec fn all_known(atlas: AtlasState, keys: Seq<GlyphKey>) -> bool {
    forall|i: int| 0 <= i < keys.len() ==> atlas.glyphs.contains_key((#[trigger] keys[i]).id())
}

/// What the decorations of an area reach.
pub open spec fn area_extents(area: TextArea) -> DecorationExtents {
    extents_of(physical_list(area), F32 { bits: HALF_BITS })
}

/// How a prepared area is placed. Colors are paint and do not matter here, while
/// spread and offset matter as far as they change what the decorations reach.
pub open spec fn class_of(cached: AreaModel, area: TextArea, scroll: Seq<F32>) -> PlacementClass {
    placement_class(
        f_sub(area.left, cached.left),
        f_sub(area.top, cached.top),
        same_pair(cached.scroll@, scroll) && same_extents(cached.extents, area_extents(area)),
        cached.complete,
        cached.raster.len() > 0,
    )
}

/// The atlas with a glyph marked used, if it is there.
pub open spec fn marked(atlas: AtlasState, key: GlyphKey) -> AtlasState {
    let id = key.id();
    if atlas.glyphs.contains_key(id) {
        AtlasState { glyphs: atlas.glyphs.insert(id, atlas.glyphs[id].used_in(atlas.frame)), ..atlas }
    } else {
        atlas
    }
}

/// The atlas with the glyphs from `i` on marked used, up to the first that is not
/// there.
pub open spec fn marked_from(atlas: AtlasState, keys: Seq<GlyphKey>, i: int) -> AtlasState
    decreases keys.len() - i,
{
    if i < 0 || i >= keys.len() || !atlas.glyphs.contains_key(keys[i].id()) {
        atlas
    } else {
        marked_from(marked(atlas, keys[i]), keys, i + 1)
    }
}

/// Marks glyphs used, up to the first that is not in the atlas. Reports whether
/// all of them are.
pub fn mark_all(atlas: &mut TextAtlas, keys: &Vec<GlyphKey>) -> (r: bool)
    requires
        old(atlas).wf(),
    ensures
        final(atlas).wf(),
        final(atlas)@ == marked_from(old(atlas)@, keys@, 0),
        r == all_known(old(atlas)@, keys@),
{
    let ghost start = atlas@;
    for i in 0..keys.len()
        invariant
            atlas.wf(),
            marked_from(start, keys@, 0) == marked_from(atlas@, keys@, i as int),
            forall|j: int| 0 <= j < i ==> start.glyphs.contains_key((#[trigger] keys@[j]).id()),
            forall|id: u128| #[trigger] atlas@.glyphs.contains_key(id) == start.glyphs.contains_key(id),
            start == old(atlas)@,
    {
        let ghost before = atlas@;
        let found = atlas.glyph_mark_used(&keys[i]);
        if found.is_none() {
            assert(!start.glyphs.contains_key(keys@[i as int].id()));
            return false;
        }
        assert(atlas@ == marked(before, keys@[i as int]));
    }
    true
}

/// The walk over an area's lines.
pub ghost struct Walk {
    /// A visible line was met.
    pub started: bool,
    /// The lines after the visible ones are left out.
    pub stopped: bool,
    pub all_runs_included: bool,
    pub work: Seq<WorkItem>,
    /// Glyphs that are not in the atlas, as often as they occur.
    pub misses: Seq<GlyphKey>,
    pub atlas: AtlasState,
}

impl Walk {
    /// One more glyph.
    pub open spec fn with_glyph(self, glyph: LayoutGlyph, line_y: F32) -> Walk {
        Walk {
            work: self.work.push(WorkItem { glyph, line_y }),
            misses: if self.atlas.glyphs.contains_key(glyph.key.id()) {
                self.misses
            } else {
                self.misses.push(glyph.key)
            },
            atlas: marked(self.atlas, glyph.key),
            ..self
        }
    }

    /// The first `n` glyphs of a line.
    pub open spec fn with_glyphs(self, glyphs: Seq<LayoutGlyph>, line_y: F32, n: int) -> Walk
        decreases n,
    {
        if n <= 0 {
            self
        } else {
            self.with_glyphs(glyphs, line_y, n - 1).with_glyph(glyphs[n - 1], line_y)
        }
    }

    /// One more line. The lines of an area lie below one another, so the first one
    /// that is not visible after visible ones ends the walk.
    pub open spec fn with_run(self, run: LayoutRun, ctx: AreaContext) -> Walk {
        if self.stopped {
            self
        } else if !run_meets(
            ctx.top,
            ctx.scale,
            ctx.scroll@[1],
            run.line_top,
            run.line_height,
            ctx.clip@[1],
            ctx.clip@[3],
            ctx.extents,
        ) {
            Walk { all_runs_included: false, stopped: self.started, ..self }
        } else {
            Walk { started: true, ..self }.with_glyphs(run.glyphs@, run.line_y, run.glyphs@.len() as int)
        }
    }
}

/// The walk over the first `n` lines.
pub open spec fn walk(runs: Seq<LayoutRun>, ctx: AreaContext, atlas: AtlasState, misses: Seq<GlyphKey>, n: int) -> Walk
    decreases n,
{
    if n <= 0 {
        Walk {
            started: false,
            stopped: false,
            all_runs_included: true,
            work: Seq::empty(),
            misses,
            atlas,
        }
    } else {
        walk(runs, ctx, atlas, misses, n - 1).with_run(runs[n - 1], ctx)
    }
}

fn collect_glyphs(
    run: &LayoutRun,
    atlas: &mut TextAtlas,
    work: &mut Vec<WorkItem>,
    misses: &mut Vec<GlyphKey>,
    Ghost(w): Ghost<Walk>,
)
    requires
        old(atlas).wf(),
        old(atlas)@ == w.atlas,
        old(work)@ == w.work,
        old(misses)@ == w.misses,
    ensures
        final(atlas).wf(),
        final(atlas)@ == w.with_glyphs(run.glyphs@, run.line_y, run.glyphs@.len() as int).atlas,
        final(work)@ == w.with_glyphs(run.glyphs@, run.line_y, run.glyphs@.len() as int).work,
        final(misses)@ == w.with_glyphs(run.glyphs@, run.line_y, run.glyphs@.len() as int).misses,
{
    for i in 0..run.glyphs.len()
        invariant
            atlas.wf(),
            atlas@ == w.with_glyphs(run.glyphs@, run.line_y, i as int).atlas,
            work@ == w.with_glyphs(run.glyphs@, run.line_y, i as int).work,
            misses@ == w.with_glyphs(run.glyphs@, run.line_y, i as int).misses,
    {
        let glyph: LayoutGlyph = run.glyphs[i];
        if atlas.glyph_mark_used(&glyph.key).is_none() {
            misses.push(glyph.key);
        }
        work.push(WorkItem { glyph, line_y: run.line_y });
    }
}

/// Collects the glyphs of an area's visible lines. Reports whether those are all
/// the lines.
pub fn collect_runs(
    runs: &Vec<LayoutRun>,
    ctx: &AreaContext,
    atlas: &mut TextAtlas,
    misses: &mut Vec<GlyphKey>,
) -> (r: (Vec<WorkItem>, bool))
    requires
        old(atlas).wf(),
    ensures
        final(atlas).wf(),
        ({
            let w = walk(runs@, *ctx, old(atlas)@, old(misses)@, runs@.len() as int);
            &&& final(atlas)@ == w.atlas
            &&& final(misses)@ == w.misses
            &&& r.0@ == w.work
            &&& r.1 == w.all_runs_included
        }),
{
    let mut work: Vec<WorkItem> = Vec::new();
    let mut all_runs_included: bool = true;
    let mut started: bool = false;
    let mut stopped: bool = false;
    let ghost first = atlas@;
    let ghost known = misses@;
    for i in 0..runs.len()
        invariant
            first == old(atlas)@,
            known == old(misses)@,
            atlas.wf(),
            ({
                let w = walk(runs@, *ctx, first, known, i as int);
                &&& atlas@ == w.atlas
                &&& misses@ == w.misses
                &&& work@ == w.work
                &&& all_runs_included == w.all_runs_included
                &&& started == w.started
                &&& stopped == w.stopped
            }),
    {
        let ghost w = walk(runs@, *ctx, first, known, i as int);
        if !stopped {
            let run: &LayoutRun = &runs[i];
            let meets: bool = run_is_visible(
                ctx.top,
                ctx.scale,
                ctx.scroll[1],
                run,
                ctx.clip[1],
                ctx.clip[3],
                ctx.extents,
            );
            if !meets {
                all_runs_included = false;
                stopped = started;
            } else {
                started = true;
                let ghost at = Walk { started: true, ..w };
                collect_glyphs(run, atlas, &mut work, misses, Ghost(at));
                proof {
                    lemma_glyphs_keep_flags(at, run.glyphs@, run.line_y, run.glyphs@.len() as int);
                }
            }
        }
    }
    (work, all_runs_included)
}

proof fn lemma_glyphs_keep_flags(w: Walk, glyphs: Seq<LayoutGlyph>, line_y: F32, n: int)
    ensures
        w.with_glyphs(glyphs, line_y, n).started == w.started,
        w.with_glyphs(glyphs, line_y, n).stopped == w.stopped,
        w.with_glyphs(glyphs, line_y, n).all_runs_included == w.all_runs_included,
    decreases n,
{
    if n > 0 {
        lemma_glyphs_keep_flags(w, glyphs, line_y, n - 1);
    }
}

/// Whether a prepared area shows the same text in the same style from the same
/// atlas data.
pub fn is_reusable(cached: &CachedTextArea, area: &TextArea, generation: u32) -> (r: bool)
    ensures
        r == reusable(cached.model(), *area, generation),
{
    !area.redraw && cached.scale.eq_value(area.scale) && cached.bounds == area.bounds && cached.default_color
        == area.default_color && cached.atlas_generation == generation
}

/// How a prepared area is placed.
pub fn classify(cached: &CachedTextArea, area: &TextArea, extents: &DecorationExtents, scroll: [F32; 2]) -> (r: PlacementClass)
    requires
        *extents == area_extents(*area),
    ensures
        r == class_of(cached.model(), *area, scroll@),
{
    let same_scroll: bool = cached.scroll[0].eq_value(scroll[0]) && cached.scroll[1].eq_value(scroll[1]);
    classify_placement(
        area.left.minus(cached.left),
        area.top.minus(cached.top),
        same_scroll && cached.extents.same(extents),
        cached.complete,
        cached.non_vector_glyphs.len() > 0,
    )
}

}
