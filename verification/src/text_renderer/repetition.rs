//! A frame that is prepared again without a change.
use vstd::prelude::*;
use crate::float32::{F32, lemma_self_difference};
use crate::glyph_cache::{ColorGlyphEntry, GlyphKey};
use crate::text_atlas::AtlasState;
use crate::text_renderer::area::AreaModel;
use crate::text_renderer::emit::{AreaContext, Emitted, WorkItem, emitted, item_ready};
use crate::text_renderer::frame::{
    FrameModel, PrepareStats, RendererState, after_candidate, area_class, area_context, begun, counted, no_stats,
    planned, shown,
};
use crate::text_renderer::geometry::PlacementClass;
use crate::text_renderer::keys::{law_sorted_form_exists, sorted_set};
use crate::text_renderer::laws::placement_is_numeric;
use crate::text_renderer::layout::{LayoutGlyph, LayoutRun};
use crate::text_renderer::plan::{
    PlanModel, Walk, all_known, area_extents, area_id, class_of, marked, marked_from, reusable, walk,
};
use crate::text_renderer::prepare::{
    area_result, emitted_state, frame_ready, kept_areas, output, plan_ready, sorted_form, uploaded_before,
};
use crate::types::{TextArea, same_extents};

verus! {

/// How far the planning of a frame has come.
pub ghost struct Planning {
    pub state: RendererState,
    pub frame: FrameModel,
    pub atlas: AtlasState,
}

/// An area with its layout.
pub ghost struct Shown {
    pub area: TextArea,
    pub runs: Seq<LayoutRun>,
}

/// A frame after its first `n` areas were planned, one after another.
pub open spec fn planned_areas(s: RendererState, f: FrameModel, atlas: AtlasState, areas: Seq<Shown>, n: nat) -> Planning
    decreases n,
{
    if n == 0 {
        Planning { state: s, frame: f, atlas }
    } else {
        let before = planned_areas(s, f, atlas, areas, (n - 1) as nat);
        let next = areas[n - 1];
        let (frame, after) = planned(before.state, before.frame, before.atlas, next.area, next.runs);
        Planning { state: counted(before.state, next.area), frame, atlas: after }
    }
}

/// An area shows the same text in the same place as another, with decorations
/// that reach as far, and need not be drawn anew. Colors of decorations may differ.
pub open spec fn repeats(area: TextArea, again: TextArea) -> bool {
    &&& !again.redraw
    &&& again.buffer == area.buffer
    &&& again.left == area.left
    &&& again.top == area.top
    &&& again.scale == area.scale
    &&& again.bounds == area.bounds
    &&& again.default_color == area.default_color
    &&& same_extents(area_extents(area), area_extents(again))
}

/// The plan that an area gets.
spec fn plan_at(s: RendererState, f: FrameModel, atlas: AtlasState, areas: Seq<Shown>, i: int) -> PlanModel {
    let before = planned_areas(s, f, atlas, areas, i as nat);
    planned(before.state, before.frame, before.atlas, areas[i].area, areas[i].runs).0.plans.last()
}

proof fn lemma_planning(s: RendererState, f: FrameModel, atlas: AtlasState, areas: Seq<Shown>, n: nat)
    requires
        f.plans.len() == 0,
    ensures
        ({
            let p = planned_areas(s, f, atlas, areas, n);
            &&& p.state.cache == s.cache
            &&& p.frame.generation == f.generation
            &&& p.frame.scroll == f.scroll
            &&& p.frame.plans.len() == n
            &&& forall|i: int| 0 <= i < n ==> #[trigger] p.frame.plans[i] == plan_at(s, f, atlas, areas, i)
        }),
    decreases n,
{
    if n > 0 {
        lemma_planning(s, f, atlas, areas, (n - 1) as nat);
        let before = planned_areas(s, f, atlas, areas, (n - 1) as nat);
        let p = planned_areas(s, f, atlas, areas, n);
        let last = plan_at(s, f, atlas, areas, n - 1);
        assert(p.frame.plans == before.frame.plans.push(last));
    }
}

/// Areas with the same buffers are counted alike.
proof fn lemma_counted_alike(
    s: RendererState,
    f: FrameModel,
    atlas: AtlasState,
    areas: Seq<Shown>,
    later: RendererState,
    g: FrameModel,
    now: AtlasState,
    again: Seq<Shown>,
    n: nat,
)
    requires
        s.counts == later.counts,
        n <= areas.len(),
        n <= again.len(),
        forall|i: int| 0 <= i < areas.len() ==> repeats((#[trigger] areas[i]).area, again[i].area),
    ensures
        planned_areas(s, f, atlas, areas, n).state.counts == planned_areas(later, g, now, again, n).state.counts,
    decreases n,
{
    if n > 0 {
        lemma_counted_alike(s, f, atlas, areas, later, g, now, again, (n - 1) as nat);
        assert(repeats(areas[n - 1].area, again[n - 1].area));
    }
}

/// The prepared area that a plan leads to serves the same area again.
proof fn lemma_result_serves_again(
    s: RendererState,
    f: FrameModel,
    atlas: AtlasState,
    area: TextArea,
    runs: Seq<LayoutRun>,
    cache: Map<u128, AreaModel>,
    from: AtlasState,
    again: TextArea,
)
    requires
        repeats(area, again),
        placement_is_numeric(area, f.scroll@),
        ({
            let key = area_id(area.buffer, s.occurrences(area.buffer));
            s.cache.contains_key(key) ==> cache[key] == s.cache[key]
        }),
    ensures
        ({
            let plan = planned(s, f, atlas, area, runs).0.plans.last();
            let kept = AreaModel { generation: f.generation, ..area_result(plan, cache, from, f.generation) };
            &&& plan.key() == area_id(area.buffer, s.occurrences(area.buffer))
            &&& reusable(kept, again, f.generation)
            &&& class_of(kept, again, f.scroll@) == PlacementClass::Direct
        }),
{
    lemma_self_difference(area.left);
    lemma_self_difference(area.top);
}

spec fn distinct_keys(plans: Seq<PlanModel>) -> bool {
    forall|i: int, j: int| 0 <= i < j < plans.len() ==> (#[trigger] plans[i]).key() != (#[trigger] plans[j]).key()
}

/// While areas are emitted, one that has not had its turn is as it was, and one
/// that had it is what its plan led to.
proof fn lemma_turns(f: FrameModel, cache: Map<u128, AreaModel>, atlas: AtlasState, n: int, i: int)
    requires
        distinct_keys(f.plans),
        0 <= n <= f.plans.len(),
        0 <= i < f.plans.len(),
    ensures
        ({
            let key = f.plans[i].key();
            let out = output(f, cache, atlas, n).cache;
            if n <= i {
                out.contains_key(key) == cache.contains_key(key) && out[key] == cache[key]
            } else {
                out.contains_key(key) && out[key] == area_result(
                    f.plans[i],
                    output(f, cache, atlas, i).cache,
                    atlas,
                    f.generation,
                )
            }
        }),
    decreases n,
{
    if n > 0 {
        lemma_turns(f, cache, atlas, n - 1, i);
        if i < n - 1 {
            assert(f.plans[i].key() != f.plans[n - 1].key());
        } else if n - 1 < i {
            assert(f.plans[n - 1].key() != f.plans[i].key());
        }
    }
}

proof fn lemma_marking_keeps_glyphs(atlas: AtlasState, keys: Seq<GlyphKey>, i: int)
    ensures
        marked_from(atlas, keys, i).glyphs.dom() == atlas.glyphs.dom(),
    decreases keys.len() - i,
{
    if 0 <= i < keys.len() && atlas.glyphs.contains_key(keys[i].id()) {
        let next = marked(atlas, keys[i]);
        assert(next.glyphs.dom() =~= atlas.glyphs.dom());
        lemma_marking_keeps_glyphs(next, keys, i + 1);
    }
}

/// What a first frame left behind, for the areas of a second.
spec fn left_behind(
    s: RendererState,
    f: FrameModel,
    atlas: AtlasState,
    areas: Seq<Shown>,
    from: AtlasState,
    later: RendererState,
) -> bool {
    let n = areas.len();
    let p = planned_areas(s, f, atlas, areas, n);
    let out = output(p.frame, p.state.cache, from, n as int);
    later.cache == kept_areas(out.cache, p.state.counts, f.generation)
}

/// The prepared area that is left of each area of the first frame.
proof fn lemma_left_of_area(
    s: RendererState,
    f: FrameModel,
    atlas: AtlasState,
    areas: Seq<Shown>,
    from: AtlasState,
    later: RendererState,
    again: TextArea,
    i: int,
)
    requires
        f.plans.len() == 0,
        ({
            let p = planned_areas(s, f, atlas, areas, areas.len());
            p.state.holds(p.frame)
        }),
        left_behind(s, f, atlas, areas, from, later),
        0 <= i < areas.len(),
        repeats(areas[i].area, again),
        placement_is_numeric(areas[i].area, f.scroll@),
    ensures
        ({
            let before = planned_areas(s, f, atlas, areas, i as nat);
            let p = planned_areas(s, f, atlas, areas, areas.len());
            let key = area_id(areas[i].area.buffer, before.state.occurrences(areas[i].area.buffer));
            let result = area_result(
                p.frame.plans[i],
                output(p.frame, p.state.cache, from, i).cache,
                from,
                p.frame.generation,
            );
            &&& p.frame.plans[i].key() == key
            &&& later.cache.contains_key(key)
            &&& later.cache[key].instances == result.instances
            &&& later.cache[key].raster == result.raster
            &&& reusable(later.cache[key], again, f.generation)
            &&& class_of(later.cache[key], again, f.scroll@) == PlacementClass::Direct
        }),
{
    let n = areas.len();
    let p = planned_areas(s, f, atlas, areas, n);
    let before = planned_areas(s, f, atlas, areas, i as nat);
    lemma_planning(s, f, atlas, areas, n);
    lemma_planning(s, f, atlas, areas, i as nat);
    assert(p.frame.plans[i] == plan_at(s, f, atlas, areas, i));
    let cache = output(p.frame, p.state.cache, from, i).cache;
    lemma_turns(p.frame, p.state.cache, from, i, i);
    lemma_turns(p.frame, p.state.cache, from, n as int, i);
    let key = area_id(areas[i].area.buffer, before.state.occurrences(areas[i].area.buffer));
    lemma_plan_key(before.state, before.frame, before.atlas, areas[i].area, areas[i].runs);
    lemma_result_serves_again(
        before.state,
        before.frame,
        before.atlas,
        areas[i].area,
        areas[i].runs,
        cache,
        from,
        again,
    );
    assert(shown(p.state.counts, p.frame.plans[i].key()));
}

proof fn lemma_plan_key(s: RendererState, f: FrameModel, atlas: AtlasState, area: TextArea, runs: Seq<LayoutRun>)
    ensures
        planned(s, f, atlas, area, runs).0.plans.last().key() == area_id(area.buffer, s.occurrences(area.buffer)),
{
}

/// The atlas knows the glyphs of what is left of each area.
spec fn frame_known(f: FrameModel, later: RendererState, now: AtlasState) -> bool {
    forall|i: int| 0 <= i < f.plans.len() ==> all_known(now, later.cache[(#[trigger] f.plans[i]).key()].keys)
}

proof fn lemma_line_keeps_glyphs(w: Walk, glyphs: Seq<LayoutGlyph>, line_y: F32, n: int)
    ensures
        w.with_glyphs(glyphs, line_y, n).atlas.glyphs.dom() == w.atlas.glyphs.dom(),
    decreases n,
{
    if n > 0 {
        lemma_line_keeps_glyphs(w, glyphs, line_y, n - 1);
        let before = w.with_glyphs(glyphs, line_y, n - 1);
        assert(marked(before.atlas, glyphs[n - 1].key).glyphs.dom() =~= before.atlas.glyphs.dom());
    }
}

proof fn lemma_walk_keeps_glyphs(runs: Seq<LayoutRun>, ctx: AreaContext, atlas: AtlasState, misses: Seq<GlyphKey>, n: int)
    ensures
        walk(runs, ctx, atlas, misses, n).atlas.glyphs.dom() == atlas.glyphs.dom(),
    decreases n,
{
    if n > 0 {
        lemma_walk_keeps_glyphs(runs, ctx, atlas, misses, n - 1);
        let before = walk(runs, ctx, atlas, misses, n - 1);
        let run = runs[n - 1];
        lemma_line_keeps_glyphs(Walk { started: true, ..before }, run.glyphs@, run.line_y, run.glyphs@.len() as int);
    }
}

/// Planning marks glyphs and forgets none.
proof fn lemma_planning_keeps_glyphs(s: RendererState, f: FrameModel, atlas: AtlasState, areas: Seq<Shown>, n: nat)
    ensures
        planned_areas(s, f, atlas, areas, n).atlas.glyphs.dom() == atlas.glyphs.dom(),
    decreases n,
{
    if n > 0 {
        lemma_planning_keeps_glyphs(s, f, atlas, areas, (n - 1) as nat);
        let before = planned_areas(s, f, atlas, areas, (n - 1) as nat);
        let next = areas[n - 1];
        let key = area_id(next.area.buffer, before.state.occurrences(next.area.buffer));
        lemma_marking_keeps_glyphs(before.atlas, before.state.cache[key].keys, 0);
        lemma_walk_keeps_glyphs(
            next.runs,
            area_context(before.frame, next.area),
            after_candidate(before.state, before.frame, before.atlas, next.area),
            before.frame.misses,
            next.runs.len() as int,
        );
    }
}

proof fn lemma_emitted_keys(ctx: AreaContext, work: Seq<WorkItem>, atlas: AtlasState, complete: bool, n: int)
    requires
        0 <= n <= work.len(),
    ensures
        ({
            let keys = emitted(ctx, work, atlas, complete, n).keys;
            keys.len() == n && forall|i: int| 0 <= i < n ==> #[trigger] keys[i] == work[i].glyph.key
        }),
    decreases n,
{
    if n > 0 {
        lemma_emitted_keys(ctx, work, atlas, complete, n - 1);
        let e = emitted(ctx, work, atlas, complete, n - 1);
        let item = work[n - 1];
        let id = item.glyph.key.id();
        let known = Emitted { keys: e.keys.push(item.glyph.key), ..e };
        reveal(Emitted::with_commands);
        reveal(Emitted::with_outline);
        lemma_layers_keep_keys(known, ctx, item, atlas.layers[id], atlas.layers[id].layers@.len() as int);
    }
}

proof fn lemma_layers_keep_keys(e: Emitted, ctx: AreaContext, item: WorkItem, entry: ColorGlyphEntry, n: int)
    ensures
        e.with_layers(ctx, item, entry, n).keys == e.keys,
    decreases n,
{
    if n > 0 {
        lemma_layers_keep_keys(e, ctx, item, entry, n - 1);
        reveal(Emitted::with_layer);
    }
}

/// An area that is laid out from what the atlas has leads to a prepared area whose
/// glyphs the atlas knows.
pub proof fn law_emitted_areas_are_known(plan: PlanModel, cache: Map<u128, AreaModel>, atlas: AtlasState, generation: u32)
    requires
        plan is Miss,
        plan_ready(plan, cache, atlas),
    ensures
        all_known(atlas, area_result(plan, cache, atlas, generation).keys),
{
    if let PlanModel::Miss { ctx, work, all_runs_included, .. } = plan {
        let e = emitted(ctx, work, atlas, all_runs_included, work.len() as int);
        lemma_emitted_keys(ctx, work, atlas, all_runs_included, work.len() as int);
        law_sorted_form_exists(e.keys);
        let keys = sorted_form(e.keys);
        assert(sorted_set(keys, e.keys));
        assert forall|i: int| 0 <= i < keys.len() implies atlas.glyphs.contains_key((#[trigger] keys[i]).id()) by {
            assert(e.keys.contains(keys[i]));
            let k = choose|k: int| 0 <= k < e.keys.len() && e.keys[k] == keys[i];
            assert(e.keys[k] == work[k].glyph.key);
            assert(item_ready(work[k], atlas, ctx.decorated));
        }
    }
}

proof fn lemma_frame_known(
    s: RendererState,
    f: FrameModel,
    atlas: AtlasState,
    areas: Seq<Shown>,
    from: AtlasState,
    later: RendererState,
    now: AtlasState,
)
    requires
        f.plans.len() == 0,
        ({
            let p = planned_areas(s, f, atlas, areas, areas.len());
            p.state.holds(p.frame) && frame_ready(p.frame, p.state.cache, from)
        }),
        left_behind(s, f, atlas, areas, from, later),
        atlas.glyphs.dom().subset_of(from.glyphs.dom()),
        from.glyphs.dom().subset_of(now.glyphs.dom()),
    ensures
        frame_known(planned_areas(s, f, atlas, areas, areas.len()).frame, later, now),
{
    let n = areas.len();
    let p = planned_areas(s, f, atlas, areas, n);
    lemma_planning(s, f, atlas, areas, n);
    assert forall|i: int| 0 <= i < p.frame.plans.len() implies all_known(
        now,
        later.cache[(#[trigger] p.frame.plans[i]).key()].keys,
    ) by {
        let plan = p.frame.plans[i];
        let before = planned_areas(s, f, atlas, areas, i as nat);
        let cache = output(p.frame, p.state.cache, from, i).cache;
        let result = area_result(plan, cache, from, p.frame.generation);
        assert(plan == plan_at(s, f, atlas, areas, i));
        lemma_planning(s, f, atlas, areas, i as nat);
        lemma_planning_keeps_glyphs(s, f, atlas, areas, i as nat);
        lemma_plan_key(before.state, before.frame, before.atlas, areas[i].area, areas[i].runs);
        lemma_turns(p.frame, p.state.cache, from, i, i);
        lemma_turns(p.frame, p.state.cache, from, n as int, i);
        assert(shown(p.state.counts, plan.key()));
        assert(later.cache[plan.key()].keys == result.keys);
        if plan is Miss {
            assert(plan_ready(plan, p.state.cache, from));
            law_emitted_areas_are_known(plan, cache, from, p.frame.generation);
            lemma_known_later(from, now, result.keys);
        } else {
            assert(all_known(before.atlas, s.cache[plan.key()].keys));
            assert(result.keys == s.cache[plan.key()].keys);
            lemma_known_later(before.atlas, now, result.keys);
        }
    }
}

proof fn lemma_known_later(from: AtlasState, now: AtlasState, keys: Seq<GlyphKey>)
    requires
        all_known(from, keys),
        from.glyphs.dom().subset_of(now.glyphs.dom()),
    ensures
        all_known(now, keys),
{
    assert forall|i: int| 0 <= i < keys.len() implies now.glyphs.contains_key((#[trigger] keys[i]).id()) by {
        assert(from.glyphs.dom().contains(keys[i].id()));
    }
}

/// An area whose prepared form still serves it is planned as a direct hit.
proof fn lemma_direct_step(s: RendererState, f: FrameModel, atlas: AtlasState, area: TextArea, runs: Seq<LayoutRun>)
    requires
        ({
            let key = area_id(area.buffer, s.occurrences(area.buffer));
            &&& s.cache.contains_key(key)
            &&& reusable(s.cache[key], area, f.generation)
            &&& class_of(s.cache[key], area, f.scroll@) == PlacementClass::Direct
            &&& all_known(atlas, s.cache[key].keys)
        }),
    ensures
        ({
            let key = area_id(area.buffer, s.occurrences(area.buffer));
            let (g, after) = planned(s, f, atlas, area, runs);
            &&& after.glyphs.dom() == atlas.glyphs.dom()
            &&& g.plans.last() is HitDirect
            &&& g.plans.last().key() == key
            &&& g == f.with_plan(g.plans.last())
        }),
{
    let key = area_id(area.buffer, s.occurrences(area.buffer));
    assert(area_class(s, f, atlas, area) == PlacementClass::Direct);
    lemma_marking_keeps_glyphs(atlas, s.cache[key].keys, 0);
}

/// The second frame after `n` of its areas.
proof fn lemma_second_frame(
    s: RendererState,
    f: FrameModel,
    atlas: AtlasState,
    areas: Seq<Shown>,
    from: AtlasState,
    later: RendererState,
    g: FrameModel,
    now: AtlasState,
    again: Seq<Shown>,
    n: nat,
)
    requires
        f.plans.len() == 0,
        ({
            let p = planned_areas(s, f, atlas, areas, areas.len());
            p.state.holds(p.frame)
        }),
        left_behind(s, f, atlas, areas, from, later),
        s.counts == later.counts,
        g.plans.len() == 0,
        g.all_direct_hits,
        g.stats == no_stats(),
        g.generation == f.generation,
        g.scroll == f.scroll,
        areas.len() == again.len(),
        areas.len() <= usize::MAX,
        forall|i: int|
            0 <= i < areas.len() ==> repeats((#[trigger] areas[i]).area, again[i].area) && placement_is_numeric(
                areas[i].area,
                f.scroll@,
            ),
        frame_known(planned_areas(s, f, atlas, areas, areas.len()).frame, later, now),
        n <= areas.len(),
    ensures
        ({
            let p = planned_areas(s, f, atlas, areas, areas.len());
            let q = planned_areas(later, g, now, again, n);
            &&& q.atlas.glyphs.dom() == now.glyphs.dom()
            &&& q.frame.all_direct_hits
            &&& q.frame.stats == (PrepareStats { direct_hits: n as usize, reculls: 0, misses: 0 })
            &&& q.frame.misses == g.misses
            &&& q.frame.plans.len() == n
            &&& forall|i: int|
                0 <= i < n ==> (#[trigger] q.frame.plans[i]) is HitDirect && q.frame.plans[i].key()
                    == p.frame.plans[i].key()
        }),
    decreases n,
{
    lemma_planning(later, g, now, again, n);
    if n > 0 {
        lemma_second_frame(s, f, atlas, areas, from, later, g, now, again, (n - 1) as nat);
        lemma_planning(later, g, now, again, (n - 1) as nat);
        lemma_counted_alike(s, f, atlas, areas, later, g, now, again, (n - 1) as nat);
        let p = planned_areas(s, f, atlas, areas, areas.len());
        let first = planned_areas(s, f, atlas, areas, (n - 1) as nat);
        let before = planned_areas(later, g, now, again, (n - 1) as nat);
        let q = planned_areas(later, g, now, again, n);
        let area = again[n - 1].area;
        assert(repeats(areas[n - 1].area, area));
        lemma_left_of_area(s, f, atlas, areas, from, later, area, n - 1);
        let key = area_id(area.buffer, before.state.occurrences(area.buffer));
        assert(before.state.occurrences(area.buffer) == first.state.occurrences(area.buffer));
        assert(p.frame.plans.len() == areas.len()) by {
            lemma_planning(s, f, atlas, areas, areas.len());
        }
        assert(p.frame.plans[n - 1].key() == key);
        assert(all_known(now, later.cache[key].keys));
        lemma_known_later(now, before.atlas, later.cache[key].keys);
        lemma_direct_step(before.state, before.frame, before.atlas, area, again[n - 1].runs);
        let plan = q.frame.plans.last();
        assert(q.frame == before.frame.with_plan(plan));
        assert forall|i: int| 0 <= i < n implies (#[trigger] q.frame.plans[i]) is HitDirect && q.frame.plans[i].key()
            == p.frame.plans[i].key() by {
            if i < n - 1 {
                assert(q.frame.plans[i] == before.frame.plans[i]);
            }
        }
    }
}

/// A frame that shows again what the frame before it showed, in the same places and
/// from the same atlas data, is prepared without laying anything out: every area is
/// a direct hit, no glyph is missing, and the instances and images are the very same
/// in the same order. Nothing is then uploaded if the frame before was drawable.
///
/// The two frames are given as they were begun, with the areas planned one after
/// another and, once the atlas has what the first needs, emitted. From the first
/// frame's planning on the atlas may change as long as it forgets no glyph.
pub proof fn law_repeated_frames_are_direct_hits(
    s: RendererState,
    f: FrameModel,
    atlas: AtlasState,
    areas: Seq<Shown>,
    from: AtlasState,
    later: RendererState,
    g: FrameModel,
    now: AtlasState,
    again: Seq<Shown>,
    redrawn_from: AtlasState,
)
    requires
        f.plans.len() == 0,
        s.counts == Map::<u128, usize>::empty(),
        areas.len() <= usize::MAX,
        ({
            let n = areas.len();
            let p = planned_areas(s, f, atlas, areas, n);
            let out = output(p.frame, p.state.cache, from, n as int);
            &&& p.state.holds(p.frame)
            &&& frame_ready(p.frame, p.state.cache, from)
            &&& later.cache == kept_areas(out.cache, p.state.counts, f.generation)
        }),
        later.counts == Map::<u128, usize>::empty(),
        g.plans.len() == 0,
        g.all_direct_hits,
        g.stats == no_stats(),
        g.generation == f.generation,
        g.scroll == f.scroll,
        areas.len() == again.len(),
        forall|i: int|
            0 <= i < areas.len() ==> repeats((#[trigger] areas[i]).area, again[i].area) && placement_is_numeric(
                areas[i].area,
                f.scroll@,
            ),
        atlas.glyphs.dom().subset_of(from.glyphs.dom()),
        from.glyphs.dom().subset_of(now.glyphs.dom()),
    ensures
        ({
            let n = areas.len();
            let p = planned_areas(s, f, atlas, areas, n);
            let out = output(p.frame, p.state.cache, from, n as int);
            let q = planned_areas(later, g, now, again, n);
            let redrawn = output(q.frame, q.state.cache, redrawn_from, n as int);
            &&& q.frame.plans.len() == n
            &&& forall|i: int| 0 <= i < n ==> (#[trigger] q.frame.plans[i]) is HitDirect
            &&& q.frame.all_direct_hits
            &&& q.frame.stats == (PrepareStats { direct_hits: n as usize, reculls: 0, misses: 0 })
            &&& q.frame.misses == g.misses
            &&& redrawn.instances == out.instances
            &&& redrawn.raster == out.raster
        }),
{
    lemma_frame_known(s, f, atlas, areas, from, later, now);
    lemma_second_frame(s, f, atlas, areas, from, later, g, now, again, areas.len());
    lemma_same_streams(s, f, atlas, areas, from, later, g, now, again, redrawn_from, areas.len());
}

/// Two whole preparations. The renderer, in any state, prepares a frame: it begins it,
/// plans the areas, and emits it from an atlas that has what the frame needs. What is
/// uploaded then leaves its areas and instances as they are. It begins a second frame
/// of the same size and scroll against the same atlas data, with the areas again, and
/// emits it. All areas of the second are direct hits, and it has the instances of the
/// first. If those were drawable they still are, with nothing to upload.
pub proof fn law_preparing_again_changes_nothing(
    before: RendererState,
    s: RendererState,
    f: FrameModel,
    atlas: AtlasState,
    areas: Seq<Shown>,
    from: AtlasState,
    ready: RendererState,
    later: RendererState,
    g: FrameModel,
    now: AtlasState,
    again: Seq<Shown>,
    redrawn_from: AtlasState,
)
    requires
        begun(before, s, f),
        areas.len() <= usize::MAX,
        ({
            let p = planned_areas(s, f, atlas, areas, areas.len());
            let first = emitted_state(p.state, p.frame, from);
            &&& p.state.holds(p.frame)
            &&& frame_ready(p.frame, p.state.cache, from)
            &&& ready.cache == first.cache
            &&& ready.instances == first.instances
            &&& ready.resolution == first.resolution
        }),
        begun(ready, later, g),
        g.resolution == f.resolution,
        g.generation == f.generation,
        g.scroll == f.scroll,
        areas.len() == again.len(),
        forall|i: int|
            0 <= i < areas.len() ==> repeats((#[trigger] areas[i]).area, again[i].area) && placement_is_numeric(
                areas[i].area,
                f.scroll@,
            ),
        atlas.glyphs.dom().subset_of(from.glyphs.dom()),
        from.glyphs.dom().subset_of(now.glyphs.dom()),
    ensures
        ({
            let q = planned_areas(later, g, now, again, again.len());
            let second = emitted_state(q.state, q.frame, redrawn_from);
            &&& q.frame.stats == (PrepareStats { direct_hits: areas.len() as usize, reculls: 0, misses: 0 })
            &&& q.frame.misses.len() == 0
            &&& second.instances == ready.instances
            &&& ready.glyphs == ready.instances.len() ==> second.glyphs == ready.glyphs && uploaded_before(
                q.frame,
                output(q.frame, q.state.cache, redrawn_from, q.frame.plans.len() as int),
            )
        }),
{
    let n = areas.len();
    let p = planned_areas(s, f, atlas, areas, n);
    lemma_planning(s, f, atlas, areas, n);
    lemma_planning(later, g, now, again, n);
    lemma_planning_keeps_the_rest(s, f, atlas, areas, n);
    lemma_planning_keeps_the_rest(later, g, now, again, n);
    law_repeated_frames_are_direct_hits(s, f, atlas, areas, from, later, g, now, again, redrawn_from);
}

proof fn lemma_planning_keeps_the_rest(s: RendererState, f: FrameModel, atlas: AtlasState, areas: Seq<Shown>, n: nat)
    ensures
        ({
            let p = planned_areas(s, f, atlas, areas, n);
            &&& p.state.resolution == s.resolution
            &&& p.frame.previous == f.previous
            &&& p.frame.drawn == f.drawn
        }),
    decreases n,
{
    if n > 0 {
        lemma_planning_keeps_the_rest(s, f, atlas, areas, (n - 1) as nat);
    }
}

/// The streams of the first `n` areas of both frames.
proof fn lemma_same_streams(
    s: RendererState,
    f: FrameModel,
    atlas: AtlasState,
    areas: Seq<Shown>,
    from: AtlasState,
    later: RendererState,
    g: FrameModel,
    now: AtlasState,
    again: Seq<Shown>,
    redrawn_from: AtlasState,
    n: nat,
)
    requires
        f.plans.len() == 0,
        g.plans.len() == 0,
        areas.len() == again.len(),
        ({
            let p = planned_areas(s, f, atlas, areas, areas.len());
            let q = planned_areas(later, g, now, again, areas.len());
            &&& p.state.holds(p.frame)
            &&& q.frame.plans.len() == areas.len()
            &&& forall|i: int|
                0 <= i < areas.len() ==> (#[trigger] q.frame.plans[i]) is HitDirect && q.frame.plans[i].key()
                    == p.frame.plans[i].key()
        }),
        left_behind(s, f, atlas, areas, from, later),
        forall|i: int|
            0 <= i < areas.len() ==> repeats((#[trigger] areas[i]).area, again[i].area) && placement_is_numeric(
                areas[i].area,
                f.scroll@,
            ),
        n <= areas.len(),
    ensures
        ({
            let p = planned_areas(s, f, atlas, areas, areas.len());
            let q = planned_areas(later, g, now, again, areas.len());
            let out = output(p.frame, p.state.cache, from, n as int);
            let redrawn = output(q.frame, q.state.cache, redrawn_from, n as int);
            redrawn.instances == out.instances && redrawn.raster == out.raster
        }),
    decreases n,
{
    if n > 0 {
        lemma_same_streams(s, f, atlas, areas, from, later, g, now, again, redrawn_from, (n - 1) as nat);
        let p = planned_areas(s, f, atlas, areas, areas.len());
        let q = planned_areas(later, g, now, again, areas.len());
        lemma_planning(s, f, atlas, areas, areas.len());
        lemma_planning(later, g, now, again, areas.len());
        lemma_left_of_area(s, f, atlas, areas, from, later, again[n - 1].area, n - 1);
        assert(distinct_keys(q.frame.plans)) by {
            assert forall|i: int, j: int| 0 <= i < j < q.frame.plans.len() implies (#[trigger] q.frame.plans[i]).key()
                != (#[trigger] q.frame.plans[j]).key() by {
                assert(p.frame.plans[i].key() != p.frame.plans[j].key());
            }
        }
        lemma_turns(q.frame, q.state.cache, redrawn_from, n - 1, n - 1);
        assert(repeats(areas[n - 1].area, again[n - 1].area));
        assert(q.frame.plans[n - 1] is HitDirect);
    }
}

}
