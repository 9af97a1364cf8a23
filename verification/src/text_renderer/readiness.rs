//! Why a frame can always be emitted once its requirements are met.
use vstd::prelude::*;
use crate::float32::F32;
use crate::glyph_cache::{GlyphKey, monochrome};
use crate::text_atlas::{AtlasState, border_start};
use crate::text_renderer::area::{AreaModel, instance_ready, instances_ready, uses_of_instances, uses_of_work};
use crate::text_renderer::capacity::{BorderCapacity, BorderUse, bordered_key, requirements_of, widest};
use crate::text_renderer::emit::{AreaContext, WorkItem, item_ready, work_ready};
use crate::text_renderer::frame::{FrameModel, RendererState, after_candidate, area_context, planned};
use crate::text_renderer::geometry::GlyphInstance;
use crate::text_renderer::layout::{LayoutGlyph, LayoutRun};
use crate::text_renderer::plan::{PlanModel, Walk, area_id, marked, marked_from, walk};
use crate::text_renderer::prepare::{
    frame_ready, frame_resolved, plan_ready, plan_resolved, uses_of_plan, uses_of_plans,
};
use crate::types::{PhysicalDecoration, TextArea};

verus! {

/// A glyph is in the atlas or among the missing ones.
pub open spec fn key_accounted(key: GlyphKey, atlas: AtlasState, misses: Seq<GlyphKey>) -> bool {
    atlas.glyphs.contains_key(key.id()) || misses.contains(key)
}

/// Every glyph that an area is laid out from is in the atlas or among the missing
/// ones.
pub open spec fn work_accounted(work: Seq<WorkItem>, atlas: AtlasState, misses: Seq<GlyphKey>) -> bool {
    forall|i: int| 0 <= i < work.len() ==> key_accounted((#[trigger] work[i]).glyph.key, atlas, misses)
}

pub open spec fn plan_accounted(plan: PlanModel, atlas: AtlasState, misses: Seq<GlyphKey>) -> bool {
    match plan {
        PlanModel::Miss { work, .. } => work_accounted(work, atlas, misses),
        _ => true,
    }
}

/// Every glyph of a frame that is laid out is in the atlas or among the missing
/// ones.
pub open spec fn accounted(f: FrameModel, atlas: AtlasState) -> bool {
    forall|i: int| 0 <= i < f.plans.len() ==> plan_accounted(#[trigger] f.plans[i], atlas, f.misses)
}

/// Two atlases know the same glyphs.
pub open spec fn same_glyphs(a: AtlasState, b: AtlasState) -> bool {
    forall|id: u128| #[trigger] a.glyphs.contains_key(id) == b.glyphs.contains_key(id)
}

/// One list starts with the other.
pub open spec fn starts_with(list: Seq<GlyphKey>, start: Seq<GlyphKey>) -> bool {
    start.len() <= list.len() && forall|i: int| 0 <= i < start.len() ==> list[i] == #[trigger] start[i]
}

proof fn lemma_accounted_stays(key: GlyphKey, a: AtlasState, m: Seq<GlyphKey>, b: AtlasState, n: Seq<GlyphKey>)
    requires
        key_accounted(key, a, m),
        same_glyphs(a, b),
        starts_with(n, m),
    ensures
        key_accounted(key, b, n),
{
    if !a.glyphs.contains_key(key.id()) {
        let i = choose|i: int| 0 <= i < m.len() && m[i] == key;
        assert(n[i] == key);
    }
}

proof fn lemma_marking_keeps_glyphs(atlas: AtlasState, keys: Seq<GlyphKey>, i: int)
    ensures
        same_glyphs(atlas, marked_from(atlas, keys, i)),
    decreases keys.len() - i,
{
    if 0 <= i < keys.len() && atlas.glyphs.contains_key(keys[i].id()) {
        let next = marked(atlas, keys[i]);
        lemma_marking_keeps_glyphs(next, keys, i + 1);
        assert forall|id: u128| #[trigger] atlas.glyphs.contains_key(id) == marked_from(
            atlas,
            keys,
            i,
        ).glyphs.contains_key(id) by {
            assert(next.glyphs.contains_key(id) == atlas.glyphs.contains_key(id));
        }
    }
}

/// What holds of a walk that started from an atlas and a list of missing glyphs.
spec fn walk_accounts(w: Walk, atlas: AtlasState, misses: Seq<GlyphKey>) -> bool {
    &&& same_glyphs(atlas, w.atlas)
    &&& starts_with(w.misses, misses)
    &&& work_accounted(w.work, w.atlas, w.misses)
}

proof fn lemma_glyph_is_accounted(w: Walk, glyph: LayoutGlyph, line_y: F32, atlas: AtlasState, misses: Seq<GlyphKey>)
    requires
        walk_accounts(w, atlas, misses),
    ensures
        walk_accounts(w.with_glyph(glyph, line_y), atlas, misses),
{
    let v = w.with_glyph(glyph, line_y);
    assert(starts_with(v.misses, w.misses));
    assert(same_glyphs(w.atlas, v.atlas));
    assert forall|i: int| 0 <= i < misses.len() implies v.misses[i] == #[trigger] misses[i] by {
        assert(w.misses[i] == misses[i]);
    }
    assert forall|i: int| 0 <= i < v.work.len() implies key_accounted((#[trigger] v.work[i]).glyph.key, v.atlas, v.misses) by {
        if i < w.work.len() {
            assert(v.work[i] == w.work[i]);
            lemma_accounted_stays(w.work[i].glyph.key, w.atlas, w.misses, v.atlas, v.misses);
        } else if !w.atlas.glyphs.contains_key(glyph.key.id()) {
            assert(v.misses[w.misses.len() as int] == glyph.key);
        }
    }
}

proof fn lemma_glyphs_are_accounted(
    w: Walk,
    glyphs: Seq<LayoutGlyph>,
    line_y: F32,
    n: int,
    atlas: AtlasState,
    misses: Seq<GlyphKey>,
)
    requires
        walk_accounts(w, atlas, misses),
    ensures
        walk_accounts(w.with_glyphs(glyphs, line_y, n), atlas, misses),
    decreases n,
{
    if n > 0 {
        lemma_glyphs_are_accounted(w, glyphs, line_y, n - 1, atlas, misses);
        lemma_glyph_is_accounted(w.with_glyphs(glyphs, line_y, n - 1), glyphs[n - 1], line_y, atlas, misses);
    }
}

proof fn lemma_walk_accounts(runs: Seq<LayoutRun>, ctx: AreaContext, atlas: AtlasState, misses: Seq<GlyphKey>, n: int)
    ensures
        walk_accounts(walk(runs, ctx, atlas, misses, n), atlas, misses),
    decreases n,
{
    if n > 0 {
        lemma_walk_accounts(runs, ctx, atlas, misses, n - 1);
        let w = walk(runs, ctx, atlas, misses, n - 1);
        let run = runs[n - 1];
        let v = Walk { started: true, ..w };
        assert(walk_accounts(v, atlas, misses));
        lemma_glyphs_are_accounted(v, run.glyphs@, run.line_y, run.glyphs@.len() as int, atlas, misses);
        assert(walk_accounts(Walk { all_runs_included: false, stopped: w.started, ..w }, atlas, misses));
    }
}

/// Planning an area accounts for every glyph of its layout.
pub proof fn law_planning_accounts_for_every_glyph(
    s: RendererState,
    f: FrameModel,
    atlas: AtlasState,
    area: TextArea,
    runs: Seq<LayoutRun>,
)
    requires
        accounted(f, atlas),
    ensures
        accounted(planned(s, f, atlas, area, runs).0, planned(s, f, atlas, area, runs).1),
        same_glyphs(atlas, planned(s, f, atlas, area, runs).1),
{
    let key = area_id(area.buffer, s.occurrences(area.buffer));
    lemma_marking_keeps_glyphs(atlas, s.cache[key].keys, 0);
    let after = after_candidate(s, f, atlas, area);
    assert(same_glyphs(atlas, after));
    let ctx = area_context(f, area);
    lemma_walk_accounts(runs, ctx, after, f.misses, runs.len() as int);
    let g = planned(s, f, atlas, area, runs).0;
    let b = planned(s, f, atlas, area, runs).1;
    assert(same_glyphs(after, b));
    assert(starts_with(g.misses, f.misses));
    assert forall|i: int| 0 <= i < g.plans.len() implies plan_accounted(#[trigger] g.plans[i], b, g.misses) by {
        if i < f.plans.len() {
            assert(g.plans[i] == f.plans[i]);
            assert(plan_accounted(f.plans[i], atlas, f.misses));
            if let PlanModel::Miss { work, .. } = f.plans[i] {
                assert forall|j: int| 0 <= j < work.len() implies key_accounted((#[trigger] work[j]).glyph.key, b, g.misses) by {
                    lemma_accounted_stays(work[j].glyph.key, atlas, f.misses, b, g.misses);
                }
            }
        }
    }
}

/// Once the missing glyphs are in the atlas, so is every glyph of the frame.
pub proof fn law_resolving_the_misses_resolves_the_frame(f: FrameModel, before: AtlasState, after: AtlasState)
    requires
        accounted(f, before),
        forall|id: u128| #[trigger] before.glyphs.contains_key(id) ==> after.glyphs.contains_key(id),
        forall|i: int| 0 <= i < f.misses.len() ==> after.glyphs.contains_key((#[trigger] f.misses[i]).id()),
    ensures
        frame_resolved(f, after),
{
    assert forall|i: int| 0 <= i < f.plans.len() implies plan_resolved(#[trigger] f.plans[i], after) by {
        assert(plan_accounted(f.plans[i], before, f.misses));
        if let PlanModel::Miss { work, .. } = f.plans[i] {
            assert forall|j: int| 0 <= j < work.len() implies item_ready(#[trigger] work[j], after, false) by {
                let key = work[j].glyph.key;
                assert(key_accounted(key, before, f.misses));
                if !before.glyphs.contains_key(key.id()) {
                    let k = choose|k: int| 0 <= k < f.misses.len() && f.misses[k] == key;
                    assert(after.glyphs.contains_key(f.misses[k].id()));
                }
            }
        }
    }
}

/// Every glyph that a use is of has border data.
spec fn served(uses: Seq<BorderUse>, atlas: AtlasState) -> bool {
    forall|k: int| 0 <= k < uses.len() ==> border_start(atlas, (#[trigger] uses[k]).key.id()).is_some()
}

proof fn lemma_instances_are_ready(
    instances: Seq<GlyphInstance>,
    keys: Seq<GlyphKey>,
    atlas: AtlasState,
    after: AtlasState,
    radius_px: F32,
    n: int,
)
    requires
        0 <= n <= instances.len(),
        after.glyphs == atlas.glyphs,
        served(uses_of_instances(instances, keys, atlas, radius_px, n), after),
    ensures
        forall|i: int| 0 <= i < n ==> instance_ready(#[trigger] instances[i], keys, after),
    decreases n,
{
    if n > 0 {
        let rest = uses_of_instances(instances, keys, atlas, radius_px, n - 1);
        let all = uses_of_instances(instances, keys, atlas, radius_px, n);
        assert forall|k: int| 0 <= k < rest.len() implies border_start(after, (#[trigger] rest[k]).key.id()).is_some() by {
            assert(all[k] == rest[k]);
        }
        lemma_instances_are_ready(instances, keys, atlas, after, radius_px, n - 1);
        let offset = instances[n - 1].glyph_offset;
        lemma_same_bordered_key(atlas, after, keys, offset, 0);
        if bordered_key(atlas, keys, offset, 0) is Some {
            assert(all[rest.len() as int].key == (bordered_key(atlas, keys, offset, 0)->0).0);
        }
    }
}

proof fn lemma_same_bordered_key(atlas: AtlasState, after: AtlasState, keys: Seq<GlyphKey>, offset: u32, i: int)
    requires
        after.glyphs == atlas.glyphs,
    ensures
        bordered_key(after, keys, offset, i) == bordered_key(atlas, keys, offset, i),
    decreases keys.len() - i,
{
    if 0 <= i < keys.len() {
        lemma_same_bordered_key(atlas, after, keys, offset, i + 1);
    }
}

proof fn lemma_work_is_ready(
    work: Seq<WorkItem>,
    scale: F32,
    atlas: AtlasState,
    after: AtlasState,
    radius_px: F32,
    n: int,
)
    requires
        0 <= n <= work.len(),
        after.glyphs == atlas.glyphs,
        work_ready(work, atlas, false),
        served(uses_of_work(work, scale, atlas, radius_px, n), after),
    ensures
        forall|i: int| 0 <= i < n ==> item_ready(#[trigger] work[i], after, true),
    decreases n,
{
    if n > 0 {
        let rest = uses_of_work(work, scale, atlas, radius_px, n - 1);
        let all = uses_of_work(work, scale, atlas, radius_px, n);
        assert forall|k: int| 0 <= k < rest.len() implies border_start(after, (#[trigger] rest[k]).key.id()).is_some() by {
            assert(all[k] == rest[k]);
        }
        lemma_work_is_ready(work, scale, atlas, after, radius_px, n - 1);
        assert(item_ready(work[n - 1], atlas, false));
        let key = work[n - 1].glyph.key;
        if monochrome(atlas.glyphs[key.id()]) {
            assert(all[rest.len() as int].key == key);
        }
    }
}

proof fn lemma_widest_is_some(list: Seq<PhysicalDecoration>, n: int)
    requires
        0 < n,
    ensures
        widest(list, n) is Some,
{
}

proof fn lemma_plan_uses_are_uses(
    plans: Seq<PlanModel>,
    cache: Map<u128, AreaModel>,
    atlas: AtlasState,
    after: AtlasState,
    n: int,
    i: int,
)
    requires
        0 <= i < n <= plans.len(),
        served(uses_of_plans(plans, cache, atlas, n), after),
    ensures
        served(uses_of_plan(plans[i], cache, atlas), after),
    decreases n,
{
    let before = uses_of_plans(plans, cache, atlas, n - 1);
    let own = uses_of_plan(plans[n - 1], cache, atlas);
    let all = uses_of_plans(plans, cache, atlas, n);
    if i == n - 1 {
        assert forall|k: int| 0 <= k < own.len() implies border_start(after, (#[trigger] own[k]).key.id()).is_some() by {
            assert(all[before.len() + k] == own[k]);
        }
    } else {
        assert forall|k: int| 0 <= k < before.len() implies border_start(after, (#[trigger] before[k]).key.id()).is_some() by {
            assert(all[k] == before[k]);
        }
        lemma_plan_uses_are_uses(plans, cache, atlas, after, n - 1, i);
    }
}

/// Once the border data of every required glyph is in the atlas, the frame can be
/// emitted: no instance lacks the data that its draws refer to.
pub proof fn law_meeting_the_requirements_readies_the_frame(
    f: FrameModel,
    cache: Map<u128, AreaModel>,
    atlas: AtlasState,
    list: Seq<(GlyphKey, BorderCapacity)>,
    after: AtlasState,
)
    requires
        f.wf(),
        frame_resolved(f, atlas),
        requirements_of(uses_of_plans(f.plans, cache, atlas, f.plans.len() as int), list),
        after.glyphs == atlas.glyphs,
        forall|i: int| 0 <= i < list.len() ==> border_start(after, (#[trigger] list[i]).0.id()).is_some(),
    ensures
        frame_ready(f, cache, after),
{
    let n = f.plans.len() as int;
    let uses = uses_of_plans(f.plans, cache, atlas, n);
    assert forall|k: int| 0 <= k < uses.len() implies border_start(after, (#[trigger] uses[k]).key.id()).is_some() by {
        let i = choose|i: int| 0 <= i < list.len() && (#[trigger] list[i]).0 == uses[k].key;
        assert(border_start(after, list[i].0.id()).is_some());
    }
    assert forall|i: int| 0 <= i < n implies plan_ready(#[trigger] f.plans[i], cache, after) by {
        let plan = f.plans[i];
        lemma_plan_uses_are_uses(f.plans, cache, atlas, after, n, i);
        assert(plan.wf());
        assert(plan_resolved(plan, atlas));
        let decorations = plan.list();
        if decorations.len() > 0 {
            lemma_widest_is_some(decorations, decorations.len() as int);
            let radius_px = widest(decorations, decorations.len() as int)->0;
            match plan {
                PlanModel::Miss { ctx, work, .. } => {
                    lemma_work_is_ready(work, ctx.scale, atlas, after, radius_px, work.len() as int);
                },
                _ => {
                    let c = cache[plan.key()];
                    lemma_instances_are_ready(c.instances, c.keys, atlas, after, radius_px, c.instances.len() as int);
                    assert(instances_ready(c.instances, c.keys, after));
                },
            }
        } else if let PlanModel::Miss { work, .. } = plan {
            assert forall|j: int| 0 <= j < work.len() implies item_ready(#[trigger] work[j], after, false) by {
                assert(item_ready(work[j], atlas, false));
            }
        }
    }
}

}
