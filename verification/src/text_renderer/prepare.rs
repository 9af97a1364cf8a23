//! The later passes over a frame's areas: what the atlas has to provide, and the
//! instances and draws.
use vstd::prelude::*;
use rustc_hash::FxHashMap;
use crate::float32::F32;
use crate::fx::{lists_map, map_drain, map_get, map_insert, map_remove};
use crate::glyph_cache::{ColorGlyphEntry, GlyphKey, is_monochrome};
use crate::lists::{append_all, copied};
use crate::raster_text::NonVectorGlyph;
use crate::text_atlas::{AtlasState, TextAtlas, border_start};
use crate::text_renderer::area::{
    AreaModel, CachedTextArea, append_uses_of_instances, append_uses_of_work, border_instances_of, border_stream,
    instance_ready, instances_ready, uses_of_instances, uses_of_work,
};
use crate::text_renderer::capacity::{
    BorderCapacity, BorderUse, border_capacities, bordered_key_for, requirements_of, widest, widest_spread,
};
use crate::text_renderer::draws::{
    AreaSpan, AreaStreams, BorderUniform, DrawList, Paint, PendingBlur, float_rect, plan_bounds,
};
use crate::text_renderer::emit::{AreaContext, AreaOutput, Emitted, WorkItem, emitted, item_ready, work_ready};
use crate::text_renderer::frame::{
    Frame, FrameModel, RendererState, TextRenderer, area_models, area_wf, plan_models, shown,
};
use crate::text_renderer::geometry::{
    GlyphInstance, Placement, all_kept, instance_stream_unchanged, kept_flags, kept_instances,
    law_flags_stay_in_step, re_cull_vector_instances,
};
use crate::text_renderer::keys::{law_sorted_form_is_unique, sorted_keys, sorted_set};
use crate::text_renderer::plan::{AreaPlan, MissArea, PlanModel};
use crate::types::{DecorationExtents, PhysicalDecoration};

verus! {

/// The keys of a list, each once and in order.
pub open spec fn sorted_form(all: Seq<GlyphKey>) -> Seq<GlyphKey> {
    choose|keys: Seq<GlyphKey>| sorted_set(keys, all)
}

/// The decorated uses of the glyphs of one area.
pub open spec fn uses_of_plan(plan: PlanModel, cache: Map<u128, AreaModel>, atlas: AtlasState) -> Seq<BorderUse> {
    match widest(plan.list(), plan.list().len() as int) {
        None => Seq::empty(),
        Some(radius_px) => match plan {
            PlanModel::Miss { ctx, work, .. } => uses_of_work(work, ctx.scale, atlas, radius_px, work.len() as int),
            _ => {
                let cached = cache[plan.key()];
                uses_of_instances(cached.instances, cached.keys, atlas, radius_px, cached.instances.len() as int)
            },
        },
    }
}

/// The decorated uses of the glyphs of the first `n` areas.
pub open spec fn uses_of_plans(plans: Seq<PlanModel>, cache: Map<u128, AreaModel>, atlas: AtlasState, n: int) -> Seq<BorderUse>
    decreases n,
{
    if n <= 0 {
        Seq::empty()
    } else {
        uses_of_plans(plans, cache, atlas, n - 1) + uses_of_plan(plans[n - 1], cache, atlas)
    }
}

/// The glyphs of an area that is laid out again are in the atlas.
pub open spec fn plan_resolved(plan: PlanModel, atlas: AtlasState) -> bool {
    match plan {
        PlanModel::Miss { work, .. } => work_ready(work, atlas, false),
        _ => true,
    }
}

/// The glyphs of every area that is laid out again are in the atlas.
pub open spec fn frame_resolved(f: FrameModel, atlas: AtlasState) -> bool {
    forall|i: int| 0 <= i < f.plans.len() ==> plan_resolved(#[trigger] f.plans[i], atlas)
}

/// The atlas holds what an area needs.
pub open spec fn plan_ready(plan: PlanModel, cache: Map<u128, AreaModel>, atlas: AtlasState) -> bool {
    match plan {
        PlanModel::Miss { ctx, work, .. } => work_ready(work, atlas, ctx.decorated),
        _ => plan.list().len() > 0 ==> instances_ready(cache[plan.key()].instances, cache[plan.key()].keys, atlas),
    }
}

/// The atlas holds what every area needs.
pub open spec fn frame_ready(f: FrameModel, cache: Map<u128, AreaModel>, atlas: AtlasState) -> bool {
    forall|i: int| 0 <= i < f.plans.len() ==> plan_ready(#[trigger] f.plans[i], cache, atlas)
}

/// The decoration stream of an area, empty without decorations.
pub open spec fn stream_if(decorated: bool, instances: Seq<GlyphInstance>, keys: Seq<GlyphKey>, atlas: AtlasState) -> Seq<
    GlyphInstance,
> {
    if decorated {
        border_stream(instances, keys, atlas, instances.len() as int)
    } else {
        Seq::empty()
    }
}

/// The prepared area that a plan leads to.
pub open spec fn area_result(plan: PlanModel, cache: Map<u128, AreaModel>, atlas: AtlasState, generation: u32) -> AreaModel {
    let old_area = cache[plan.key()];
    match plan {
        PlanModel::HitDirect { decorations, .. } => AreaModel {
            decorations,
            border: stream_if(decorations.len() > 0, old_area.instances, old_area.keys, atlas),
            ..old_area
        },
        PlanModel::ReCull { dx, dy, left, top, bounds, scroll, decorations, extents, .. } => {
            let p = Placement { dx, dy, scroll: scroll@, bounds: bounds@, extents };
            let n = old_area.instances.len() as int;
            let instances = kept_instances(old_area.instances, p, n);
            AreaModel {
                left,
                top,
                scroll,
                decorations,
                extents,
                instances,
                decorated: kept_flags(old_area.instances, old_area.decorated, p, n),
                border: stream_if(decorations.len() > 0, instances, old_area.keys, atlas),
                complete: old_area.complete && all_kept(old_area.instances, p),
                ..old_area
            }
        },
        PlanModel::Miss { ctx, area_bounds, work, all_runs_included, decorations, .. } => {
            let e = emitted(ctx, work, atlas, all_runs_included, work.len() as int);
            AreaModel {
                left: ctx.left,
                top: ctx.top,
                scroll: ctx.scroll,
                scale: ctx.scale,
                bounds: area_bounds,
                default_color: ctx.default_color,
                decorations,
                extents: ctx.extents,
                decorated: e.decorated,
                generation,
                instances: e.instances,
                border: e.border,
                keys: sorted_form(e.keys),
                raster: e.raster,
                complete: e.complete,
            }
        },
    }
}

/// Some area of the frame has decorations.
pub open spec fn bordered(plans: Seq<PlanModel>) -> bool {
    exists|i: int| 0 <= i < plans.len() && (#[trigger] plans[i]).list().len() > 0
}

/// What a frame comes to, area by area.
pub ghost struct Output {
    pub instances: Seq<GlyphInstance>,
    pub border: Seq<GlyphInstance>,
    pub raster: Seq<NonVectorGlyph>,
    pub paint: Paint,
    pub cache: Map<u128, AreaModel>,
}

impl Output {
    /// One more area.
    pub open spec fn with_plan(self, plan: PlanModel, atlas: AtlasState, f: FrameModel) -> Output {
        let a = area_result(plan, self.cache, atlas, f.generation);
        let span = AreaSpan {
            border: a.border,
            flags: a.decorated,
            normal_start: self.instances.len() as int,
            border_start: self.border.len() as int,
            clip: float_rect(plan.clip())@,
            scroll: f.scroll@,
        };
        Output {
            instances: self.instances + a.instances,
            border: self.border + a.border,
            raster: self.raster + a.raster,
            paint: self.paint.with_area(span, plan.list(), bordered(f.plans)),
            cache: self.cache.insert(plan.key(), a),
        }
    }
}

/// What the first `n` areas of a frame come to.
pub open spec fn output(f: FrameModel, cache: Map<u128, AreaModel>, atlas: AtlasState, n: int) -> Output
    decreases n,
{
    if n <= 0 {
        Output {
            instances: Seq::empty(),
            border: Seq::empty(),
            raster: Seq::empty(),
            paint: Paint { draws: Seq::empty(), uniforms: Seq::empty(), blurs: Seq::empty() },
            cache,
        }
    } else {
        output(f, cache, atlas, n - 1).with_plan(f.plans[n - 1], atlas, f)
    }
}

/// The prepared areas that stay: those that the frame showed. They are stamped
/// with the generation that the frame was prepared against.
pub open spec fn kept_areas(m: Map<u128, AreaModel>, counts: Map<u128, usize>, generation: u32) -> Map<u128, AreaModel> {
    Map::new(
        |k: u128| m.contains_key(k) && shown(counts, k),
        |k: u128| AreaModel { generation, ..m[k] },
    )
}

/// The vertex buffer already holds the instances of the frame: every area is drawn as
/// it was, and the stream before was the same and was drawable.
pub open spec fn uploaded_before(f: FrameModel, out: Output) -> bool {
    f.all_direct_hits && out.instances == f.previous && out.instances.len() == f.drawn
}

/// The renderer after a frame was emitted.
pub open spec fn emitted_state(s: RendererState, f: FrameModel, atlas: AtlasState) -> RendererState {
    let out = output(f, s.cache, atlas, f.plans.len() as int);
    RendererState {
        instances: out.instances,
        border: out.border,
        draws: out.paint.draws,
        cache: kept_areas(out.cache, s.counts, f.generation),
        glyphs: if uploaded_before(f, out) { out.instances.len() as int } else { 0 },
        ..s
    }
}

/// What the caller carries out for a frame.
#[derive(Debug)]
pub struct PreparedFrame {
    /// The paints of the ordered draws.
    pub uniforms: Vec<BorderUniform>,
    /// Shadows to render, in the order of their draws.
    pub blurs: Vec<PendingBlur>,
    /// Glyphs to draw from their images.
    pub raster: Vec<NonVectorGlyph>,
    /// Whether the plain instances have to be uploaded.
    pub upload_instances: bool,
    /// Whether the decoration instances have to be uploaded.
    pub upload_border_instances: bool,
}

/// Moving an instance does not change which glyph it is of.
proof fn lemma_kept_are_ready(instances: Seq<GlyphInstance>, keys: Seq<GlyphKey>, atlas: AtlasState, p: Placement, n: int)
    requires
        instances_ready(instances, keys, atlas),
        0 <= n <= instances.len(),
    ensures
        instances_ready(kept_instances(instances, p, n), keys, atlas),
    decreases n,
{
    if n > 0 {
        lemma_kept_are_ready(instances, keys, atlas, p, n - 1);
        assert(instance_ready(instances[n - 1], keys, atlas));
        let rest = kept_instances(instances, p, n - 1);
        let all = kept_instances(instances, p, n);
        assert forall|i: int| 0 <= i < all.len() implies instance_ready(#[trigger] all[i], keys, atlas) by {
            if i < rest.len() {
                assert(all[i] == rest[i]);
            }
        }
    }
}

proof fn lemma_border_stream_len(instances: Seq<GlyphInstance>, keys: Seq<GlyphKey>, atlas: AtlasState, n: int)
    requires
        0 <= n,
    ensures
        border_stream(instances, keys, atlas, n).len() <= n,
    decreases n,
{
    if n > 0 {
        lemma_border_stream_len(instances, keys, atlas, n - 1);
    }
}

/// The streams of an emission go together.
pub open spec fn emission_wf(e: Emitted) -> bool {
    e.decorated.len() == e.instances.len() && e.border.len() <= e.instances.len()
}

proof fn lemma_layers_keep_wf(e: Emitted, ctx: AreaContext, item: WorkItem, entry: ColorGlyphEntry, n: int)
    requires
        emission_wf(e),
    ensures
        emission_wf(e.with_layers(ctx, item, entry, n)),
    decreases n,
{
    if n > 0 {
        lemma_layers_keep_wf(e, ctx, item, entry, n - 1);
        reveal(Emitted::with_layer);
    }
}

proof fn lemma_emission_wf(ctx: AreaContext, work: Seq<WorkItem>, atlas: AtlasState, complete: bool, n: int)
    ensures
        emission_wf(emitted(ctx, work, atlas, complete, n)),
    decreases n,
{
    if n > 0 {
        lemma_emission_wf(ctx, work, atlas, complete, n - 1);
        let e = emitted(ctx, work, atlas, complete, n - 1);
        let known = Emitted { keys: e.keys.push(work[n - 1].glyph.key), ..e };
        let id = work[n - 1].glyph.key.id();
        reveal(Emitted::with_commands);
        reveal(Emitted::with_outline);
        lemma_layers_keep_wf(known, ctx, work[n - 1], atlas.layers[id], atlas.layers[id].layers@.len() as int);
    }
}

/// A plan on a well-formed prepared area leads to one.
proof fn lemma_area_result_wf(plan: PlanModel, cache: Map<u128, AreaModel>, atlas: AtlasState, generation: u32)
    requires
        !(plan is Miss) ==> area_wf(cache[plan.key()]),
    ensures
        area_wf(area_result(plan, cache, atlas, generation)),
{
    let old_area = cache[plan.key()];
    match plan {
        PlanModel::HitDirect { .. } => {
            lemma_border_stream_len(old_area.instances, old_area.keys, atlas, old_area.instances.len() as int);
        },
        PlanModel::ReCull { dx, dy, bounds, scroll, extents, .. } => {
            let p = Placement { dx, dy, scroll: scroll@, bounds: bounds@, extents };
            let n = old_area.instances.len() as int;
            law_flags_stay_in_step(old_area.instances, old_area.decorated, p, n);
            let kept = kept_instances(old_area.instances, p, n);
            lemma_border_stream_len(kept, old_area.keys, atlas, kept.len() as int);
        },
        PlanModel::Miss { ctx, work, all_runs_included, .. } => {
            lemma_emission_wf(ctx, work, atlas, all_runs_included, work.len() as int);
        },
    }
}

/// While areas are emitted, a prepared area stays as it was until its own turn.
proof fn lemma_waiting_area_is_untouched(s: RendererState, f: FrameModel, atlas: AtlasState, n: int, i: int)
    requires
        s.holds(f),
        0 <= n <= i < f.plans.len(),
    ensures
        output(f, s.cache, atlas, n).cache.contains_key(f.plans[i].key()) == s.cache.contains_key(f.plans[i].key()),
        output(f, s.cache, atlas, n).cache[f.plans[i].key()] == s.cache[f.plans[i].key()],
    decreases n,
{
    if n > 0 {
        lemma_waiting_area_is_untouched(s, f, atlas, n - 1, i);
        assert(f.plans[n - 1].key() != f.plans[i].key());
    }
}

fn is_work_ready(work: &Vec<WorkItem>, atlas: &TextAtlas, decorated: bool) -> (r: bool)
    ensures
        r == work_ready(work@, atlas@, decorated),
{
    for i in 0..work.len()
        invariant
            forall|j: int| 0 <= j < i ==> item_ready(#[trigger] work@[j], atlas@, decorated),
    {
        let key: GlyphKey = work[i].glyph.key;
        let ready: bool = match atlas.glyph(&key) {
            None => false,
            Some(entry) => !decorated || !is_monochrome(&entry) || atlas.border_descriptor(&key).is_some(),
        };
        assert(ready == item_ready(work@[i as int], atlas@, decorated));
        if !ready {
            return false;
        }
    }
    true
}

fn are_instances_ready(instances: &Vec<GlyphInstance>, keys: &Vec<GlyphKey>, atlas: &TextAtlas) -> (r: bool)
    ensures
        r == instances_ready(instances@, keys@, atlas@),
{
    for i in 0..instances.len()
        invariant
            forall|j: int| 0 <= j < i ==> instance_ready(#[trigger] instances@[j], keys@, atlas@),
    {
        let ready: bool = match bordered_key_for(atlas, keys.as_slice(), instances[i].glyph_offset) {
            None => true,
            Some((key, _)) => atlas.border_descriptor(&key).is_some(),
        };
        assert(ready == instance_ready(instances@[i as int], keys@, atlas@));
        if !ready {
            return false;
        }
    }
    true
}

impl TextRenderer {
    /// Whether the glyphs of every area that is laid out again are in the atlas.
    pub fn is_resolved(frame: &Frame, atlas: &TextAtlas) -> (r: bool)
        ensures
            r == frame_resolved(frame.model(), atlas@),
    {
        for i in 0..frame.plans.len()
            invariant
                frame.model().plans == plan_models(frame.plans@),
                forall|j: int| 0 <= j < i ==> plan_resolved(#[trigger] frame.model().plans[j], atlas@),
        {
            let ghost plan = frame.model().plans[i as int];
            assert(plan == frame.plans@[i as int].model());
            if let AreaPlan::Miss(area) = &frame.plans[i] {
                if !is_work_ready(&area.work, atlas, false) {
                    assert(!plan_resolved(plan, atlas@));
                    return false;
                }
            }
            assert(plan_resolved(plan, atlas@));
        }
        true
    }

    fn append_uses(&self, uses: &mut Vec<BorderUse>, plan: &AreaPlan, atlas: &TextAtlas)
        requires
            !(plan.model() is Miss) ==> self@.cache.contains_key(plan.model().key()),
        ensures
            final(uses)@ == old(uses)@ + uses_of_plan(plan.model(), self@.cache, atlas@),
    {
        let radius_px: F32 = match widest_spread(plan.decorations().as_slice()) {
            Some(radius_px) => radius_px,
            None => {
                assert(uses@ + Seq::<BorderUse>::empty() =~= uses@);
                return;
            },
        };
        let key: u128 = match plan {
            AreaPlan::Miss(area) => {
                append_uses_of_work(uses, &area.work, area.ctx.scale, atlas, radius_px);
                return;
            },
            AreaPlan::HitDirect { cache_key, .. } => *cache_key,
            AreaPlan::ReCull { cache_key, .. } => *cache_key,
        };
        if let Some(cached) = map_get(&self.text_area_cache, key) {
            assert(self@.cache[key] == cached.model());
            append_uses_of_instances(uses, &cached.instances, &cached.distinct_keys, atlas, radius_px);
        }
    }

    /// What the border data of the frame's glyphs has to serve, each glyph once.
    /// Nothing is promised of the order.
    pub fn border_requirements(&self, frame: &Frame, atlas: &TextAtlas) -> (r: Vec<(GlyphKey, BorderCapacity)>)
        requires
            self@.holds(frame.model()),
            frame_resolved(frame.model(), atlas@),
        ensures
            requirements_of(
                uses_of_plans(
                    frame.model().plans,
                    self@.cache,
                    atlas@,
                    frame.model().plans.len() as int,
                ),
                r@,
            ),
    {
        let mut uses: Vec<BorderUse> = Vec::new();
        for i in 0..frame.plans.len()
            invariant
                self@.holds(frame.model()),
                frame.model().plans == plan_models(frame.plans@),
                uses@ == uses_of_plans(frame.model().plans, self@.cache, atlas@, i as int),
        {
            assert(frame.model().plans[i as int] == frame.plans@[i as int].model());
            self.append_uses(&mut uses, &frame.plans[i], atlas);
        }
        border_capacities(&uses)
    }

    fn is_plan_ready(&self, plan: &AreaPlan, atlas: &TextAtlas) -> (r: bool)
        requires
            !(plan.model() is Miss) ==> self@.cache.contains_key(plan.model().key()),
        ensures
            r == plan_ready(plan.model(), self@.cache, atlas@),
    {
        let key: u128 = match plan {
            AreaPlan::Miss(area) => return is_work_ready(&area.work, atlas, area.ctx.decorated),
            AreaPlan::HitDirect { cache_key, .. } => *cache_key,
            AreaPlan::ReCull { cache_key, .. } => *cache_key,
        };
        if plan.decorations().len() == 0 {
            return true;
        }
        match map_get(&self.text_area_cache, key) {
            Some(cached) => {
                assert(self@.cache[key] == cached.model());
                are_instances_ready(&cached.instances, &cached.distinct_keys, atlas)
            },
            None => true,
        }
    }

    /// Whether the atlas holds what every area of the frame needs.
    pub fn is_ready(&self, frame: &Frame, atlas: &TextAtlas) -> (r: bool)
        requires
            self@.holds(frame.model()),
        ensures
            r == frame_ready(frame.model(), self@.cache, atlas@),
    {
        for i in 0..frame.plans.len()
            invariant
                self@.holds(frame.model()),
                frame.model().plans == plan_models(frame.plans@),
                forall|j: int| 0 <= j < i ==> plan_ready(#[trigger] frame.model().plans[j], self@.cache, atlas@),
        {
            let ghost plan = frame.model().plans[i as int];
            assert(plan == frame.plans@[i as int].model());
            if !self.is_plan_ready(&frame.plans[i], atlas) {
                assert(!plan_ready(plan, self@.cache, atlas@));
                return false;
            }
        }
        true
    }
}

/// The prepared area of a direct hit. Its decoration stream is built again when
/// there are decorations and dropped when there are none.
fn direct_area(cached: CachedTextArea, decorations: &Vec<PhysicalDecoration>, atlas: &TextAtlas) -> (r: CachedTextArea)
    requires
        decorations@.len() > 0 ==> instances_ready(cached.instances@, cached.distinct_keys@, atlas@),
    ensures
        r.model() == (AreaModel {
            decorations: decorations@,
            border: stream_if(decorations@.len() > 0, cached.instances@, cached.distinct_keys@, atlas@),
            ..cached.model()
        }),
{
    let mut area: CachedTextArea = cached;
    if decorations.len() == 0 {
        area.border_instances = Vec::new();
        assert(area.border_instances@ =~= Seq::empty());
    } else {
        area.border_instances = border_instances_of(&area.instances, &area.distinct_keys, atlas);
    }
    area.decorations = copied(decorations);
    area
}

/// The prepared area of a plan to cull again.
fn reculled_area(
    cached: CachedTextArea,
    dx: F32,
    dy: F32,
    left: F32,
    top: F32,
    bounds: [i32; 4],
    scroll: [F32; 2],
    decorations: &Vec<PhysicalDecoration>,
    extents: DecorationExtents,
    atlas: &TextAtlas,
) -> (r: CachedTextArea)
    requires
        decorations@.len() > 0 ==> instances_ready(cached.instances@, cached.distinct_keys@, atlas@),
    ensures
        ({
            let p = Placement { dx, dy, scroll: scroll@, bounds: bounds@, extents };
            let n = cached.instances@.len() as int;
            let instances = kept_instances(cached.instances@, p, n);
            r.model() == (AreaModel {
                left,
                top,
                scroll,
                decorations: decorations@,
                extents,
                instances,
                decorated: kept_flags(cached.instances@, cached.decorated@, p, n),
                border: stream_if(decorations@.len() > 0, instances, cached.distinct_keys@, atlas@),
                complete: cached.complete && all_kept(cached.instances@, p),
                ..cached.model()
            })
        }),
{
    let ghost p = Placement { dx, dy, scroll: scroll@, bounds: bounds@, extents };
    let (instances, decorated, complete) = re_cull_vector_instances(
        cached.instances.as_slice(),
        cached.decorated.as_slice(),
        cached.complete,
        dx,
        dy,
        scroll,
        bounds,
        extents,
    );
    let border_instances: Vec<GlyphInstance> = if decorations.len() == 0 {
        Vec::new()
    } else {
        proof {
            lemma_kept_are_ready(
                cached.instances@,
                cached.distinct_keys@,
                atlas@,
                p,
                cached.instances@.len() as int,
            );
        }
        border_instances_of(&instances, &cached.distinct_keys, atlas)
    };
    let mut area: CachedTextArea = cached;
    area.left = left;
    area.top = top;
    area.scroll = scroll;
    area.decorations = copied(decorations);
    area.extents = extents;
    area.instances = instances;
    area.decorated = decorated;
    area.border_instances = border_instances;
    area.complete = complete;
    assert(decorations@.len() == 0 ==> area.border_instances@ =~= Seq::empty());
    area
}

/// The prepared area of a plan to lay out again.
fn fresh_area(miss: &MissArea, atlas: &TextAtlas, generation: u32) -> (r: CachedTextArea)
    requires
        work_ready(miss.work@, atlas@, miss.ctx.decorated),
    ensures
        ({
            let e = emitted(miss.ctx, miss.work@, atlas@, miss.all_runs_included, miss.work@.len() as int);
            r.model() == (AreaModel {
                left: miss.ctx.left,
                top: miss.ctx.top,
                scroll: miss.ctx.scroll,
                scale: miss.ctx.scale,
                bounds: miss.bounds,
                default_color: miss.ctx.default_color,
                decorations: miss.decorations@,
                extents: miss.ctx.extents,
                decorated: e.decorated,
                generation,
                instances: e.instances,
                border: e.border,
                keys: sorted_form(e.keys),
                raster: e.raster,
                complete: e.complete,
            })
        }),
{
    let out: AreaOutput = AreaOutput::of_area(&miss.ctx, &miss.work, atlas, miss.all_runs_included);
    let distinct_keys: Vec<GlyphKey> = sorted_keys(&out.keys);
    proof {
        law_sorted_form_is_unique(distinct_keys@, sorted_form(out.keys@), out.keys@);
    }
    CachedTextArea {
        left: miss.ctx.left,
        top: miss.ctx.top,
        scroll: miss.ctx.scroll,
        scale: miss.ctx.scale,
        bounds: miss.bounds,
        default_color: miss.ctx.default_color,
        decorations: copied(&miss.decorations),
        extents: miss.ctx.extents,
        decorated: out.decorated,
        atlas_generation: generation,
        instances: out.instances,
        border_instances: out.border,
        distinct_keys,
        non_vector_glyphs: out.raster,
        complete: out.complete,
    }
}

proof fn lemma_area_models_insert(m: Map<u128, CachedTextArea>, key: u128, area: CachedTextArea)
    ensures
        area_models(m.insert(key, area)) == area_models(m).insert(key, area.model()),
        area_models(m.remove(key)) == area_models(m).remove(key),
        area_models(m.remove(key).insert(key, area)) == area_models(m).insert(key, area.model()),
{
    assert(area_models(m.insert(key, area)) =~= area_models(m).insert(key, area.model()));
    assert(area_models(m.remove(key)) =~= area_models(m).remove(key));
    assert(area_models(m.remove(key).insert(key, area)) =~= area_models(m).insert(key, area.model()));
}

impl TextRenderer {
    /// Prepares one area and puts it among the prepared ones. Its instances are
    /// appended to the frame's streams and its draws to `list`.
    fn emit_plan(
        &mut self,
        plan: &AreaPlan,
        atlas: &TextAtlas,
        generation: u32,
        scroll: [F32; 2],
        bordered_frame: bool,
        list: &mut DrawList,
        raster: &mut Vec<NonVectorGlyph>,
    )
        requires
            old(self)@.wf(),
            !(plan.model() is Miss) ==> old(self)@.cache.contains_key(plan.model().key()),
            plan_ready(plan.model(), old(self)@.cache, atlas@),
            old(self)@.border.len() <= old(self)@.instances.len(),
        ensures
            final(self)@.wf(),
            final(self)@.border.len() <= final(self)@.instances.len(),
            ({
                let a = area_result(plan.model(), old(self)@.cache, atlas@, generation);
                let span = AreaSpan {
                    border: a.border,
                    flags: a.decorated,
                    normal_start: old(self)@.instances.len() as int,
                    border_start: old(self)@.border.len() as int,
                    clip: float_rect(plan.model().clip())@,
                    scroll: scroll@,
                };
                &&& final(self)@ == (RendererState {
                    instances: old(self)@.instances + a.instances,
                    border: old(self)@.border + a.border,
                    cache: old(self)@.cache.insert(plan.model().key(), a),
                    ..old(self)@
                })
                &&& final(raster)@ == old(raster)@ + a.raster
                &&& final(list).model() == old(list).model().with_area(span, plan.model().list(), bordered_frame)
            }),
    {
        let ghost before = self@;
        let ghost m = self.text_area_cache@;
        let ghost model = plan.model();
        let key: u128 = match plan {
            AreaPlan::HitDirect { cache_key, .. } => *cache_key,
            AreaPlan::ReCull { cache_key, .. } => *cache_key,
            AreaPlan::Miss(miss) => miss.cache_key,
        };
        let area: CachedTextArea = match plan {
            AreaPlan::HitDirect { decorations, .. } => {
                let cached: CachedTextArea = map_remove(&mut self.text_area_cache, key).unwrap();
                assert(cached.model() == before.cache[key]);
                direct_area(cached, decorations, atlas)
            },
            AreaPlan::ReCull { dx, dy, left, top, bounds, scroll, decorations, extents, .. } => {
                let cached: CachedTextArea = map_remove(&mut self.text_area_cache, key).unwrap();
                assert(cached.model() == before.cache[key]);
                reculled_area(cached, *dx, *dy, *left, *top, *bounds, *scroll, decorations, *extents, atlas)
            },
            AreaPlan::Miss(miss) => fresh_area(miss, atlas, generation),
        };
        let ghost a = area_result(model, before.cache, atlas@, generation);
        assert(area.model() == a);
        proof {
            lemma_area_result_wf(model, before.cache, atlas@, generation);
            lemma_area_models_insert(m, key, area);
        }
        let normal_start: usize = self.instances.len();
        let border_start: usize = self.border_instances.len();
        append_all(&mut self.instances, &area.instances);
        append_all(&mut self.border_instances, &area.border_instances);
        append_all(raster, &area.non_vector_glyphs);
        let clip: [i32; 4] = plan.clip();
        let streams = AreaStreams {
            border: area.border_instances.as_slice(),
            flags: area.decorated.as_slice(),
            normal_start,
            border_start,
            clip: plan_bounds(&clip),
            scroll,
        };
        let normal_end: usize = self.instances.len();
        let border_end: usize = self.border_instances.len();
        assert(normal_end == normal_start + area.instances@.len());
        assert(border_end == border_start + area.border_instances@.len());
        list.push_area(&streams, plan.decorations(), bordered_frame);
        map_insert(&mut self.text_area_cache, key, area);
        assert(self@.cache == before.cache.insert(key, a));
    }
}

/// Whether an identity is that of an area which the frame showed.
fn is_shown(counts: &FxHashMap<u128, usize>, key: u128) -> (r: bool)
    ensures
        r == shown(counts@, key),
{
    match map_get(counts, key % 0x1_0000_0000_0000_0000) {
        Some(count) => key / 0x1_0000_0000_0000_0000 < *count as u128,
        None => false,
    }
}

/// The prepared areas among the entries from `from` on that stay, stamped.
spec fn rebuilt(
    m: Map<u128, CachedTextArea>,
    entries: Seq<(u128, CachedTextArea)>,
    counts: Map<u128, usize>,
    generation: u32,
    from: int,
) -> bool {
    &&& forall|k: u128| #[trigger]
        m.contains_key(k) ==> shown(counts, k) && exists|j: int|
            from <= j < entries.len() && (#[trigger] entries[j]).0 == k && m[k].model() == (AreaModel {
                generation,
                ..entries[j].1.model()
            })
    &&& forall|j: int|
        from <= j < entries.len() && shown(counts, (#[trigger] entries[j]).0) ==> m.contains_key(entries[j].0)
}

impl TextRenderer {
    /// Drops the prepared areas that the frame did not show and stamps the others.
    fn retain_shown(&mut self, generation: u32)
        requires
            old(self)@.wf(),
        ensures
            final(self)@.wf(),
            final(self)@ == (RendererState {
                cache: kept_areas(old(self)@.cache, old(self)@.counts, generation),
                ..old(self)@
            }),
    {
        let ghost before = self@;
        let ghost m = self.text_area_cache@;
        let mut entries: Vec<(u128, CachedTextArea)> = map_drain(&mut self.text_area_cache);
        let ghost all = entries@;
        while entries.len() > 0
            invariant
                entries@.len() <= all.len(),
                entries@ == all.take(entries@.len() as int),
                lists_map(m, all),
                before == old(self)@,
                before.cache == area_models(m),
                self@ == (RendererState { cache: self@.cache, ..before }),
                self@.cache == area_models(self.text_area_cache@),
                rebuilt(self.text_area_cache@, all, before.counts, generation, entries@.len() as int),
            decreases entries.len(),
        {
            let ghost n = entries@.len() as int;
            let ghost was = self.text_area_cache@;
            let (key, cached) = entries.pop().unwrap();
            assert((key, cached) == all[n - 1]);
            assert(entries@ =~= all.take(n - 1));
            if is_shown(&self.text_area_occurrences, key) {
                let mut area: CachedTextArea = cached;
                area.atlas_generation = generation;
                map_insert(&mut self.text_area_cache, key, area);
                proof {
                    let now = self.text_area_cache@;
                    assert forall|k: u128| #[trigger] now.contains_key(k) implies shown(before.counts, k) && exists|j: int|
                        n - 1 <= j < all.len() && (#[trigger] all[j]).0 == k && now[k].model() == (AreaModel {
                            generation,
                            ..all[j].1.model()
                        }) by {
                        if k == key {
                            assert(all[n - 1].0 == k);
                        } else {
                            assert(was.contains_key(k));
                        }
                    }
                }
            }
        }
        proof {
            let now = self.text_area_cache@;
            let kept = kept_areas(before.cache, before.counts, generation);
            assert forall|k: u128| #[trigger] now.contains_key(k) == kept.contains_key(k) by {
                if kept.contains_key(k) {
                    assert(m.contains_key(k));
                    let j = choose|j: int| 0 <= j < all.len() && (#[trigger] all[j]).0 == k;
                    assert(now.contains_key(all[j].0));
                }
            }
            assert(self@.cache =~= kept);
        }
    }

    /// Emits a frame whose glyphs and border data are all in the atlas: its
    /// instances, its ordered draws and its prepared areas. The areas that the frame
    /// did not show are dropped.
    ///
    /// Unchanged text needs no upload: where every area is drawn as it was and the
    /// vertex buffer already holds the very same instances, they are drawable at
    /// once.
    pub fn emit(&mut self, frame: &Frame, atlas: &TextAtlas) -> (r: PreparedFrame)
        requires
            old(self)@.wf(),
            old(self)@.holds(frame.model()),
            frame_ready(frame.model(), old(self)@.cache, atlas@),
        ensures
            final(self)@.wf(),
            ({
                let f = frame.model();
                let out = output(f, old(self)@.cache, atlas@, f.plans.len() as int);
                &&& final(self)@ == emitted_state(old(self)@, f, atlas@)
                &&& r.uniforms@ == out.paint.uniforms
                &&& r.blurs@ == out.paint.blurs
                &&& r.raster@ == out.raster
                &&& r.upload_instances == !uploaded_before(f, out)
                &&& r.upload_border_instances == !(f.all_direct_hits && out.border == f.previous_border)
            }),
    {
        let ghost before = self@;
        let ghost f = frame.model();
        let mut bordered_frame: bool = false;
        for i in 0..frame.plans.len()
            invariant
                f == frame.model(),
                f.plans == plan_models(frame.plans@),
                bordered_frame == exists|j: int| 0 <= j < i && (#[trigger] f.plans[j]).list().len() > 0,
        {
            assert(f.plans[i as int] == frame.plans@[i as int].model());
            if frame.plans[i].decorations().len() > 0 {
                bordered_frame = true;
            }
        }
        let mut list: DrawList = DrawList::new();
        let mut raster: Vec<NonVectorGlyph> = Vec::new();
        assert(self@.instances =~= Seq::empty());
        assert(self@.border =~= Seq::empty());
        for i in 0..frame.plans.len()
            invariant
                before == old(self)@,
                f == frame.model(),
                f.plans == plan_models(frame.plans@),
                before.holds(f),
                frame_ready(f, before.cache, atlas@),
                bordered_frame == bordered(f.plans),
                self@.wf(),
                self@.border.len() <= self@.instances.len(),
                ({
                    let out = output(f, before.cache, atlas@, i as int);
                    &&& self@ == (RendererState {
                        instances: out.instances,
                        border: out.border,
                        cache: out.cache,
                        ..before
                    })
                    &&& raster@ == out.raster
                    &&& list.model() == out.paint
                }),
        {
            let ghost out = output(f, before.cache, atlas@, i as int);
            assert(f.plans[i as int] == frame.plans@[i as int].model());
            assert(plan_ready(f.plans[i as int], before.cache, atlas@));
            proof {
                lemma_waiting_area_is_untouched(before, f, atlas@, i as int, i as int);
            }
            self.emit_plan(
                &frame.plans[i],
                atlas,
                frame.generation,
                frame.scroll,
                bordered_frame,
                &mut list,
                &mut raster,
            );
            assert(output(f, before.cache, atlas@, i + 1) == out.with_plan(f.plans[i as int], atlas@, f));
        }
        self.retain_shown(frame.generation);
        let DrawList { draws, uniforms, blurs } = list;
        self.draws = draws;
        let same: bool = instance_stream_unchanged(self.instances.as_slice(), frame.previous_instances.as_slice());
        let same_border: bool = instance_stream_unchanged(
            self.border_instances.as_slice(),
            frame.previous_border_instances.as_slice(),
        );
        let uploaded: bool = frame.all_direct_hits && same && self.instances.len() == frame.previously_drawn;
        if uploaded {
            self.glyphs_to_render = self.instances.len();
        }
        PreparedFrame {
            uniforms,
            blurs,
            raster,
            upload_instances: !uploaded,
            upload_border_instances: !(frame.all_direct_hits && same_border),
        }
    }
}

}
