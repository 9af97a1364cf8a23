//! What holds across frames and areas.
use vstd::prelude::*;
use crate::float32::{F32, lemma_self_difference};
use crate::glyph_cache::ColorGlyphEntry;
use crate::text_atlas::AtlasState;
use crate::text_atlas::compaction::compacted;
use crate::text_atlas::laws::law_compaction_changes_the_generation;
use crate::text_renderer::area::AreaModel;
use crate::text_renderer::draws::{AreaSpan, OrderedDraw, Paint, has_ring, uniform_of};
use crate::text_renderer::emit::{AreaContext, Emitted, WorkItem, emitted};
use crate::text_renderer::frame::{FrameModel, RendererState, area_class, area_context, shown};
use crate::text_renderer::geometry::{GlyphInstance, PlacementClass};
use crate::text_renderer::plan::{PlanModel, all_known, area_extents, area_id, class_of};
use crate::text_renderer::prepare::{area_result, bordered, kept_areas, output};
use crate::text_renderer::render::is_current;
use crate::text_renderer::runs::covered_before;
use crate::types::{PhysicalDecoration, TextArea, blurs, same_extents};

verus! {

/// Once the atlas was compacted, a frame that was prepared before is refused.
pub proof fn law_stale_frames_are_refused(s: RendererState, before: AtlasState, after: AtlasState)
    requires
        is_current(s, before.id, before.generation),
        compacted(before, after),
    ensures
        !is_current(s, after.id, after.generation),
{
    law_compaction_changes_the_generation(before, after);
}

/// A frame is refused by any other atlas.
pub proof fn law_other_atlases_are_refused(s: RendererState, id: u64, generation: u32)
    requires
        s.atlas_id != id,
    ensures
        !is_current(s, id, generation),
{
}

/// The values of an area's placement are numbers.
pub open spec fn placement_is_numeric(area: TextArea, scroll: Seq<F32>) -> bool {
    &&& area.left.finite()
    &&& area.top.finite()
    &&& !area.scale.nan()
    &&& !scroll[0].nan()
    &&& !scroll[1].nan()
}

/// An area that was laid out is drawn as it is by a later frame that shows it in the
/// same place, with decorations that reach as far, as long as its glyphs are in the
/// atlas at their places. The colors of the decorations may change.
pub proof fn law_repeated_areas_are_direct_hits(
    f: FrameModel,
    area: TextArea,
    work: Seq<WorkItem>,
    all_runs_included: bool,
    decorations: Seq<PhysicalDecoration>,
    cache: Map<u128, AreaModel>,
    atlas: AtlasState,
    later: RendererState,
    g: FrameModel,
    again: TextArea,
    now: AtlasState,
)
    requires
        placement_is_numeric(area, f.scroll@),
        !again.redraw,
        again.left == area.left,
        again.top == area.top,
        again.scale == area.scale,
        again.bounds == area.bounds,
        again.default_color == area.default_color,
        same_extents(area_extents(area), area_extents(again)),
        g.generation == f.generation,
        g.scroll == f.scroll,
        ({
            let key = area_id(again.buffer, later.occurrences(again.buffer));
            let plan = PlanModel::Miss {
                key,
                ctx: area_context(f, area),
                area_bounds: area.bounds,
                work,
                all_runs_included,
                decorations,
            };
            &&& later.cache.contains_key(key)
            &&& later.cache[key] == area_result(plan, cache, atlas, f.generation)
            &&& all_known(now, later.cache[key].keys)
        }),
    ensures
        area_class(later, g, now, again) == PlacementClass::Direct,
{
    lemma_self_difference(area.left);
    lemma_self_difference(area.top);
}

/// Decorations that reach differently are never a direct hit.
pub proof fn law_new_reach_is_no_direct_hit(cached: AreaModel, area: TextArea, scroll: Seq<F32>)
    requires
        !same_extents(cached.extents, area_extents(area)),
    ensures
        class_of(cached, area, scroll) != PlacementClass::Direct,
{
}

/// A frame without decorations leaves no decoration stream behind, whatever its
/// areas had before, and needs no ordered draws: all its glyphs are drawn at once.
pub proof fn law_undecorated_frame_has_no_ordered_draws(f: FrameModel, cache: Map<u128, AreaModel>, atlas: AtlasState, n: int)
    requires
        f.wf(),
        !bordered(f.plans),
        0 <= n <= f.plans.len(),
    ensures
        output(f, cache, atlas, n).border.len() == 0,
        output(f, cache, atlas, n).paint.draws.len() == 0,
        output(f, cache, atlas, n).paint.uniforms.len() == 0,
        output(f, cache, atlas, n).paint.blurs.len() == 0,
    decreases n,
{
    if n > 0 {
        law_undecorated_frame_has_no_ordered_draws(f, cache, atlas, n - 1);
        let plan = f.plans[n - 1];
        assert(plan.list().len() == 0);
        assert(plan.wf());
        let c = output(f, cache, atlas, n - 1).cache;
        if let PlanModel::Miss { ctx, work, all_runs_included, .. } = plan {
            lemma_plain_area_has_no_border(ctx, work, atlas, all_runs_included, work.len() as int);
        }
        assert(area_result(plan, c, atlas, f.generation).border.len() == 0);
    }
}

proof fn lemma_plain_area_has_no_border(ctx: AreaContext, work: Seq<WorkItem>, atlas: AtlasState, complete: bool, n: int)
    requires
        !ctx.decorated,
    ensures
        emitted(ctx, work, atlas, complete, n).border.len() == 0,
    decreases n,
{
    if n > 0 {
        lemma_plain_area_has_no_border(ctx, work, atlas, complete, n - 1);
        lemma_item_streams(emitted(ctx, work, atlas, complete, n - 1), ctx, work[n - 1], atlas);
    }
}

/// The decoration stream holds the flagged instances in order: it has as many, and
/// each differs from its instance at most in where its data lies.
pub open spec fn stream_follows_flags(e: Emitted) -> bool {
    &&& e.decorated.len() == e.instances.len()
    &&& e.border.len() == covered_before(e.decorated, e.decorated.len() as int)
    &&& forall|i: int|
        0 <= i < e.decorated.len() && #[trigger] e.decorated[i] ==> {
            let k = covered_before(e.decorated, i);
            0 <= k < e.border.len() && e.border[k] == (GlyphInstance {
                glyph_offset: e.border[k].glyph_offset,
                ..e.instances[i]
            })
        }
}

/// What one glyph adds to the streams.
proof fn lemma_item_streams(e: Emitted, ctx: AreaContext, item: WorkItem, atlas: AtlasState)
    ensures
        !ctx.decorated ==> e.with_item(ctx, item, atlas).border == e.border,
        ctx.decorated && stream_follows_flags(e) ==> stream_follows_flags(e.with_item(ctx, item, atlas)),
{
    let id = item.glyph.key.id();
    let known = Emitted { keys: e.keys.push(item.glyph.key), ..e };
    reveal(Emitted::with_commands);
    reveal(Emitted::with_outline);
    lemma_layers_streams(known, ctx, item, atlas.layers[id], atlas.layers[id].layers@.len() as int);
    let after = e.with_item(ctx, item, atlas);
    if stream_follows_flags(e) {
        lemma_streams_grow(e, after);
    }
}

proof fn lemma_layers_streams(
    e: Emitted,
    ctx: AreaContext,
    item: WorkItem,
    entry: ColorGlyphEntry,
    n: int,
)
    ensures
        e.with_layers(ctx, item, entry, n).border == e.border,
        stream_follows_flags(e) ==> stream_follows_flags(e.with_layers(ctx, item, entry, n)),
    decreases n,
{
    if n > 0 {
        lemma_layers_streams(e, ctx, item, entry, n - 1);
        let before = e.with_layers(ctx, item, entry, n - 1);
        let after = e.with_layers(ctx, item, entry, n);
        reveal(Emitted::with_layer);
        if stream_follows_flags(before) {
            lemma_streams_grow(before, after);
        }
    }
}

/// Streams that grow in step stay in step.
proof fn lemma_streams_grow(e: Emitted, after: Emitted)
    requires
        stream_follows_flags(e),
    ensures
        after.instances == e.instances && after.decorated == e.decorated && after.border == e.border
            ==> stream_follows_flags(after),
        after.instances == e.instances.push(after.instances.last()) && after.decorated
            == e.decorated.push(false) && after.border == e.border ==> stream_follows_flags(after),
        (after.instances == e.instances.push(after.instances.last())
            && after.decorated == e.decorated.push(true) && after.border == e.border.push(after.border.last()) && after.border.last() == (GlyphInstance {
            glyph_offset: after.border.last().glyph_offset,
            ..after.instances.last()
        })) ==> stream_follows_flags(after),
{
    let n = e.decorated.len() as int;
    if after.decorated.len() == n + 1 && after.decorated.drop_last() =~= e.decorated {
        lemma_count_prefix(e.decorated, after.decorated, n);
        assert forall|i: int| 0 <= i < n implies covered_before(after.decorated, i) == covered_before(e.decorated, i) by {
            lemma_count_prefix(e.decorated, after.decorated, i);
        }
    }
}

proof fn lemma_count_prefix(a: Seq<bool>, b: Seq<bool>, n: int)
    requires
        0 <= n <= a.len() <= b.len(),
        forall|i: int| 0 <= i < n ==> a[i] == #[trigger] b[i],
    ensures
        covered_before(a, n) == covered_before(b, n),
    decreases n,
{
    if n > 0 {
        lemma_count_prefix(a, b, n - 1);
    }
}

/// In a decorated area that is laid out, the runs of covered instances index the
/// decoration stream: flag for flag it holds the instance again.
pub proof fn law_decoration_stream_follows_the_flags(
    ctx: AreaContext,
    work: Seq<WorkItem>,
    atlas: AtlasState,
    complete: bool,
    n: int,
)
    requires
        ctx.decorated,
    ensures
        stream_follows_flags(emitted(ctx, work, atlas, complete, n)),
    decreases n,
{
    if n > 0 {
        law_decoration_stream_follows_the_flags(ctx, work, atlas, complete, n - 1);
        lemma_item_streams(emitted(ctx, work, atlas, complete, n - 1), ctx, work[n - 1], atlas);
    }
}

/// The draws of hard decorations, the last one first.
pub open spec fn underlays(a: AreaSpan, first_uniform: int, n: int) -> Seq<OrderedDraw> {
    Seq::new(
        n as nat,
        |k: int| OrderedDraw::Underlay {
            start: a.border_start as usize,
            end: a.border_end() as usize,
            uniform: (first_uniform + k) as usize,
        },
    )
}

/// Hard decorations are drawn back to front: the last entry of the list first, the
/// first entry last, and the fill after all of them.
pub proof fn law_first_decoration_is_painted_on_top(p: Paint, a: AreaSpan, list: Seq<PhysicalDecoration>)
    requires
        list.len() > 0,
        !has_ring(list),
        forall|i: int| 0 <= i < list.len() ==> !blurs((#[trigger] list[i]).blur),
        a.border.len() > 0,
        a.flags.len() > 0,
    ensures
        ({
            let after = p.with_area(a, list, true);
            let n = list.len() as int;
            &&& after.draws == (p.draws + underlays(a, p.uniforms.len() as int, n)).push(
                OrderedDraw::Fill { start: a.normal_start as usize, end: a.normal_end() as usize },
            )
            &&& after.uniforms.len() == p.uniforms.len() + n
            &&& forall|k: int| 0 <= k < n ==> #[trigger] after.uniforms[p.uniforms.len() + k] == uniform_of(list[n - 1 - k])
        }),
{
    lemma_hard_decorations(p, a, list, list.len() as int);
}

proof fn lemma_hard_decorations(p: Paint, a: AreaSpan, list: Seq<PhysicalDecoration>, n: int)
    requires
        0 <= n <= list.len(),
        forall|i: int| 0 <= i < list.len() ==> !blurs((#[trigger] list[i]).blur),
    ensures
        ({
            let after = p.with_decorations(a, list, n);
            &&& after.draws == p.draws + underlays(a, p.uniforms.len() as int, n)
            &&& after.uniforms.len() == p.uniforms.len() + n
            &&& forall|k: int|
                0 <= k < n ==> #[trigger] after.uniforms[p.uniforms.len() + k] == uniform_of(list[list.len() - 1 - k])
            &&& after.blurs == p.blurs
        }),
    decreases n,
{
    let u = p.uniforms.len() as int;
    let after = p.with_decorations(a, list, n);
    if n > 0 {
        lemma_hard_decorations(p, a, list, n - 1);
        let before = p.with_decorations(a, list, n - 1);
        reveal(Paint::with_decoration);
        assert(!blurs(list[list.len() - n].blur));
        assert(after.draws =~= p.draws + underlays(a, u, n));
        assert forall|k: int| 0 <= k < n implies #[trigger] after.uniforms[u + k] == uniform_of(list[list.len() - 1 - k]) by {
            if k < n - 1 {
                assert(after.uniforms[u + k] == before.uniforms[u + k]);
            }
        }
    } else {
        assert(after.draws =~= p.draws + underlays(a, u, 0));
    }
}

/// The prepared areas that stay after a frame are those that it showed, and they
/// are valid against the atlas data that the frame was prepared from.
pub proof fn law_kept_areas_are_current(m: Map<u128, AreaModel>, counts: Map<u128, usize>, generation: u32, key: u128)
    ensures
        kept_areas(m, counts, generation).contains_key(key) ==> {
            &&& m.contains_key(key)
            &&& shown(counts, key)
            &&& kept_areas(m, counts, generation)[key].generation == generation
            &&& kept_areas(m, counts, generation)[key].instances == m[key].instances
        },
{
}

}
