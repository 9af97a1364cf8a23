//! The flags of a prepared area tell what its decoration stream holds.
//!
//! A prepared area keeps a flag for each instance, set where the glyph is an outline
//! in one color. A later frame builds the decoration stream anew from the instances,
//! by looking up which glyph each one is of. That the two agree is what lets a ring
//! index the stream by runs of flags.
use vstd::prelude::*;
use crate::glyph_cache::{COLOR_V1_VECTOR_OFFSET, COLOR_VECTOR_OFFSET, GlyphKey, NON_VECTOR_OFFSET};
use crate::text_atlas::AtlasState;
use crate::text_atlas::grounded::{glyph_grounded, grounded, law_data_is_never_confused};
use crate::text_renderer::area::border_stream;
use crate::text_renderer::capacity::{bordered_key, starts_at};
use crate::text_renderer::emit::{AreaContext, Emitted, WorkItem, emitted, item_ready, work_ready};
use crate::text_renderer::geometry::{GlyphInstance, Placement, kept_flags, kept_instances, law_flags_stay_in_step};
use crate::text_renderer::runs::covered_before;

verus! {

/// An instance's flag is set exactly if its glyph is found among the area's keys as
/// an outline in one color.
pub open spec fn flag_matches(instance: GlyphInstance, flag: bool, keys: Seq<GlyphKey>, atlas: AtlasState) -> bool {
    flag == bordered_key(atlas, keys, instance.glyph_offset, 0).is_some()
}

/// The flags of an area match its instances.
pub open spec fn flags_match(instances: Seq<GlyphInstance>, flags: Seq<bool>, keys: Seq<GlyphKey>, atlas: AtlasState) -> bool {
    &&& flags.len() == instances.len()
    &&& forall|i: int| 0 <= i < instances.len() ==> flag_matches(#[trigger] instances[i], flags[i], keys, atlas)
}

/// Where flags match, a decoration stream that is built anew follows them: it has
/// an instance for each flag that is set, in order.
pub proof fn law_rebuilt_streams_follow_the_flags(
    instances: Seq<GlyphInstance>,
    flags: Seq<bool>,
    keys: Seq<GlyphKey>,
    atlas: AtlasState,
    n: int,
)
    requires
        flags_match(instances, flags, keys, atlas),
        0 <= n <= instances.len(),
    ensures
        border_stream(instances, keys, atlas, n).len() == covered_before(flags, n),
        forall|i: int|
            0 <= i < n && #[trigger] flags[i] ==> {
                let k = covered_before(flags, i);
                let stream = border_stream(instances, keys, atlas, n);
                0 <= k < stream.len() && stream[k] == (GlyphInstance {
                    glyph_offset: stream[k].glyph_offset,
                    ..instances[i]
                })
            },
    decreases n,
{
    if n > 0 {
        law_rebuilt_streams_follow_the_flags(instances, flags, keys, atlas, n - 1);
        assert(flag_matches(instances[n - 1], flags[n - 1], keys, atlas));
    }
}

/// Culling an area again keeps its flags matching.
pub proof fn law_culling_keeps_flags_matching(
    instances: Seq<GlyphInstance>,
    flags: Seq<bool>,
    keys: Seq<GlyphKey>,
    atlas: AtlasState,
    p: Placement,
    n: int,
)
    requires
        flags_match(instances, flags, keys, atlas),
        0 <= n <= instances.len(),
    ensures
        flags_match(kept_instances(instances, p, n), kept_flags(instances, flags, p, n), keys, atlas),
    decreases n,
{
    law_flags_stay_in_step(instances, flags, p, n);
    if n > 0 {
        law_culling_keeps_flags_matching(instances, flags, keys, atlas, p, n - 1);
        law_flags_stay_in_step(instances, flags, p, n - 1);
        assert(flag_matches(instances[n - 1], flags[n - 1], keys, atlas));
        let rest = kept_instances(instances, p, n - 1);
        let all = kept_instances(instances, p, n);
        let rest_flags = kept_flags(instances, flags, p, n - 1);
        let all_flags = kept_flags(instances, flags, p, n);
        assert forall|i: int| 0 <= i < all.len() implies flag_matches(#[trigger] all[i], all_flags[i], keys, atlas) by {
            if i < rest.len() {
                assert(all[i] == rest[i] && all_flags[i] == rest_flags[i]);
                assert(flag_matches(rest[i], rest_flags[i], keys, atlas));
            }
        }
    }
}

/// Flags keep matching as long as the atlas keeps the offsets of the area's glyphs,
/// which it does until it is compacted.
pub proof fn law_flags_match_until_data_moves(
    instances: Seq<GlyphInstance>,
    flags: Seq<bool>,
    keys: Seq<GlyphKey>,
    before: AtlasState,
    after: AtlasState,
)
    requires
        flags_match(instances, flags, keys, before),
        forall|i: int|
            0 <= i < keys.len() ==> {
                let id = (#[trigger] keys[i]).id();
                &&& before.glyphs.contains_key(id) == after.glyphs.contains_key(id)
                &&& before.glyphs.contains_key(id) ==> before.glyphs[id].glyph_offset == after.glyphs[id].glyph_offset
            },
    ensures
        flags_match(instances, flags, keys, after),
{
    assert forall|i: int| 0 <= i < instances.len() implies flag_matches(#[trigger] instances[i], flags[i], keys, after) by {
        assert(flag_matches(instances[i], flags[i], keys, before));
        lemma_same_lookup(keys, before, after, instances[i].glyph_offset, 0);
    }
}

proof fn lemma_same_lookup(keys: Seq<GlyphKey>, before: AtlasState, after: AtlasState, offset: u32, from: int)
    requires
        forall|i: int|
            0 <= i < keys.len() ==> {
                let id = (#[trigger] keys[i]).id();
                &&& before.glyphs.contains_key(id) == after.glyphs.contains_key(id)
                &&& before.glyphs.contains_key(id) ==> before.glyphs[id].glyph_offset == after.glyphs[id].glyph_offset
            },
    ensures
        bordered_key(after, keys, offset, from).is_some() == bordered_key(before, keys, offset, from).is_some(),
    decreases keys.len() - from,
{
    if 0 <= from < keys.len() {
        lemma_same_lookup(keys, before, after, offset, from + 1);
        let key = keys[from];
    }
}

proof fn lemma_lookup_finds(keys: Seq<GlyphKey>, atlas: AtlasState, offset: u32, from: int, at: int)
    requires
        0 <= from <= at < keys.len(),
        starts_at(atlas, keys[at], offset),
    ensures
        bordered_key(atlas, keys, offset, from).is_some(),
    decreases at - from,
{
    if from < at {
        lemma_lookup_finds(keys, atlas, offset, from + 1, at);
    }
}

proof fn lemma_lookup_misses(keys: Seq<GlyphKey>, atlas: AtlasState, offset: u32, from: int)
    requires
        forall|i: int| 0 <= i < keys.len() ==> !starts_at(atlas, #[trigger] keys[i], offset),
    ensures
        bordered_key(atlas, keys, offset, from).is_none(),
    decreases keys.len() - from,
{
    if 0 <= from < keys.len() {
        lemma_lookup_misses(keys, atlas, offset, from + 1);
        assert(!starts_at(atlas, keys[from], offset));
    }
}

/// An atlas whose data can be told apart by offset.
pub open spec fn distinct_data(atlas: AtlasState) -> bool {
    atlas.wf() && grounded(atlas) && atlas.max < COLOR_V1_VECTOR_OFFSET
}

proof fn lemma_flags_grow(e: Emitted, instance: GlyphInstance, flag: bool, keys: Seq<GlyphKey>, atlas: AtlasState)
    requires
        flags_match(e.instances, e.decorated, keys, atlas),
        flag_matches(instance, flag, keys, atlas),
    ensures
        flags_match(e.instances.push(instance), e.decorated.push(flag), keys, atlas),
{
    let all = e.instances.push(instance);
    let flags = e.decorated.push(flag);
    assert forall|i: int| 0 <= i < all.len() implies flag_matches(#[trigger] all[i], flags[i], keys, atlas) by {
        if i < e.instances.len() {
            assert(all[i] == e.instances[i]);
            assert(flag_matches(e.instances[i], e.decorated[i], keys, atlas));
        }
    }
}

proof fn lemma_layers_match(
    e: Emitted,
    ctx: AreaContext,
    item: WorkItem,
    keys: Seq<GlyphKey>,
    atlas: AtlasState,
    n: int,
)
    requires
        distinct_data(atlas),
        flags_match(e.instances, e.decorated, keys, atlas),
        atlas.glyphs.contains_key(item.glyph.key.id()),
        atlas.glyphs[item.glyph.key.id()].glyph_offset == COLOR_VECTOR_OFFSET,
        atlas.layers.contains_key(item.glyph.key.id()),
        0 <= n <= atlas.layers[item.glyph.key.id()].layers@.len(),
    ensures
        ({
            let after = e.with_layers(ctx, item, atlas.layers[item.glyph.key.id()], n);
            flags_match(after.instances, after.decorated, keys, atlas)
        }),
    decreases n,
{
    let id = item.glyph.key.id();
    let entry = atlas.layers[id];
    if n > 0 {
        lemma_layers_match(e, ctx, item, keys, atlas, n - 1);
        let before = e.with_layers(ctx, item, entry, n - 1);
        let layer = entry.layers@[n - 1];
        let offset = layer.entry.glyph_offset;
        reveal(Emitted::with_layer);
        if offset != NON_VECTOR_OFFSET {
            assert forall|i: int| 0 <= i < keys.len() implies !starts_at(atlas, #[trigger] keys[i], offset) by {
                if starts_at(atlas, keys[i], offset) {
                    law_data_is_never_confused(atlas, keys[i].id(), id, offset);
                }
            }
            lemma_lookup_misses(keys, atlas, offset, 0);
            let after = e.with_layers(ctx, item, entry, n);
            if after.instances.len() > before.instances.len() {
                lemma_flags_grow(before, after.instances.last(), false, keys, atlas);
            }
        }
    }
}

proof fn lemma_item_matches(e: Emitted, ctx: AreaContext, item: WorkItem, keys: Seq<GlyphKey>, atlas: AtlasState)
    requires
        distinct_data(atlas),
        flags_match(e.instances, e.decorated, keys, atlas),
        item_ready(item, atlas, false),
        keys.contains(item.glyph.key),
    ensures
        ({
            let after = e.with_item(ctx, item, atlas);
            flags_match(after.instances, after.decorated, keys, atlas)
        }),
{
    let id = item.glyph.key.id();
    let entry = atlas.glyphs[id];
    let known = Emitted { keys: e.keys.push(item.glyph.key), ..e };
    let after = e.with_item(ctx, item, atlas);
    if entry.glyph_offset == NON_VECTOR_OFFSET {
    } else if entry.glyph_offset == COLOR_V1_VECTOR_OFFSET {
        if atlas.commands.contains_key(id) {
            reveal(Emitted::with_commands);
            let offset = atlas.commands[id].glyph_offset;
            if after.instances.len() > e.instances.len() {
                lemma_commands_offset(atlas, id);
                assert forall|i: int| 0 <= i < keys.len() implies !starts_at(atlas, #[trigger] keys[i], offset) by {
                    if starts_at(atlas, keys[i], offset) {
                        law_data_is_never_confused(atlas, keys[i].id(), id, offset);
                    }
                }
                lemma_lookup_misses(keys, atlas, offset, 0);
                lemma_flags_grow(known, after.instances.last(), false, keys, atlas);
            }
        }
    } else if entry.glyph_offset == COLOR_VECTOR_OFFSET {
        if atlas.layers.contains_key(id) {
            lemma_layers_match(known, ctx, item, keys, atlas, atlas.layers[id].layers@.len() as int);
        }
    } else {
        reveal(Emitted::with_outline);
        if after.instances.len() > e.instances.len() {
            let at = choose|at: int| 0 <= at < keys.len() && keys[at] == item.glyph.key;
            assert(starts_at(atlas, keys[at], entry.glyph_offset));
            lemma_lookup_finds(keys, atlas, entry.glyph_offset, 0, at);
            lemma_flags_grow(known, after.instances.last(), true, keys, atlas);
        }
    }
}

/// The commands of a color glyph start inside the buffer.
proof fn lemma_commands_offset(atlas: AtlasState, id: u128)
    requires
        distinct_data(atlas),
        atlas.glyphs.contains_key(id),
        atlas.glyphs[id].glyph_offset == COLOR_V1_VECTOR_OFFSET,
        atlas.commands.contains_key(id),
    ensures
        atlas.commands[id].glyph_offset != NON_VECTOR_OFFSET,
{
    assert(glyph_grounded(atlas, id));
    assert(atlas.installed(id));
    assert(atlas.residents[id].inside(atlas.cursor as int));
}

/// An area that is laid out gets flags that match, so that later frames can rely on
/// them.
pub proof fn law_fresh_flags_match(
    ctx: AreaContext,
    work: Seq<WorkItem>,
    atlas: AtlasState,
    complete: bool,
    keys: Seq<GlyphKey>,
    n: int,
)
    requires
        distinct_data(atlas),
        work_ready(work, atlas, false),
        0 <= n <= work.len(),
        forall|i: int| 0 <= i < work.len() ==> keys.contains((#[trigger] work[i]).glyph.key),
    ensures
        ({
            let e = emitted(ctx, work, atlas, complete, n);
            flags_match(e.instances, e.decorated, keys, atlas)
        }),
    decreases n,
{
    if n > 0 {
        law_fresh_flags_match(ctx, work, atlas, complete, keys, n - 1);
        assert(item_ready(work[n - 1], atlas, false));
        assert(keys.contains(work[n - 1].glyph.key));
        lemma_item_matches(emitted(ctx, work, atlas, complete, n - 1), ctx, work[n - 1], keys, atlas);
    }
}

}
