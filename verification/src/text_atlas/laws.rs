//! What holds of the atlas across operations.
use vstd::prelude::*;
use crate::blob_cache::{CachedBlob, ResidentBlob};
use crate::fx::lists_map;
use crate::glyph_cache::GlyphEntry;
use crate::text_atlas::{AtlasState, bits_word};
use crate::text_atlas::commit::{restored, restored_resident, restored_words};
use crate::text_atlas::compaction::{
    cached_candidate, candidates, compacted, compacted_in_order, evicted, evicted_candidate, lemma_candidates,
    lemma_evicted, lemma_live_fits, lemma_live_places, live_places, moved_blob, moved_words, packed_live,
};

verus! {

/// Earlier blobs stay where they are as more are packed behind them.
proof fn lemma_packed_prefix(s: AtlasState, items: Seq<(u128, ResidentBlob)>, j: nat, n: nat)
    requires
        j <= n,
    ensures
        packed_live(s, items, j).len() <= packed_live(s, items, n).len(),
        packed_live(s, items, n).take(packed_live(s, items, j).len() as int) == packed_live(s, items, j),
    decreases n - j,
{
    let small = packed_live(s, items, j);
    if j < n {
        lemma_packed_prefix(s, items, j, (n - 1) as nat);
        let mid = packed_live(s, items, (n - 1) as nat);
        let large = packed_live(s, items, n);
        assert(large.take(mid.len() as int) =~= mid);
        assert(large.take(small.len() as int) =~= mid.take(small.len() as int));
    } else {
        assert(small.take(small.len() as int) =~= small);
    }
}

/// Where a live blob has been moved to, later moves keep it.
proof fn lemma_place_kept(s: AtlasState, items: Seq<(u128, ResidentBlob)>, j: int, n: nat)
    requires
        lists_map(s.residents, items),
        0 <= j < n <= items.len(),
        s.live(items[j].0),
    ensures
        live_places(s, items, n).contains_key(items[j].0),
        live_places(s, items, n)[items[j].0] == moved_blob(
            items[j].1,
            (packed_live(s, items, j as nat).len() / 2) as u32,
        ),
    decreases n - j,
{
    if j < n - 1 {
        lemma_place_kept(s, items, j, (n - 1) as nat);
        assert(items[j].0 != items[n - 1].0);
    }
}

/// A compaction keeps what the current frame uses: a live glyph stays resident,
/// its words are the same at its new place, and so are those of its border, but
/// for the first, which holds the glyph's new offset.
pub proof fn law_compaction_keeps_live_data(before: AtlasState, after: AtlasState, id: u128)
    requires
        before.wf(),
        after.buffer_wf(),
        compacted(before, after),
        before.residents.contains_key(id),
        before.live(id),
    ensures
        after.residents.contains_key(id),
        ({
            let r = before.residents[id];
            let m = after.residents[id];
            &&& m.texel_len == r.texel_len
            &&& m.kind == r.kind
            &&& after.span(m.start_texel as int, m.texel_len as int) == before.span(
                r.start_texel as int,
                r.texel_len as int,
            )
            &&& m.border is Some <==> r.border is Some
            &&& r.border matches Some(b) ==> {
                let c = m.border->0;
                &&& c.texel_len == b.texel_len
                &&& c.ppem_ceiling == b.ppem_ceiling
                &&& c.grid_radius_units == b.grid_radius_units
                &&& after.span(c.start_texel as int, c.texel_len as int) == before.span(
                    b.start_texel as int,
                    b.texel_len as int,
                ).update(0, bits_word(m.start_texel))
            }
        }),
{
    let (items, spare) = choose|items: Seq<(u128, ResidentBlob)>, spare: Seq<(u128, CachedBlob)>| #[trigger]
        compacted_in_order(before, after, items, spare);
    let n = items.len();
    let j = choose|j: int| 0 <= j < items.len() && (#[trigger] items[j]).0 == id;
    let r = before.residents[id];
    assert(items[j].1 == r);
    assert(r.inside(before.cursor as int));
    lemma_place_kept(before, items, j, n);
    lemma_packed_prefix(before, items, (j + 1) as nat, n);
    lemma_live_fits(before, items, j as nat);
    lemma_live_fits(before, items, (j + 1) as nat);
    let head = packed_live(before, items, j as nat);
    let upto = packed_live(before, items, (j + 1) as nat);
    let start = (head.len() / 2) as u32;
    let words = moved_words(before, r, start);
    assert(upto == head + words);
    assert(after.words.take(upto.len() as int) == upto);
    let m = after.residents[id];
    assert(m == moved_blob(r, start));
    assert forall|k: int| 0 <= k < words.len() implies after.words[head.len() + k] == #[trigger] words[k] by {
        assert(after.words[head.len() + k] == after.words.take(upto.len() as int)[head.len() + k]);
    }
    assert(after.span(start as int, r.texel_len as int) =~= before.span(r.start_texel as int, r.texel_len as int)) by {
        assert forall|k: int| 0 <= k < 2 * r.texel_len implies after.span(start as int, r.texel_len as int)[k] == before.span(
            r.start_texel as int,
            r.texel_len as int,
        )[k] by {
            assert(after.words[head.len() + k] == words[k]);
        }
    }
    if let Some(b) = r.border {
        let c = m.border->0;
        let old_words = before.span(b.start_texel as int, b.texel_len as int).update(0, bits_word(start));
        assert(after.span(c.start_texel as int, c.texel_len as int) =~= old_words) by {
            assert forall|k: int| 0 <= k < 2 * b.texel_len implies after.span(
                c.start_texel as int,
                c.texel_len as int,
            )[k] == old_words[k] by {
                assert(after.words[head.len() + (2 * r.texel_len + k)] == words[2 * r.texel_len + k]);
            }
        }
    }
}

/// A compaction drops from the atlas what the current frame does not use, and
/// what it keeps of it in the blob cache is the glyph's words with those of its
/// border behind them.
pub proof fn law_compaction_evicts_unused_data(before: AtlasState, after: AtlasState, id: u128)
    requires
        before.wf(),
        compacted(before, after),
        before.residents.contains_key(id),
        !before.live(id),
    ensures
        !after.residents.contains_key(id),
        !after.glyphs.contains_key(id),
        after.cached.contains_key(id) ==> cached_candidate(id, after.cached[id]) == evicted_candidate(
            before,
            id,
            before.residents[id],
        ),
{
    let (items, spare) = choose|items: Seq<(u128, ResidentBlob)>, spare: Seq<(u128, CachedBlob)>| #[trigger]
        compacted_in_order(before, after, items, spare);
    lemma_live_places(before, items, items.len());
    lemma_candidates(before, items, spare);
    lemma_evicted(before, items, items.len());
    assert(before.installed(id));
    if after.residents.contains_key(id) {
        assert(live_places(before, items, items.len()).contains_key(id));
    }
    let c = candidates(before, items, spare);
    let ev = evicted(before, items, items.len());
    if after.cached.contains_key(id) {
        let meta = crate::text_atlas::compaction::candidate_meta(c);
        let picked = crate::blob_cache::budget_selection(meta, before.budget).picked;
        let j = choose|j: int| 0 <= j < picked.len() && c[#[trigger] picked[j] as int].id == id;
        let at = picked[j] as int;
        assert(cached_candidate(id, after.cached[id]) == c[at]);
        // The candidate for a known glyph is the evicted one.
        crate::blob_cache::lemma_selection_in_range(meta, before.budget, j);
        if at < ev.len() {
            let k = choose|k: int|
                0 <= k < items.len() && !before.live((#[trigger] items[k]).0) && ev[at] == evicted_candidate(
                    before,
                    items[k].0,
                    items[k].1,
                );
            assert(c[at] == ev[at]);
            assert(before.residents[items[k].0] == items[k].1);
        } else {
            let k = at - ev.len();
            assert(c[at] == cached_candidate(spare[k].0, spare[k].1));
            assert(before.cached.contains_key(spare[k].0));
            assert(false);
        }
    }
}

/// Eviction and restoration lose nothing: a glyph that a compaction moved to the
/// blob cache and that is resolved again has the words that it had, and its
/// border has too, but for the first, which holds the glyph's new offset.
pub proof fn law_eviction_and_restoration_keep_data(
    before: AtlasState,
    evicted_state: AtlasState,
    later: AtlasState,
    after: AtlasState,
    id: u128,
    entry: GlyphEntry,
)
    requires
        before.wf(),
        compacted(before, evicted_state),
        before.residents.contains_key(id),
        !before.live(id),
        evicted_state.cached.contains_key(id),
        later.wf(),
        later.cached.contains_key(id),
        later.cached[id] == evicted_state.cached[id],
        later.cursor + later.cached[id].data@.len() / 2 <= later.max,
        restored(later, after, id, entry),
    ensures
        after.residents.contains_key(id),
        ({
            let r = before.residents[id];
            let m = after.residents[id];
            &&& m.texel_len == r.texel_len
            &&& m.kind == r.kind
            &&& after.span(m.start_texel as int, m.texel_len as int) == before.span(
                r.start_texel as int,
                r.texel_len as int,
            )
            &&& r.border matches Some(b) ==> {
                let c = m.border->0;
                &&& m.border is Some
                &&& c.texel_len == b.texel_len
                &&& c.ppem_ceiling == b.ppem_ceiling
                &&& c.grid_radius_units == b.grid_radius_units
                &&& after.span(c.start_texel as int, c.texel_len as int) == before.span(
                    b.start_texel as int,
                    b.texel_len as int,
                ).update(0, bits_word(m.start_texel))
            }
        }),
{
    law_compaction_evicts_unused_data(before, evicted_state, id);
    let r = before.residents[id];
    let blob = later.cached[id];
    assert(r.inside(before.cursor as int));
    assert(blob.wf());
    let e = evicted_candidate(before, id, r);
    assert(blob.data@ == e.data);
    assert(blob.border == e.border);
    let start = later.cursor;
    let words = restored_words(blob, start);
    assert(after.words == later.words + words);
    let m = after.residents[id];
    assert(m == restored_resident(blob, start));
    assert(e.data.len() == 2 * r.total_len());
    assert(blob.primary_len() == r.texel_len);
    assert(after.span(start as int, r.texel_len as int) =~= before.span(r.start_texel as int, r.texel_len as int));
    if let Some(b) = r.border {
        let c = m.border->0;
        let old_words = before.span(b.start_texel as int, b.texel_len as int).update(0, bits_word(start));
        assert(after.span(c.start_texel as int, c.texel_len as int) =~= old_words);
    }
}

/// Anything prepared before a compaction can tell that it is stale.
pub proof fn law_compaction_changes_the_generation(before: AtlasState, after: AtlasState)
    requires
        compacted(before, after),
    ensures
        after.generation != before.generation,
        after.id == before.id,
{
}

}
