//! Keeping the atlas small: uploads, growth and compaction.
use vstd::prelude::*;
use vstd::set_lib::{lemma_int_range, lemma_len_subset, lemma_set_disjoint_lens, set_int_range};
use crate::blob_cache::{
    BlobCacheStats, BlobKind, CachedBlob, CachedBorderBlob, ResidentBlob, ResidentBorderBlob, budget_selection,
    count_up, law_selection_accounts_for_all, listed_bytes, picked_bytes, select_within_budget,
};
use crate::fx::{lists_keys, lists_map, map_drain, map_get, map_insert, map_remove};
use crate::glyph_cache::GlyphEntry;
use crate::lists::{append_words, reversed};
use crate::text_atlas::{
    AtlasState, TRIM_GROWTH_FACTOR, TextAtlas, bits_word, max_int, planned_buffer_capacity, planned_capacity, to_word,
};
use crate::text_atlas::commit::offsets_installed;

verus! {

/// What has to reach the GPU.
#[derive(Clone, Copy, Debug, PartialEq, Eq, Structural)]
pub struct FlushPlan {
    /// Texels of a new buffer to allocate first, if the old one is too small.
    pub allocate: Option<u32>,
    /// The first texel to write.
    pub start: u32,
    /// The texel after the last one to write.
    pub end: u32,
}

/// `items` are the entries of a map of residents in the order of their data.
pub open spec fn in_data_order(m: Map<u128, ResidentBlob>, items: Seq<(u128, ResidentBlob)>) -> bool {
    &&& lists_map(m, items)
    &&& forall|i: int, j: int|
        0 <= i < j < items.len() ==> (#[trigger] items[i]).1.start_texel <= (#[trigger] items[j]).1.start_texel
}

/// The words of a blob as a compaction moves them: its border descriptor begins
/// with the new offset of the glyph.
pub open spec fn moved_words(s: AtlasState, r: ResidentBlob, start: u32) -> Seq<i32> {
    let primary = s.span(r.start_texel as int, r.texel_len as int);
    match r.border {
        Some(b) => primary + s.span(b.start_texel as int, b.texel_len as int).update(0, bits_word(start)),
        None => primary,
    }
}

/// A blob's place after a compaction moved it to `start`.
pub open spec fn moved_blob(r: ResidentBlob, start: u32) -> ResidentBlob {
    ResidentBlob {
        start_texel: start,
        texel_len: r.texel_len,
        kind: r.kind,
        border: match r.border {
            Some(b) => Some(ResidentBorderBlob { start_texel: (start + r.texel_len) as u32, ..b }),
            None => None,
        },
    }
}

/// The words that the live blobs among the first `n` take, one after another.
pub open spec fn packed_live(s: AtlasState, items: Seq<(u128, ResidentBlob)>, n: nat) -> Seq<i32>
    decreases n,
{
    if n == 0 {
        Seq::empty()
    } else {
        let before = packed_live(s, items, (n - 1) as nat);
        let item = items[n - 1];
        if s.live(item.0) {
            before + moved_words(s, item.1, (before.len() / 2) as u32)
        } else {
            before
        }
    }
}

/// The places of the live blobs among the first `n`.
pub open spec fn live_places(s: AtlasState, items: Seq<(u128, ResidentBlob)>, n: nat) -> Map<u128, ResidentBlob>
    decreases n,
{
    if n == 0 {
        Map::empty()
    } else {
        let before = live_places(s, items, (n - 1) as nat);
        let item = items[n - 1];
        if s.live(item.0) {
            before.insert(
                item.0,
                moved_blob(item.1, (packed_live(s, items, (n - 1) as nat).len() / 2) as u32),
            )
        } else {
            before
        }
    }
}

/// A blob that may stay in the cache.
pub ghost struct Candidate {
    pub id: u128,
    pub epoch: u64,
    pub data: Seq<i32>,
    pub kind: BlobKind,
    pub border: Option<CachedBorderBlob>,
}

/// A resident blob as a candidate: its words, with those of its border behind.
pub open spec fn evicted_candidate(s: AtlasState, id: u128, r: ResidentBlob) -> Candidate {
    let primary = s.span(r.start_texel as int, r.texel_len as int);
    Candidate {
        id,
        epoch: s.glyphs[id].last_used_epoch,
        data: match r.border {
            Some(b) => primary + s.span(b.start_texel as int, b.texel_len as int),
            None => primary,
        },
        kind: r.kind,
        border: match r.border {
            Some(b) => Some(
                CachedBorderBlob {
                    relative_offset: r.texel_len,
                    texel_len: b.texel_len,
                    ppem_ceiling: b.ppem_ceiling,
                    grid_radius_units: b.grid_radius_units,
                },
            ),
            None => None,
        },
    }
}

/// A cached blob as a candidate.
pub open spec fn cached_candidate(id: u128, blob: CachedBlob) -> Candidate {
    Candidate { id, epoch: blob.last_used_epoch, data: blob.data@, kind: blob.kind, border: blob.border }
}

/// The blobs among the first `n` that are not live, as candidates.
pub open spec fn evicted(s: AtlasState, items: Seq<(u128, ResidentBlob)>, n: nat) -> Seq<Candidate>
    decreases n,
{
    if n == 0 {
        Seq::empty()
    } else {
        let before = evicted(s, items, (n - 1) as nat);
        let item = items[n - 1];
        if s.live(item.0) {
            before
        } else {
            before.push(evicted_candidate(s, item.0, item.1))
        }
    }
}

/// All candidates: the evicted blobs in the order of their data, then the blobs
/// that were cached already.
pub open spec fn candidates(s: AtlasState, items: Seq<(u128, ResidentBlob)>, spare: Seq<(u128, CachedBlob)>) -> Seq<Candidate> {
    evicted(s, items, items.len()) + Seq::new(spare.len(), |i: int| cached_candidate(spare[i].0, spare[i].1))
}

/// Age and size of the candidates.
pub open spec fn candidate_meta(c: Seq<Candidate>) -> Seq<(u64, usize)> {
    Seq::new(c.len(), |i: int| (c[i].epoch, (4 * c[i].data.len()) as usize))
}

/// A cache holds exactly the picked candidates.
pub open spec fn holds_picked(cached: Map<u128, CachedBlob>, c: Seq<Candidate>, picked: Seq<usize>) -> bool {
    &&& forall|j: int|
        0 <= j < picked.len() ==> cached.contains_key(c[#[trigger] picked[j] as int].id) && cached_candidate(
            c[picked[j] as int].id,
            cached[c[picked[j] as int].id],
        ) == c[picked[j] as int]
    &&& forall|id: u128| #[trigger]
        cached.contains_key(id) ==> exists|j: int| 0 <= j < picked.len() && c[#[trigger] picked[j] as int].id == id
}

/// Glyphs of the current frame stay known, at their new place where they have
/// outline data; the others are forgotten.
pub open spec fn glyphs_compacted(before: AtlasState, after: AtlasState) -> bool {
    &&& forall|id: u128| #[trigger] after.glyphs.contains_key(id) <==> before.live(id)
    &&& forall|id: u128| #[trigger]
        after.glyphs.contains_key(id) ==> after.glyphs[id] == (if after.residents.contains_key(id)
            && after.residents[id].kind is Mono {
            GlyphEntry { glyph_offset: after.residents[id].start_texel, ..before.glyphs[id] }
        } else {
            before.glyphs[id]
        })
}

/// Color entries of forgotten glyphs are gone; those of glyphs without resident
/// data are untouched.
pub open spec fn colors_compacted(before: AtlasState, after: AtlasState) -> bool {
    &&& forall|id: u128|
        (before.glyphs.contains_key(id) && !before.live(id)) ==> !(#[trigger] after.layers.contains_key(id))
            && !after.commands.contains_key(id)
    &&& forall|id: u128|
        !after.residents.contains_key(id) && !(before.glyphs.contains_key(id) && !before.live(id)) ==> (
        #[trigger] after.layers.contains_key(id) == before.layers.contains_key(id)) && (before.layers.contains_key(id)
            ==> after.layers[id] == before.layers[id])
    &&& forall|id: u128|
        !after.residents.contains_key(id) && !(before.glyphs.contains_key(id) && !before.live(id)) ==> (
        #[trigger] after.commands.contains_key(id) == before.commands.contains_key(id)) && (
        before.commands.contains_key(id) ==> after.commands[id] == before.commands[id])
}

/// A compaction, given the order of the residents' data and an order in which
/// the cached blobs were considered.
pub open spec fn compacted_in_order(
    before: AtlasState,
    after: AtlasState,
    items: Seq<(u128, ResidentBlob)>,
    spare: Seq<(u128, CachedBlob)>,
) -> bool {
    let chosen = budget_selection(candidate_meta(candidates(before, items, spare)), before.budget);
    &&& in_data_order(before.residents, items)
    &&& lists_map(before.cached, spare)
    &&& candidates(before, items, spare).len() <= usize::MAX
    &&& after.words == packed_live(before, items, items.len())
    &&& after.residents == live_places(before, items, items.len())
    &&& holds_picked(after.cached, candidates(before, items, spare), chosen.picked)
    &&& after.counters == (BlobCacheStats {
        bytes: chosen.used as usize,
        budget_evictions: count_up(before.counters.budget_evictions, chosen.evicted as u64),
        oversized_drops: count_up(before.counters.oversized_drops, chosen.oversized as u64),
        ..before.counters
    })
}

/// A compaction: the blobs of the current frame's glyphs move together in the
/// order of their data, the others go to the blob cache as far as its budget
/// reaches, nothing of the new buffer is on the GPU yet, and the generation
/// changes.
pub open spec fn compacted(before: AtlasState, after: AtlasState) -> bool {
    &&& exists|items: Seq<(u128, ResidentBlob)>, spare: Seq<(u128, CachedBlob)>| #[trigger]
        compacted_in_order(before, after, items, spare)
    &&& glyphs_compacted(before, after)
    &&& colors_compacted(before, after)
    &&& after.cursor == after.words.len() / 2
    &&& after.flushed == 0
    &&& after.generation == (if before.generation == u32::MAX { 0 } else { (before.generation + 1) as u32 })
    &&& after.capacity == planned_capacity(
        before.initial as int,
        max_int(after.cursor as int, before.initial as int),
        before.max as int,
    )
    &&& after.reclaimable == Seq::<(u32, u32)>::empty()
    &&& after.id == before.id
    &&& after.initial == before.initial
    &&& after.max == before.max
    &&& after.frame == before.frame
    &&& after.budget == before.budget
}

/// The atlas has grown enough, and less than a quarter of its glyphs are in use, so
/// that a compaction is worthwhile.
pub open spec fn worth_compacting(s: AtlasState) -> bool {
    &&& s.capacity >= s.initial * TRIM_GROWTH_FACTOR || s.capacity == u32::MAX
    &&& 4 * s.glyphs.dom().filter(|id: u128| s.glyphs[id].last_used_epoch == s.frame).len() < s.glyphs.len()
}

/// Texels of a blob and its border.
pub(super) open spec fn texel_set(r: ResidentBlob) -> Set<int> {
    let primary = set_int_range(r.start_texel as int, r.start_texel + r.texel_len);
    match r.border {
        Some(b) => primary.union(set_int_range(b.start_texel as int, b.start_texel + b.texel_len)),
        None => primary,
    }
}

/// Texels of the live blobs among the first `n`.
pub(super) open spec fn live_texels(s: AtlasState, items: Seq<(u128, ResidentBlob)>, n: nat) -> Set<int>
    decreases n,
{
    if n == 0 {
        Set::empty()
    } else {
        let before = live_texels(s, items, (n - 1) as nat);
        if s.live(items[n - 1].0) {
            before.union(texel_set(items[n - 1].1))
        } else {
            before
        }
    }
}

proof fn lemma_texel_set(r: ResidentBlob, cursor: int)
    requires
        r.inside(cursor),
    ensures
        texel_set(r).finite(),
        texel_set(r).len() == r.total_len(),
        texel_set(r).subset_of(set_int_range(0, cursor)),
{
    lemma_int_range(r.start_texel as int, r.start_texel + r.texel_len);
    if let Some(b) = r.border {
        lemma_int_range(b.start_texel as int, b.start_texel + b.texel_len);
        lemma_set_disjoint_lens(
            set_int_range(r.start_texel as int, r.start_texel + r.texel_len),
            set_int_range(b.start_texel as int, b.start_texel + b.texel_len),
        );
    }
}

/// The live blobs among the first `n` take no more than the old buffer.
pub(super) proof fn lemma_live_fits(s: AtlasState, items: Seq<(u128, ResidentBlob)>, n: nat)
    requires
        s.wf(),
        lists_map(s.residents, items),
        n <= items.len(),
    ensures
        live_texels(s, items, n).finite(),
        live_texels(s, items, n).subset_of(set_int_range(0, s.cursor as int)),
        packed_live(s, items, n).len() == 2 * live_texels(s, items, n).len(),
        packed_live(s, items, n).len() <= 2 * s.cursor,
        forall|x: int| #[trigger]
            live_texels(s, items, n).contains(x) ==> exists|j: int|
                0 <= j < n && texel_set((#[trigger] items[j]).1).contains(x),
    decreases n,
{
    lemma_int_range(0, s.cursor as int);
    if n > 0 {
        lemma_live_fits(s, items, (n - 1) as nat);
        let before = live_texels(s, items, (n - 1) as nat);
        let item = items[n - 1];
        let all = live_texels(s, items, n);
        assert(s.residents.contains_key(item.0));
        if s.live(item.0) {
            lemma_texel_set(item.1, s.cursor as int);
            assert(before.disjoint(texel_set(item.1))) by {
                assert forall|x: int| !(before.contains(x) && texel_set(item.1).contains(x)) by {
                    if before.contains(x) && texel_set(item.1).contains(x) {
                        let j = choose|j: int| 0 <= j < n - 1 && texel_set((#[trigger] items[j]).1).contains(x);
                        assert(items[j].0 != items[n - 1].0);
                        assert(s.residents.contains_key(items[j].0));
                        assert(s.residents[items[j].0].apart(s.residents[item.0]));
                    }
                }
            }
            lemma_set_disjoint_lens(before, texel_set(item.1));
            assert(moved_words(s, item.1, 0).len() == 2 * item.1.total_len());
        }
        lemma_len_subset(all, set_int_range(0, s.cursor as int));
        assert forall|x: int| #[trigger] all.contains(x) implies exists|j: int|
            0 <= j < n && texel_set((#[trigger] items[j]).1).contains(x) by {
            if before.contains(x) {
                let j = choose|j: int| 0 <= j < n - 1 && texel_set((#[trigger] items[j]).1).contains(x);
                assert(texel_set(items[j].1).contains(x));
            } else {
                assert(texel_set(items[n - 1].1).contains(x));
            }
        }
    }
}

/// Where the live blobs among the first `n` end up.
pub(super) proof fn lemma_live_places(s: AtlasState, items: Seq<(u128, ResidentBlob)>, n: nat)
    requires
        s.wf(),
        lists_map(s.residents, items),
        n <= items.len(),
    ensures
        ({
            let places = live_places(s, items, n);
            let end = packed_live(s, items, n).len() as int / 2;
            &&& places.dom().finite()
            &&& forall|id: u128| #[trigger]
                places.contains_key(id) ==> exists|j: int| 0 <= j < n && (#[trigger] items[j]).0 == id && s.live(id)
            &&& forall|j: int| 0 <= j < n && s.live((#[trigger] items[j]).0) ==> places.contains_key(items[j].0)
            &&& forall|id: u128| #[trigger] places.contains_key(id) ==> places[id].inside(end)
            &&& forall|a: u128, b: u128|
                #![trigger places.contains_key(a), places.contains_key(b)]
                places.contains_key(a) && places.contains_key(b) && a != b ==> places[a].apart(places[b])
        }),
    decreases n,
{
    if n > 0 {
        lemma_live_places(s, items, (n - 1) as nat);
        lemma_live_fits(s, items, n);
        lemma_live_fits(s, items, (n - 1) as nat);
        let before = live_places(s, items, (n - 1) as nat);
        let places = live_places(s, items, n);
        let start = packed_live(s, items, (n - 1) as nat).len() as int / 2;
        let end = packed_live(s, items, n).len() as int / 2;
        let item = items[n - 1];
        assert(s.residents.contains_key(item.0));
        assert(item.1.inside(s.cursor as int));
        assert forall|id: u128| #[trigger] places.contains_key(id) implies exists|j: int|
            0 <= j < n && (#[trigger] items[j]).0 == id && s.live(id) by {
            if before.contains_key(id) {
                let j = choose|j: int| 0 <= j < n - 1 && (#[trigger] items[j]).0 == id && s.live(id);
                assert(items[j].0 == id);
            } else {
                assert(items[n - 1].0 == id);
            }
        }
        if s.live(item.0) {
            assert(moved_words(s, item.1, start as u32).len() == 2 * item.1.total_len());
            assert(end == start + item.1.total_len());
            let m = moved_blob(item.1, start as u32);
            assert(places == before.insert(item.0, m));
            assert(m.inside(end));
            assert(!before.contains_key(item.0)) by {
                if before.contains_key(item.0) {
                    let j = choose|j: int| 0 <= j < n - 1 && (#[trigger] items[j]).0 == item.0 && s.live(item.0);
                    assert(items[j].0 == items[n - 1].0);
                }
            }
            assert forall|id: u128| #[trigger] places.contains_key(id) implies places[id].inside(end) by {
                if id != item.0 {
                    assert(before.contains_key(id));
                    assert(before[id].inside(start));
                }
            }
            assert forall|a: u128, b: u128|
                #![trigger places.contains_key(a), places.contains_key(b)]
                places.contains_key(a) && places.contains_key(b) && a != b implies places[a].apart(places[b]) by {
                if a != item.0 {
                    assert(before.contains_key(a));
                    assert(before[a].inside(start));
                }
                if b != item.0 {
                    assert(before.contains_key(b));
                    assert(before[b].inside(start));
                }
            }
        }
    }
}

/// Moving the last of the remaining items to its place among the sorted ones
/// lists the same map.
proof fn lemma_item_moved(m: Map<u128, ResidentBlob>, sorted: Seq<(u128, ResidentBlob)>, rest: Seq<(u128, ResidentBlob)>, at: int)
    requires
        rest.len() > 0,
        0 <= at <= sorted.len(),
        lists_map(m, sorted + rest),
    ensures
        lists_map(m, sorted.insert(at, rest.last()) + rest.drop_last()),
{
    let before = sorted + rest;
    let after = sorted.insert(at, rest.last()) + rest.drop_last();
    let last = before.len() - 1;
    assert(after.len() == before.len());
    assert forall|i: int| 0 <= i < after.len() implies after[i] == before[if i < at {
        i
    } else if i == at {
        last
    } else {
        i - 1
    }] by {
    }
    assert forall|i: int| 0 <= i < after.len() implies m.contains_key((#[trigger] after[i]).0) && m[after[i].0]
        == after[i].1 by {
        let j = if i < at {
            i
        } else if i == at {
            last
        } else {
            i - 1
        };
        assert(after[i] == before[j]);
        assert(m.contains_key(before[j].0));
    }
    assert forall|i: int, k: int| 0 <= i < k < after.len() implies (#[trigger] after[i]).0 != (#[trigger] after[k]).0 by {
        let a = if i < at {
            i
        } else if i == at {
            last
        } else {
            i - 1
        };
        let b = if k < at {
            k
        } else if k == at {
            last
        } else {
            k - 1
        };
        assert(after[i] == before[a]);
        assert(after[k] == before[b]);
        assert(a != b);
        if a < b {
            assert(before[a].0 != before[b].0);
        } else {
            assert(before[b].0 != before[a].0);
        }
    }
    assert forall|id: u128| #[trigger] m.contains_key(id) implies exists|i: int|
        0 <= i < after.len() && (#[trigger] after[i]).0 == id by {
        let j = choose|j: int| 0 <= j < before.len() && (#[trigger] before[j]).0 == id;
        let i = if j == last {
            at
        } else if j < at {
            j
        } else {
            j + 1
        };
        assert(after[i] == before[j]);
    }
}

/// Sorts residents so that the last one comes first in the buffer.
fn last_in_buffer_first(items: Vec<(u128, ResidentBlob)>, Ghost(m): Ghost<Map<u128, ResidentBlob>>) -> (r: Vec<(u128, ResidentBlob)>)
    requires
        lists_map(m, items@),
    ensures
        in_data_order(m, r@.reverse()),
{
    let mut rest: Vec<(u128, ResidentBlob)> = items;
    let mut sorted: Vec<(u128, ResidentBlob)> = Vec::new();
    assert(sorted@ + rest@ =~= rest@);
    while rest.len() > 0
        invariant
            lists_map(m, sorted@ + rest@),
            forall|i: int, j: int|
                0 <= i < j < sorted@.len() ==> (#[trigger] sorted@[i]).1.start_texel >= (#[trigger] sorted@[j]).1.start_texel,
        decreases rest.len(),
    {
        let ghost rest_before = rest@;
        let item: (u128, ResidentBlob) = rest.pop().unwrap();
        let mut at: usize = sorted.len();
        while at > 0 && sorted[at - 1].1.start_texel < item.1.start_texel
            invariant
                at <= sorted.len(),
                forall|i: int, j: int|
                    0 <= i < j < sorted@.len() ==> (#[trigger] sorted@[i]).1.start_texel >= (#[trigger] sorted@[j]).1.start_texel,
                forall|j: int| at <= j < sorted@.len() ==> (#[trigger] sorted@[j]).1.start_texel < item.1.start_texel,
            decreases at,
        {
            at = at - 1;
        }
        let ghost sorted_before = sorted@;
        proof {
            lemma_item_moved(m, sorted@, rest_before, at as int);
        }
        sorted.insert(at, item);
        proof {
            assert forall|i: int, j: int| 0 <= i < j < sorted@.len() implies (#[trigger] sorted@[i]).1.start_texel >= (
            #[trigger] sorted@[j]).1.start_texel by {
                let a = if i < at { i } else { i - 1 };
                let b = if j < at { j } else { j - 1 };
                if i != at && j != at {
                    assert(sorted@[i] == sorted_before[a]);
                    assert(sorted@[j] == sorted_before[b]);
                } else if i == at {
                    assert(sorted@[j] == sorted_before[b]);
                } else {
                    assert(sorted@[i] == sorted_before[i]);
                    if i < at - 1 {
                        assert(sorted_before[i].1.start_texel >= sorted_before[at - 1].1.start_texel);
                    }
                }
            }
        }
    }
    proof {
        assert(sorted@ + rest@ =~= sorted@);
        lemma_reversed_lists(m, sorted@);
        let r = sorted@.reverse();
        assert forall|i: int, j: int| 0 <= i < j < r.len() implies (#[trigger] r[i]).1.start_texel <= (#[trigger] r[j]).1.start_texel by {
            assert(r[i] == sorted@[r.len() - 1 - i]);
            assert(r[j] == sorted@[r.len() - 1 - j]);
        }
    }
    sorted
}

proof fn lemma_reversed_lists(m: Map<u128, ResidentBlob>, items: Seq<(u128, ResidentBlob)>)
    requires
        lists_map(m, items),
    ensures
        lists_map(m, items.reverse()),
{
    let r = items.reverse();
    let n = items.len();
    assert forall|i: int| 0 <= i < r.len() implies m.contains_key((#[trigger] r[i]).0) && m[r[i].0] == r[i].1 by {
        assert(r[i] == items[n - 1 - i]);
    }
    assert forall|i: int, j: int| 0 <= i < j < r.len() implies (#[trigger] r[i]).0 != (#[trigger] r[j]).0 by {
        assert(r[i] == items[n - 1 - i]);
        assert(r[j] == items[n - 1 - j]);
    }
    assert forall|id: u128| #[trigger] m.contains_key(id) implies exists|i: int|
        0 <= i < r.len() && (#[trigger] r[i]).0 == id by {
        let j = choose|j: int| 0 <= j < items.len() && (#[trigger] items[j]).0 == id;
        assert(r[n - 1 - j] == items[j]);
    }
}

/// What the evicted blobs among the first `n` are.
pub(super) proof fn lemma_evicted(s: AtlasState, items: Seq<(u128, ResidentBlob)>, n: nat)
    requires
        s.wf(),
        lists_map(s.residents, items),
        n <= items.len(),
    ensures
        evicted(s, items, n).len() <= n,
        forall|k: int|
            0 <= k < evicted(s, items, n).len() ==> exists|j: int|
                0 <= j < n && !s.live((#[trigger] items[j]).0) && #[trigger] evicted(s, items, n)[k] == evicted_candidate(
                    s,
                    items[j].0,
                    items[j].1,
                ),
        forall|k: int, l: int|
            0 <= k < l < evicted(s, items, n).len() ==> (#[trigger] evicted(s, items, n)[k]).id != (
            #[trigger] evicted(s, items, n)[l]).id,
    decreases n,
{
    if n > 0 {
        lemma_evicted(s, items, (n - 1) as nat);
        let before = evicted(s, items, (n - 1) as nat);
        let all = evicted(s, items, n);
        assert forall|k: int| 0 <= k < all.len() implies exists|j: int|
            0 <= j < n && !s.live((#[trigger] items[j]).0) && #[trigger] all[k] == evicted_candidate(
                s,
                items[j].0,
                items[j].1,
            ) by {
            if k < before.len() {
                let j = choose|j: int|
                    0 <= j < n - 1 && !s.live((#[trigger] items[j]).0) && before[k] == evicted_candidate(
                        s,
                        items[j].0,
                        items[j].1,
                    );
                assert(all[k] == evicted_candidate(s, items[j].0, items[j].1));
            } else {
                assert(all[k] == evicted_candidate(s, items[n - 1].0, items[n - 1].1));
            }
        }
        assert forall|k: int, l: int| 0 <= k < l < all.len() implies (#[trigger] all[k]).id != (#[trigger] all[l]).id by {
            assert(all[k] == before[k]);
            if l == before.len() {
                let j = choose|j: int|
                    0 <= j < n - 1 && !s.live((#[trigger] items[j]).0) && before[k] == evicted_candidate(
                        s,
                        items[j].0,
                        items[j].1,
                    );
                assert(items[j].0 != items[n - 1].0);
            } else {
                assert(all[l] == before[l]);
            }
        }
    }
}

/// No two candidates are for the same glyph, and none is for a live one.
pub(super) proof fn lemma_candidates(s: AtlasState, items: Seq<(u128, ResidentBlob)>, spare: Seq<(u128, CachedBlob)>)
    requires
        s.wf(),
        lists_map(s.residents, items),
        lists_map(s.cached, spare),
    ensures
        ({
            let c = candidates(s, items, spare);
            &&& forall|k: int, l: int|
                0 <= k < l < c.len() ==> (#[trigger] c[k]).id != (#[trigger] c[l]).id
            &&& forall|k: int| 0 <= k < c.len() ==> !s.live((#[trigger] c[k]).id)
        }),
{
    let c = candidates(s, items, spare);
    let ev = evicted(s, items, items.len());
    lemma_evicted(s, items, items.len());
    assert forall|k: int| 0 <= k < ev.len() implies s.glyphs.contains_key((#[trigger] ev[k]).id) && !s.live(ev[k].id) by {
        let j = choose|j: int|
            0 <= j < items.len() && !s.live((#[trigger] items[j]).0) && ev[k] == evicted_candidate(
                s,
                items[j].0,
                items[j].1,
            );
        assert(s.residents.contains_key(items[j].0));
        assert(s.installed(items[j].0));
    }
    assert forall|k: int| ev.len() <= k < c.len() implies !s.glyphs.contains_key((#[trigger] c[k]).id) by {
        let i = k - ev.len();
        assert(c[k] == cached_candidate(spare[i].0, spare[i].1));
        assert(s.cached.contains_key(spare[i].0));
    }
    assert forall|k: int, l: int| 0 <= k < l < c.len() implies (#[trigger] c[k]).id != (#[trigger] c[l]).id by {
        if l < ev.len() {
            assert(c[k] == ev[k] && c[l] == ev[l]);
        } else if k < ev.len() {
            assert(c[k] == ev[k]);
        } else {
            assert(c[k] == cached_candidate(spare[k - ev.len()].0, spare[k - ev.len()].1));
            assert(c[l] == cached_candidate(spare[l - ev.len()].0, spare[l - ev.len()].1));
        }
    }
    assert forall|k: int| 0 <= k < c.len() implies !s.live((#[trigger] c[k]).id) by {
        if k < ev.len() {
            assert(c[k] == ev[k]);
        }
    }
}

/// The glyphs among the first `n` residents that are not live.
spec fn gone_among(s: AtlasState, items: Seq<(u128, ResidentBlob)>, n: int) -> Set<u128> {
    Set::new(|id: u128| !s.live(id) && exists|j: int| 0 <= j < n && (#[trigger] items[j]).0 == id)
}

/// A compaction of `s` has come to `t`: the glyphs in `gone` are forgotten, and
/// the residents of `t` have been moved.
spec fn midway(s: AtlasState, t: AtlasState, gone: Set<u128>) -> bool {
    &&& t.frame == s.frame
    &&& forall|id: u128| #[trigger]
        t.glyphs.contains_key(id) <==> s.glyphs.contains_key(id) && !gone.contains(id)
    &&& forall|id: u128| #[trigger]
        t.glyphs.contains_key(id) ==> t.glyphs[id] == (if t.residents.contains_key(id) && t.residents[id].kind is Mono {
            GlyphEntry { glyph_offset: t.residents[id].start_texel, ..s.glyphs[id] }
        } else {
            s.glyphs[id]
        })
    &&& forall|id: u128| #[trigger]
        gone.contains(id) ==> s.glyphs.contains_key(id) && !s.live(id) && !t.layers.contains_key(id)
            && !t.commands.contains_key(id)
    &&& forall|id: u128|
        !gone.contains(id) && !t.residents.contains_key(id) ==> (#[trigger] t.layers.contains_key(id)
            == s.layers.contains_key(id)) && (s.layers.contains_key(id) ==> t.layers[id] == s.layers[id])
    &&& forall|id: u128|
        !gone.contains(id) && !t.residents.contains_key(id) ==> (#[trigger] t.commands.contains_key(id)
            == s.commands.contains_key(id)) && (s.commands.contains_key(id) ==> t.commands[id] == s.commands[id])
    &&& forall|id: u128| #[trigger] t.residents.contains_key(id) ==> t.installed(id) && s.live(id)
}

/// Only the entries of glyphs and the residents differ.
spec fn same_buffer(s: AtlasState, t: AtlasState) -> bool {
    t == (AtlasState { glyphs: t.glyphs, layers: t.layers, commands: t.commands, residents: t.residents, ..s })
}

proof fn lemma_group_removed(s: AtlasState, t: AtlasState, u: AtlasState, gone: Set<u128>, id: u128)
    requires
        midway(s, t, gone),
        s.glyphs.contains_key(id),
        !s.live(id),
        u == (AtlasState {
            glyphs: t.glyphs.remove(id),
            layers: t.layers.remove(id),
            commands: t.commands.remove(id),
            ..t
        }),
    ensures
        midway(s, u, gone.insert(id)),
{
    assert forall|k: u128| #[trigger] u.residents.contains_key(k) implies u.installed(k) && s.live(k) by {
        assert(t.residents.contains_key(k));
        assert(t.installed(k));
        assert(k != id);
    }
}

proof fn lemma_midway_same(s: AtlasState, t: AtlasState, u: AtlasState, gone: Set<u128>)
    requires
        midway(s, t, gone),
        u.glyphs == t.glyphs,
        u.layers == t.layers,
        u.commands == t.commands,
        u.residents == t.residents,
        u.frame == t.frame,
    ensures
        midway(s, u, gone),
{
    assert forall|k: u128| #[trigger] u.residents.contains_key(k) implies u.installed(k) && s.live(k) by {
        assert(t.residents.contains_key(k));
        assert(t.installed(k));
    }
}

proof fn lemma_blob_moved(
    s: AtlasState,
    t: AtlasState,
    u: AtlasState,
    v: AtlasState,
    gone: Set<u128>,
    id: u128,
    start: u32,
)
    requires
        s.wf(),
        s.residents.contains_key(id),
        s.live(id),
        midway(s, t, gone),
        !t.residents.contains_key(id),
        !gone.contains(id),
        offsets_installed(t, u, id, start, s.residents[id].kind),
        v == (AtlasState { residents: t.residents.insert(id, moved_blob(s.residents[id], start)), ..u }),
    ensures
        midway(s, v, gone),
{
    assert(s.installed(id));
    assert(t.glyphs.contains_key(id));
    assert(t.glyphs[id] == s.glyphs[id]);
    assert(t.layers.contains_key(id) == s.layers.contains_key(id));
    assert(t.commands.contains_key(id) == s.commands.contains_key(id));
    assert forall|k: u128| #[trigger] v.residents.contains_key(k) implies v.installed(k) && s.live(k) by {
        if k != id {
            assert(t.residents.contains_key(k));
            assert(t.installed(k));
        }
    }
    assert forall|k: u128| #[trigger] v.glyphs.contains_key(k) implies v.glyphs[k] == (if v.residents.contains_key(k)
        && v.residents[k].kind is Mono {
        GlyphEntry { glyph_offset: v.residents[k].start_texel, ..s.glyphs[k] }
    } else {
        s.glyphs[k]
    }) by {
        assert(t.glyphs.contains_key(k));
    }
    assert forall|k: u128| #[trigger] gone.contains(k) implies s.glyphs.contains_key(k) && !s.live(k)
        && !v.layers.contains_key(k) && !v.commands.contains_key(k) by {
        assert(k != id);
        assert(!t.layers.contains_key(k) && !t.commands.contains_key(k));
    }
    assert forall|k: u128| !gone.contains(k) && !v.residents.contains_key(k) implies (#[trigger] v.layers.contains_key(k)
        == s.layers.contains_key(k)) && (s.layers.contains_key(k) ==> v.layers[k] == s.layers[k]) by {
        assert(k != id);
        assert(t.layers.contains_key(k) == s.layers.contains_key(k));
    }
    assert forall|k: u128| !gone.contains(k) && !v.residents.contains_key(k) implies (
    #[trigger] v.commands.contains_key(k) == s.commands.contains_key(k)) && (s.commands.contains_key(k) ==> v.commands[k]
        == s.commands[k]) by {
        assert(k != id);
        assert(t.commands.contains_key(k) == s.commands.contains_key(k));
    }
}

impl TextAtlas {
    fn remove_glyph_group(&mut self, id: u128)
        requires
            old(self).glyphs.wf() && old(self).blob_cache.wf(),
        ensures
            final(self).glyphs.wf() && final(self).blob_cache.wf(),
            final(self)@ == (AtlasState {
                glyphs: old(self)@.glyphs.remove(id),
                layers: old(self)@.layers.remove(id),
                commands: old(self)@.commands.remove(id),
                ..old(self)@
            }),
    {
        self.glyphs.forget(id);
        let _ = map_remove(&mut self.color_glyphs, id);
        let _ = map_remove(&mut self.color_v1_glyphs, id);
    }

    /// Appends a live blob to the compact buffer and installs it there.
    fn move_blob(&mut self, compact: &mut Vec<i32>, old_data: &Vec<i32>, id: u128, blob: ResidentBlob, Ghost(s): Ghost<AtlasState>, Ghost(gone): Ghost<Set<u128>>)
        requires
            s.wf(),
            old_data@ == s.words,
            s.residents.contains_key(id),
            s.residents[id] == blob,
            s.live(id),
            old(compact)@.len() % 2 == 0,
            old(compact)@.len() / 2 + blob.total_len() <= u32::MAX,
            old(self).glyphs.wf() && old(self).blob_cache.wf(),
            midway(s, old(self)@, gone),
            !old(self)@.residents.contains_key(id),
            !gone.contains(id),
        ensures
            final(self).glyphs.wf() && final(self).blob_cache.wf(),
            final(compact)@ == old(compact)@ + moved_words(s, blob, (old(compact)@.len() / 2) as u32),
            midway(s, final(self)@, gone),
            same_buffer(old(self)@, final(self)@),
            final(self)@.residents == old(self)@.residents.insert(
                id,
                moved_blob(blob, (old(compact)@.len() / 2) as u32),
            ),
    {
        let ghost t = self@;
        let ghost before = compact@;
        assert(blob.inside(s.cursor as int));
        let new_start: u32 = (compact.len() / 2) as u32;
        let start: usize = blob.start_texel as usize * 2;
        let end: usize = start + blob.texel_len as usize * 2;
        append_words(compact, old_data, start, end);
        let mut new_border: Option<ResidentBorderBlob> = None;
        if let Some(border) = &blob.border {
            let border_start: usize = border.start_texel as usize * 2;
            let border_end: usize = border_start + border.texel_len as usize * 2;
            let at: usize = compact.len();
            let ghost with_primary = compact@;
            append_words(compact, old_data, border_start, border_end);
            compact.set(at, to_word(new_start));
            proof {
                let words = s.span(border.start_texel as int, border.texel_len as int);
                assert(compact@ =~= with_primary + words.update(0, bits_word(new_start)));
            }
            new_border = Some(ResidentBorderBlob { start_texel: (at / 2) as u32, ..*border });
        }
        assert(compact@ =~= before + moved_words(s, blob, new_start));
        self.install_offsets(id, new_start, &blob.kind, Ghost(blob.texel_len as int));
        let ghost u = self@;
        map_insert(
            &mut self.resident_blobs,
            id,
            ResidentBlob { start_texel: new_start, texel_len: blob.texel_len, kind: blob.kind, border: new_border },
        );
        proof {
            lemma_blob_moved(s, t, u, self@, gone, id, new_start);
        }
    }

    /// Moves the live residents together, in the order of their data, and hands
    /// back the others.
    fn move_residents(&mut self, pending: Vec<(u128, ResidentBlob)>, old_data: &Vec<i32>, Ghost(s): Ghost<AtlasState>, Ghost(items): Ghost<Seq<(u128, ResidentBlob)>>) -> (r: (Vec<i32>, Vec<(u128, ResidentBlob)>, Vec<u64>))
        requires
            s.wf(),
            in_data_order(s.residents, items),
            pending@ == items.reverse(),
            old_data@ == s.words,
            old(self).glyphs.wf() && old(self).blob_cache.wf(),
            old(self)@ == (AtlasState { words: Seq::empty(), residents: Map::empty(), ..s }),
        ensures
            final(self).glyphs.wf() && final(self).blob_cache.wf(),
            midway(s, final(self)@, gone_among(s, items, items.len() as int)),
            same_buffer(old(self)@, final(self)@),
            final(self)@.residents == live_places(s, items, items.len()),
            r.0@ == packed_live(s, items, items.len()),
            r.1@.len() == evicted(s, items, items.len()).len(),
            forall|k: int|
                0 <= k < r.1@.len() ==> evicted_candidate(s, (#[trigger] r.1@[k]).0, r.1@[k].1) == evicted(
                    s,
                    items,
                    items.len(),
                )[k] && s.residents.contains_key(r.1@[k].0) && s.residents[r.1@[k].0] == r.1@[k].1,
            r.2@.len() == r.1@.len(),
            forall|k: int|
                0 <= k < r.2@.len() ==> #[trigger] r.2@[k] == s.glyphs[r.1@[k].0].last_used_epoch,
    {
        let mut pending: Vec<(u128, ResidentBlob)> = pending;
        let mut compact: Vec<i32> = Vec::new();
        let mut losers: Vec<(u128, ResidentBlob)> = Vec::new();
        let mut epochs: Vec<u64> = Vec::new();
        let ghost mut i: int = 0;
        let ghost n = items.len() as int;
        proof {
            assert(pending@ =~= items.skip(0).reverse());
            assert(compact@ =~= packed_live(s, items, 0));
            assert(gone_among(s, items, 0) =~= Set::<u128>::empty());
        }
        while pending.len() > 0
            invariant
                0 <= i <= n,
                n == items.len(),
                s.wf(),
                in_data_order(s.residents, items),
                old_data@ == s.words,
                pending@ == items.skip(i).reverse(),
                self.glyphs.wf() && self.blob_cache.wf(),
                midway(s, self@, gone_among(s, items, i)),
                same_buffer(old(self)@, self@),
                self@.residents == live_places(s, items, i as nat),
                compact@ == packed_live(s, items, i as nat),
                losers@.len() == evicted(s, items, i as nat).len(),
                forall|k: int|
                    0 <= k < losers@.len() ==> evicted_candidate(s, (#[trigger] losers@[k]).0, losers@[k].1) == evicted(
                        s,
                        items,
                        i as nat,
                    )[k] && s.residents.contains_key(losers@[k].0) && s.residents[losers@[k].0] == losers@[k].1,
                epochs@.len() == losers@.len(),
                forall|k: int|
                    0 <= k < epochs@.len() ==> #[trigger] epochs@[k] == s.glyphs[losers@[k].0].last_used_epoch,
            decreases pending.len(),
        {
            proof {
                assert(pending@.last() == items[i]);
                assert(pending@.drop_last() =~= items.skip(i + 1).reverse());
                lemma_live_fits(s, items, i as nat);
                lemma_live_fits(s, items, (i + 1) as nat);
                lemma_live_places(s, items, i as nat);
            }
            let (id, blob) = pending.pop().unwrap();
            let ghost gone = gone_among(s, items, i);
            proof {
                assert(items[i] == (id, blob));
                assert(s.residents.contains_key(items[i].0));
                assert(s.installed(id));
                assert(!gone.contains(id) && !self@.residents.contains_key(id)) by {
                    if gone.contains(id) {
                        let j = choose|j: int| 0 <= j < i && (#[trigger] items[j]).0 == id;
                        assert(items[j].0 != items[i].0);
                    }
                    if self@.residents.contains_key(id) {
                        let j = choose|j: int| 0 <= j < i && (#[trigger] items[j]).0 == id && s.live(id);
                        assert(items[j].0 != items[i].0);
                    }
                }
                assert(self@.glyphs.contains_key(id));
                assert(self@.glyphs[id] == s.glyphs[id]);
            }
            if self.glyphs.is_current(id) {
                proof {
                    assert(s.live(id));
                    assert(gone_among(s, items, i + 1) =~= gone) by {
                        assert forall|k: u128| gone_among(s, items, i + 1).contains(k) == gone.contains(k) by {
                            if gone.contains(k) {
                                let j = choose|j: int| 0 <= j < i && (#[trigger] items[j]).0 == k;
                                assert(items[j].0 == k);
                            }
                            if gone_among(s, items, i + 1).contains(k) {
                                let j = choose|j: int| 0 <= j < i + 1 && (#[trigger] items[j]).0 == k;
                                assert(j != i);
                            }
                        }
                    }
                    assert(moved_words(s, blob, 0).len() == 2 * blob.total_len()) by {
                        assert(blob.inside(s.cursor as int));
                    }
                }
                self.move_blob(&mut compact, old_data, id, blob, Ghost(s), Ghost(gone));
            } else {
                let ghost t = self@;
                let epoch: u64 = match self.glyphs.find(id) {
                    Some(entry) => entry.last_used_epoch,
                    None => 0,
                };
                epochs.push(epoch);
                self.remove_glyph_group(id);
                proof {
                    assert(!s.live(id));
                    lemma_group_removed(s, t, self@, gone, id);
                    assert(gone_among(s, items, i + 1) =~= gone.insert(id)) by {
                        assert forall|k: u128| gone_among(s, items, i + 1).contains(k) == gone.insert(id).contains(k) by {
                            if gone.contains(k) {
                                let j = choose|j: int| 0 <= j < i && (#[trigger] items[j]).0 == k;
                                assert(items[j].0 == k);
                            }
                            if gone_among(s, items, i + 1).contains(k) {
                                let j = choose|j: int| 0 <= j < i + 1 && (#[trigger] items[j]).0 == k;
                                if j < i {
                                    assert(gone.contains(k));
                                }
                            }
                            assert(items[i].0 == id);
                        }
                    }
                }
                losers.push((id, blob));
            }
            proof {
                i = i + 1;
            }
        }
        (compact, losers, epochs)
    }

    /// Forgets every glyph that was not used in the current frame.
    fn forget_unused(&mut self, Ghost(s): Ghost<AtlasState>, Ghost(gone): Ghost<Set<u128>>)
        requires
            old(self).glyphs.wf() && old(self).blob_cache.wf(),
            midway(s, old(self)@, gone),
        ensures
            final(self).glyphs.wf() && final(self).blob_cache.wf(),
            same_buffer(old(self)@, final(self)@),
            final(self)@.residents == old(self)@.residents,
            midway(s, final(self)@, Set::new(|id: u128| s.glyphs.contains_key(id) && !s.live(id))),
    {
        let ids: Vec<u128> = self.glyphs.ids();
        let ghost start = self@;
        let ghost mut now: Set<u128> = gone;
        let mut i: usize = 0;
        while i < ids.len()
            invariant
                i <= ids.len(),
                start == old(self)@,
                midway(s, start, gone),
                lists_keys(start.glyphs, ids@),
                self.glyphs.wf() && self.blob_cache.wf(),
                same_buffer(start, self@),
                self@.residents == start.residents,
                midway(s, self@, now),
                gone.subset_of(now),
                forall|k: int| 0 <= k < i ==> s.live(#[trigger] ids@[k]) || now.contains(ids@[k]),
                forall|k: int| i <= k < ids@.len() ==> !now.contains(#[trigger] ids@[k]),
            decreases ids.len() - i,
        {
            let id: u128 = ids[i];
            proof {
                assert(start.glyphs.contains_key(ids@[i as int]));
                assert(s.glyphs.contains_key(id));
                assert(self@.glyphs.contains_key(id));
            }
            if map_get(&self.resident_blobs, id).is_none() && !self.glyphs.is_current(id) {
                let ghost t = self@;
                self.remove_glyph_group(id);
                proof {
                    assert(!s.live(id));
                    lemma_group_removed(s, t, self@, now, id);
                    now = now.insert(id);
                }
            } else {
                assert(s.live(id)) by {
                    if self@.residents.contains_key(id) {
                        assert(self@.installed(id) && s.live(id));
                    }
                }
            }
            i = i + 1;
        }
        proof {
            let all = Set::new(|id: u128| s.glyphs.contains_key(id) && !s.live(id));
            assert(now =~= all) by {
                assert forall|id: u128| all.contains(id) implies now.contains(id) by {
                    if !gone.contains(id) {
                        assert(start.glyphs.contains_key(id));
                        assert(ids@.contains(id));
                        let k = choose|k: int| 0 <= k < ids@.len() && ids@[k] == id;
                        assert(s.live(ids@[k]) || now.contains(ids@[k]));
                    }
                }
            }
        }
    }
}

/// Where a candidate's data is.
enum Source {
    /// Still in the old buffer.
    Slice(ResidentBlob),
    /// Already a blob of its own.
    Ready(CachedBlob),
}

spec fn source_is(src: Source, c: Candidate, s: AtlasState) -> bool {
    match src {
        Source::Slice(r) => {
            &&& evicted_candidate(s, c.id, r) == c
            &&& s.residents.contains_key(c.id)
            &&& s.residents[c.id] == r
        },
        Source::Ready(b) => cached_candidate(c.id, b) == c && b.wf(),
    }
}

/// The candidates with where their data is, their ids, and their age and size.
fn gather_sources(
    losers: Vec<(u128, ResidentBlob)>,
    epochs: &Vec<u64>,
    spare: Vec<(u128, CachedBlob)>,
    Ghost(s): Ghost<AtlasState>,
    Ghost(items): Ghost<Seq<(u128, ResidentBlob)>>,
) -> (r: (Vec<Option<Source>>, Vec<u128>, Vec<(u64, usize)>))
    requires
        s.wf(),
        lists_map(s.residents, items),
        lists_map(s.cached, spare@),
        losers@.len() == evicted(s, items, items.len()).len(),
        forall|k: int|
            0 <= k < losers@.len() ==> evicted_candidate(s, (#[trigger] losers@[k]).0, losers@[k].1) == evicted(
                s,
                items,
                items.len(),
            )[k] && s.residents.contains_key(losers@[k].0) && s.residents[losers@[k].0] == losers@[k].1,
        epochs@.len() == losers@.len(),
        forall|k: int| 0 <= k < epochs@.len() ==> #[trigger] epochs@[k] == s.glyphs[losers@[k].0].last_used_epoch,
    ensures
        ({
            let c = candidates(s, items, spare@);
            &&& r.0@.len() == c.len()
            &&& r.1@.len() == c.len()
            &&& r.2@ == candidate_meta(c)
            &&& forall|k: int| 0 <= k < c.len() ==> (#[trigger] r.0@[k]) is Some && source_is(r.0@[k]->0, c[k], s)
            &&& forall|k: int| 0 <= k < c.len() ==> #[trigger] r.1@[k] == c[k].id
        }),
{
    let ghost lost = losers@;
    let ghost had = spare@;
    let ghost c = candidates(s, items, had);
    let ghost ev = evicted(s, items, items.len());
    let mut sources: Vec<Option<Source>> = Vec::new();
    let mut ids: Vec<u128> = Vec::new();
    let mut meta: Vec<(u64, usize)> = Vec::new();
    let lost_len: usize = losers.len();
    let had_len: usize = spare.len();
    let mut rest: Vec<(u128, ResidentBlob)> = reversed(losers);
    let mut i: usize = 0;
    proof {
        assert(rest@ =~= lost.skip(0).reverse());
    }
    while rest.len() > 0
        invariant
            s.wf(),
            i <= lost.len(),
            lost_len == lost.len(),
            lost.len() == ev.len(),
            ev == evicted(s, items, items.len()),
            c == candidates(s, items, had),
            rest@ == lost.skip(i as int).reverse(),
            epochs@.len() == lost.len(),
            forall|k: int|
                0 <= k < lost.len() ==> evicted_candidate(s, (#[trigger] lost[k]).0, lost[k].1) == ev[k]
                    && s.residents.contains_key(lost[k].0) && s.residents[lost[k].0] == lost[k].1,
            forall|k: int| 0 <= k < epochs@.len() ==> #[trigger] epochs@[k] == s.glyphs[lost[k].0].last_used_epoch,
            sources@.len() == i,
            ids@.len() == i,
            meta@.len() == i,
            forall|k: int| 0 <= k < i ==> (#[trigger] sources@[k]) is Some && source_is(sources@[k]->0, c[k], s),
            forall|k: int| 0 <= k < i ==> #[trigger] ids@[k] == c[k].id,
            forall|k: int| 0 <= k < i ==> #[trigger] meta@[k] == (c[k].epoch, (4 * c[k].data.len()) as usize),
        decreases rest.len(),
    {
        proof {
            assert(rest@.last() == lost[i as int]);
            assert(rest@.drop_last() =~= lost.skip(i + 1).reverse());
        }
        let (id, blob) = rest.pop().unwrap();
        proof {
            assert(lost[i as int] == (id, blob));
            assert(s.residents.contains_key(id));
            assert(blob.inside(s.cursor as int));
            assert(c[i as int] == ev[i as int]);
            assert(epochs@[i as int] == s.glyphs[lost[i as int].0].last_used_epoch);
            assert(c[i as int].data.len() == 2 * blob.total_len());
        }
        let border_len: usize = match &blob.border {
            Some(b) => b.texel_len as usize,
            None => 0,
        };
        let bytes: usize = (blob.texel_len as usize + border_len) * 2 * 4;
        meta.push((epochs[i], bytes));
        ids.push(id);
        sources.push(Some(Source::Slice(blob)));
        i = i + 1;
    }
    let ghost base = i as int;
    let mut rest: Vec<(u128, CachedBlob)> = reversed(spare);
    let mut j: usize = 0;
    proof {
        assert(rest@ =~= had.skip(0).reverse());
    }
    while rest.len() > 0
        invariant
            s.wf(),
            base == ev.len(),
            ev == evicted(s, items, items.len()),
            c == candidates(s, items, had),
            lists_map(s.cached, had),
            j <= had.len(),
            had_len == had.len(),
            rest@ == had.skip(j as int).reverse(),
            sources@.len() == base + j,
            ids@.len() == base + j,
            meta@.len() == base + j,
            forall|k: int|
                0 <= k < base + j ==> (#[trigger] sources@[k]) is Some && source_is(sources@[k]->0, c[k], s),
            forall|k: int| 0 <= k < base + j ==> #[trigger] ids@[k] == c[k].id,
            forall|k: int| 0 <= k < base + j ==> #[trigger] meta@[k] == (c[k].epoch, (4 * c[k].data.len()) as usize),
        decreases rest.len(),
    {
        proof {
            assert(rest@.last() == had[j as int]);
            assert(rest@.drop_last() =~= had.skip(j + 1).reverse());
        }
        let (id, blob) = rest.pop().unwrap();
        proof {
            assert(had[j as int] == (id, blob));
            assert(s.cached.contains_key(had[j as int].0));
            assert(blob.wf());
            assert(c[base + j] == cached_candidate(id, blob));
        }
        meta.push((blob.last_used_epoch, blob.data.len() * 4));
        ids.push(id);
        sources.push(Some(Source::Ready(blob)));
        j = j + 1;
    }
    proof {
        assert(c.len() == base + had.len());
        assert(meta@ =~= candidate_meta(c));
    }
    (sources, ids, meta)
}

/// A blob of its own from a resident one.
fn cut_out(old_data: &Vec<i32>, blob: ResidentBlob, epoch: u64, Ghost(s): Ghost<AtlasState>, Ghost(id): Ghost<u128>) -> (r: CachedBlob)
    requires
        s.wf(),
        old_data@ == s.words,
        s.residents.contains_key(id),
        s.residents[id] == blob,
        epoch == s.glyphs[id].last_used_epoch,
    ensures
        cached_candidate(id, r) == evicted_candidate(s, id, blob),
        r.wf(),
{
    assert(blob.inside(s.cursor as int));
    let start: usize = blob.start_texel as usize * 2;
    let end: usize = start + blob.texel_len as usize * 2;
    let mut data: Vec<i32> = Vec::new();
    append_words(&mut data, old_data, start, end);
    let mut border: Option<CachedBorderBlob> = None;
    if let Some(b) = &blob.border {
        let border_start: usize = b.start_texel as usize * 2;
        let border_end: usize = border_start + b.texel_len as usize * 2;
        append_words(&mut data, old_data, border_start, border_end);
        border = Some(
            CachedBorderBlob {
                relative_offset: blob.texel_len,
                texel_len: b.texel_len,
                ppem_ceiling: b.ppem_ceiling,
                grid_radius_units: b.grid_radius_units,
            },
        );
    }
    assert(data@ =~= evicted_candidate(s, id, blob).data);
    CachedBlob { data, kind: blob.kind, border, last_used_epoch: epoch }
}

/// Makes blobs of the picked candidates.
fn materialize(
    sources: Vec<Option<Source>>,
    ids: &Vec<u128>,
    meta: &Vec<(u64, usize)>,
    picked: &Vec<usize>,
    old_data: &Vec<i32>,
    Ghost(s): Ghost<AtlasState>,
    Ghost(c): Ghost<Seq<Candidate>>,
) -> (r: Vec<(u128, CachedBlob)>)
    requires
        s.wf(),
        old_data@ == s.words,
        sources@.len() == c.len(),
        ids@.len() == c.len(),
        meta@ == candidate_meta(c),
        forall|k: int| 0 <= k < c.len() ==> (#[trigger] sources@[k]) is Some && source_is(sources@[k]->0, c[k], s),
        forall|k: int| 0 <= k < c.len() ==> #[trigger] ids@[k] == c[k].id,
        picked@.no_duplicates(),
        forall|j: int| 0 <= j < picked@.len() ==> #[trigger] picked@[j] < c.len(),
    ensures
        r@.len() == picked@.len(),
        forall|j: int|
            0 <= j < picked@.len() ==> (#[trigger] r@[j]).0 == c[picked@[j] as int].id && cached_candidate(
                r@[j].0,
                r@[j].1,
            ) == c[picked@[j] as int] && r@[j].1.wf(),
        listed_bytes(r@) == picked_bytes(meta@, picked@),
{
    let mut sources: Vec<Option<Source>> = sources;
    let mut kept: Vec<(u128, CachedBlob)> = Vec::new();
    let mut j: usize = 0;
    proof {
        assert(picked@.take(0) =~= Seq::<usize>::empty());
    }
    while j < picked.len()
        invariant
            s.wf(),
            j <= picked.len(),
            old_data@ == s.words,
            sources@.len() == c.len(),
            ids@.len() == c.len(),
            meta@ == candidate_meta(c),
            forall|k: int| 0 <= k < c.len() ==> #[trigger] ids@[k] == c[k].id,
            picked@.no_duplicates(),
            forall|j: int| 0 <= j < picked@.len() ==> #[trigger] picked@[j] < c.len(),
            forall|i: int|
                j <= i < picked@.len() ==> sources@[#[trigger] picked@[i] as int] is Some && source_is(
                    sources@[picked@[i] as int]->0,
                    c[picked@[i] as int],
                    s,
                ),
            kept@.len() == j,
            forall|i: int|
                0 <= i < j ==> (#[trigger] kept@[i]).0 == c[picked@[i] as int].id && cached_candidate(
                    kept@[i].0,
                    kept@[i].1,
                ) == c[picked@[i] as int] && kept@[i].1.wf(),
            listed_bytes(kept@) == picked_bytes(meta@, picked@.take(j as int)),
        decreases picked.len() - j,
    {
        let at: usize = picked[j];
        let ghost before = sources@;
        let mut slot: Option<Source> = None;
        assert(sources@[picked@[j as int] as int] is Some);
        std::mem::swap(&mut slot, &mut sources[at]);
        let blob: CachedBlob = match slot.unwrap() {
            Source::Ready(blob) => blob,
            Source::Slice(blob) => cut_out(old_data, blob, meta[at].0, Ghost(s), Ghost(c[at as int].id)),
        };
        proof {
            assert forall|i: int| j + 1 <= i < picked@.len() implies sources@[#[trigger] picked@[i] as int] is Some
                && source_is(sources@[picked@[i] as int]->0, c[picked@[i] as int], s) by {
                assert(picked@[i] != picked@[j as int]);
                assert(sources@[picked@[i] as int] == before[picked@[i] as int]);
            }
        }
        let ghost kept_before = kept@;
        kept.push((ids[at], blob));
        proof {
            assert(kept@.drop_last() =~= kept_before);
            assert(picked@.take(j + 1).drop_last() =~= picked@.take(j as int));
            assert(meta@[at as int].1 == 4 * c[at as int].data.len());
        }
        j = j + 1;
    }
    assert(picked@.take(j as int) =~= picked@);
    kept
}

impl TextAtlas {
    /// Moves the data of the current frame's glyphs together and the rest to the
    /// blob cache.
    fn compact_atlas(&mut self)
        requires
            old(self).wf(),
        ensures
            final(self).wf(),
            compacted(old(self)@, final(self)@),
    {
        let ghost s = self@;
        let mut old_data: Vec<i32> = Vec::new();
        std::mem::swap(&mut old_data, &mut self.buffer_data);
        let residents: Vec<(u128, ResidentBlob)> = map_drain(&mut self.resident_blobs);
        let pending: Vec<(u128, ResidentBlob)> = last_in_buffer_first(residents, Ghost(s.residents));
        let ghost items = pending@.reverse();
        proof {
            assert(items.reverse() =~= pending@);
            assert(self@ == (AtlasState { words: Seq::empty(), residents: Map::empty(), ..s }));
            lemma_live_fits(s, items, items.len());
            lemma_live_places(s, items, items.len());
        }
        let (compact, losers, epochs) = self.move_residents(pending, &old_data, Ghost(s), Ghost(items));
        let spare: Vec<(u128, CachedBlob)> = self.blob_cache.drain();
        let ghost had = spare@;
        let ghost c = candidates(s, items, had);
        self.forget_unused(Ghost(s), Ghost(gone_among(s, items, items.len() as int)));
        let ghost moved = self@;
        let (sources, ids, meta) = gather_sources(losers, &epochs, spare, Ghost(s), Ghost(items));
        let budget: usize = self.blob_cache.budget();
        let (picked, budget_evictions, oversized_drops) = select_within_budget(meta.as_slice(), budget);
        let candidate_count: usize = meta.len();
        proof {
            law_selection_accounts_for_all(meta@, budget);
            lemma_candidates(s, items, had);
        }
        let kept: Vec<(u128, CachedBlob)> = materialize(sources, &ids, &meta, &picked, &old_data, Ghost(s), Ghost(c));
        let ghost kept_seq = kept@;
        proof {
            assert forall|i: int, j: int| 0 <= i < j < kept_seq.len() implies (#[trigger] kept_seq[i]).0 != (
            #[trigger] kept_seq[j]).0 by {
                assert(picked@[i] != picked@[j]);
                let a = picked@[i] as int;
                let b = picked@[j] as int;
                if a < b {
                    assert(c[a].id != c[b].id);
                } else {
                    assert(c[b].id != c[a].id);
                }
            }
            crate::blob_cache::lemma_map_of(kept_seq);
            crate::blob_cache::lemma_budget_bytes(meta@, budget);
        }
        self.blob_cache.replace_entries(kept, budget_evictions, oversized_drops);
        self.buffer_data = compact;
        self.reclaimable_border_spans = Vec::new();
        self.buffer_cursor = (self.buffer_data.len() / 2) as u32;
        self.gpu_flush_cursor = 0;
        self.generation = if self.generation == u32::MAX {
            0
        } else {
            self.generation + 1
        };
        let required: u32 = if self.buffer_cursor > self.initial_buffer_capacity {
            self.buffer_cursor
        } else {
            self.initial_buffer_capacity
        };
        self.buffer_capacity = planned_buffer_capacity(
            self.initial_buffer_capacity,
            required,
            self.max_buffer_capacity,
        ).unwrap();
        proof {
            let t = self@;
            super::law_plan_holds_what_is_required(s.initial, required, s.max);
            assert(t.reclaimable =~= Seq::<(u32, u32)>::empty());
            let gone = Set::new(|id: u128| s.glyphs.contains_key(id) && !s.live(id));
            lemma_midway_same(s, moved, t, gone);
            assert(holds_picked(t.cached, c, picked@)) by {
                assert forall|j: int| 0 <= j < picked@.len() implies t.cached.contains_key(
                    c[#[trigger] picked@[j] as int].id,
                ) && cached_candidate(c[picked@[j] as int].id, t.cached[c[picked@[j] as int].id])
                    == c[picked@[j] as int] by {
                    assert(kept_seq[j].0 == c[picked@[j] as int].id);
                }
                assert forall|id: u128| #[trigger] t.cached.contains_key(id) implies exists|j: int|
                    0 <= j < picked@.len() && c[#[trigger] picked@[j] as int].id == id by {
                    let j = choose|j: int| 0 <= j < kept_seq.len() && (#[trigger] kept_seq[j]).0 == id;
                    assert(c[picked@[j] as int].id == id);
                }
            }
            assert(candidate_count == c.len());
            assert(compacted_in_order(s, t, items, had));
            assert(glyphs_compacted(s, t));
            assert(colors_compacted(s, t)) by {
                assert forall|id: u128| (s.glyphs.contains_key(id) && !s.live(id)) implies !(
                #[trigger] t.layers.contains_key(id)) && !t.commands.contains_key(id) by {
                    assert(gone.contains(id));
                }
                assert forall|id: u128|
                    !t.residents.contains_key(id) && !(s.glyphs.contains_key(id) && !s.live(id)) implies (
                #[trigger] t.layers.contains_key(id) == s.layers.contains_key(id)) && (s.layers.contains_key(id)
                    ==> t.layers[id] == s.layers[id]) by {
                    assert(!gone.contains(id));
                }
                assert forall|id: u128|
                    !t.residents.contains_key(id) && !(s.glyphs.contains_key(id) && !s.live(id)) implies (
                #[trigger] t.commands.contains_key(id) == s.commands.contains_key(id)) && (s.commands.contains_key(id)
                    ==> t.commands[id] == s.commands[id]) by {
                    assert(!gone.contains(id));
                }
            }
            assert(t.residents_wf());
            assert forall|id: u128| #[trigger] t.cached.contains_key(id) implies t.cached[id].wf()
                && !t.glyphs.contains_key(id) by {
                let j = choose|j: int| 0 <= j < kept_seq.len() && (#[trigger] kept_seq[j]).0 == id;
                assert(kept_seq[j].1.wf());
                assert(!s.live(c[picked@[j] as int].id));
            }
        }
    }

    /// End-of-frame cache management.
    ///
    /// Starts the next frame. When the buffer has reached four times its initial
    /// size and fewer than a quarter of the known glyphs are in use, the atlas is
    /// compacted first. Tells whether it was: a new GPU buffer of the current
    /// capacity is then needed.
    pub fn trim(&mut self) -> (r: bool)
        requires
            old(self).wf(),
            old(self)@.frame < u64::MAX,
        ensures
            final(self).wf(),
            r == worth_compacting(old(self)@),
            !r ==> final(self)@ == (AtlasState { frame: (old(self)@.frame + 1) as u64, ..old(self)@ }),
            r ==> compacted(old(self)@, AtlasState { frame: old(self)@.frame, ..final(self)@ }) && final(self)@.frame
                == old(self)@.frame + 1,
            final(self)@.glyphs.dom().filter(
                |id: u128| final(self)@.glyphs[id].last_used_epoch == final(self)@.frame,
            ).len() == 0,
    {
        let factor: u64 = self.initial_buffer_capacity as u64 * TRIM_GROWTH_FACTOR as u64;
        let threshold: u32 = if factor > u32::MAX as u64 { u32::MAX } else { factor as u32 };
        let mut compact: bool = false;
        if self.buffer_capacity >= threshold {
            let cached: usize = self.glyphs.len();
            let in_use: usize = self.glyphs.in_use_count();
            proof {
                assert(self.glyphs.in_use() == self@.glyphs.dom().filter(
                    |id: u128| self@.glyphs[id].last_used_epoch == self@.frame,
                ));
            }
            compact = 4 * (in_use as u128) < (cached as u128);
        }
        assert(compact == worth_compacting(old(self)@));
        if compact {
            self.compact_atlas();
        }
        let ghost mid = self@;
        self.glyphs.next_frame();
        proof {
            let t = self@;
            assert(t == (AtlasState { frame: (mid.frame + 1) as u64, ..mid }));
            assert(mid == (AtlasState { frame: mid.frame, ..t }));
            assert forall|id: u128| #[trigger] t.residents.contains_key(id) implies t.installed(id) by {
                assert(mid.residents.contains_key(id));
                assert(mid.installed(id));
            }
            assert(t.residents_wf());
            assert(t.glyphs.dom().filter(|id: u128| t.glyphs[id].last_used_epoch == t.frame) =~= self.glyphs.in_use());
        }
        compact
    }

    /// Says what has to reach the GPU, and counts it as sent: a new buffer when
    /// the data has outgrown the current one, and the texels that the GPU does
    /// not have yet. Call once per frame after all glyphs are resolved.
    pub fn flush_uploads(&mut self) -> (r: FlushPlan)
        requires
            old(self).wf(),
        ensures
            final(self).wf(),
            old(self)@.cursor <= old(self)@.capacity ==> r == (FlushPlan {
                allocate: None,
                start: old(self)@.flushed,
                end: old(self)@.cursor,
            }),
            old(self)@.cursor > old(self)@.capacity ==> r == (FlushPlan {
                allocate: Some(final(self)@.capacity),
                start: 0,
                end: old(self)@.cursor,
            }) && final(self)@.capacity == planned_capacity(
                old(self)@.capacity as int,
                old(self)@.cursor as int,
                old(self)@.max as int,
            ),
            final(self)@ == (AtlasState {
                flushed: old(self)@.cursor,
                capacity: final(self)@.capacity,
                ..old(self)@
            }),
            old(self)@.cursor <= old(self)@.capacity ==> final(self)@.capacity == old(self)@.capacity,
            final(self)@.cursor <= final(self)@.capacity,
    {
        let ghost s = self@;
        let mut allocate: Option<u32> = None;
        let mut start: u32 = self.gpu_flush_cursor;
        if self.buffer_cursor > self.buffer_capacity {
            proof {
                super::law_plan_holds_what_is_required(s.capacity, s.cursor, s.max);
            }
            let capacity: u32 = planned_buffer_capacity(
                self.buffer_capacity,
                self.buffer_cursor,
                self.max_buffer_capacity,
            ).unwrap();
            self.buffer_capacity = capacity;
            allocate = Some(capacity);
            start = 0;
        }
        self.gpu_flush_cursor = self.buffer_cursor;
        proof {
            let t = self@;
            assert forall|id: u128| #[trigger] t.residents.contains_key(id) implies t.installed(id) by {
                assert(s.residents.contains_key(id));
                assert(s.installed(id));
            }
            assert(t.residents_wf());
        }
        FlushPlan { allocate, start, end: self.buffer_cursor }
    }
}

}
