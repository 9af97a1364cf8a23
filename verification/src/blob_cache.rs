//! Glyph data outside the atlas: what a compaction may keep on the CPU.
use vstd::prelude::*;
use rustc_hash::FxHashMap;
use crate::float32::F32;
use crate::fx::{lists_map, map_drain, map_get, map_insert, map_new, map_remove, no_entries};
use crate::lists::reversed;
use crate::ordering::{lemma_ordered, ordered, sort_by_key};

verus! {

/// A glyph's data in the atlas.
pub struct ResidentBlob {
    pub start_texel: u32,
    pub texel_len: u32,
    pub kind: BlobKind,
    pub border: Option<ResidentBorderBlob>,
}

/// A glyph's border data in the atlas.
///
/// The two capacities are independent: `ppem_ceiling` bounds the error of the
/// boundary approximation, `grid_radius_units` the distance query, in font
/// units so that one capacity serves every size the glyph is drawn at.
#[derive(Clone, Copy, Debug)]
pub struct ResidentBorderBlob {
    pub start_texel: u32,
    pub texel_len: u32,
    pub ppem_ceiling: F32,
    pub grid_radius_units: F32,
}

/// A glyph's data outside the atlas.
pub struct CachedBlob {
    pub data: Vec<i32>,
    pub kind: BlobKind,
    pub border: Option<CachedBorderBlob>,
    pub last_used_epoch: u64,
}

/// Where the border data is within a cached blob.
#[derive(Clone, Copy, Debug)]
pub struct CachedBorderBlob {
    pub relative_offset: u32,
    pub texel_len: u32,
    pub ppem_ceiling: F32,
    pub grid_radius_units: F32,
}

/// What kind of glyph a blob holds, with what its entries need.
pub enum BlobKind {
    Mono { bounds: [F32; 4], units_per_em: F32 },
    ColorV0 { units_per_em: F32, layers: Vec<CachedColorLayer> },
    ColorV1 { bounds: [F32; 4], units_per_em: F32, cmd_texel_count: u32 },
}

/// A layer of a color glyph, its data given relative to the blob.
#[derive(Clone, Copy, Debug)]
pub struct CachedColorLayer {
    pub offset: Option<u32>,
    pub bounds: [F32; 4],
    pub color: [F32; 4],
    pub use_foreground: bool,
}

/// Counters of the blob cache.
#[derive(Clone, Copy, Debug)]
pub struct BlobCacheStats {
    pub hits: u64,
    pub budget_evictions: u64,
    pub oversized_drops: u64,
    pub repopulated_bytes: u64,
    pub bytes: usize,
}

impl Default for BlobCacheStats {
    fn default() -> (r: Self)
        ensures
            r == (BlobCacheStats {
                hits: 0,
                budget_evictions: 0,
                oversized_drops: 0,
                repopulated_bytes: 0,
                bytes: 0,
            }),
    {
        BlobCacheStats { hits: 0, budget_evictions: 0, oversized_drops: 0, repopulated_bytes: 0, bytes: 0 }
    }
}

/// A counter that stays at its largest value.
pub open spec fn count_up(x: u64, by: u64) -> u64 {
    if x + by > u64::MAX { u64::MAX } else { (x + by) as u64 }
}

fn counted(x: u64, by: u64) -> (r: u64)
    ensures
        r == count_up(x, by),
{
    if by > u64::MAX - x {
        u64::MAX
    } else {
        x + by
    }
}

impl BlobKind {
    /// Layer data lies inside a blob of the given length.
    pub open spec fn fits(self, texel_len: int) -> bool {
        self matches BlobKind::ColorV0 { layers, .. } ==> forall|i: int|
            0 <= i < layers@.len() && (#[trigger] layers@[i]).offset is Some ==> layers@[i].offset->0 < texel_len
    }
}

impl CachedBlob {
    /// Texels of the glyph itself, without its border.
    pub open spec fn primary_len(self) -> int {
        match self.border {
            Some(border) => border.relative_offset as int,
            None => self.data@.len() as int / 2,
        }
    }

    /// The data is whole texels, the border, where there is one, is its end, and
    /// the layers of the glyph lie before it.
    pub open spec fn wf(self) -> bool {
        &&& self.data@.len() % 2 == 0
        &&& self.data@.len() / 2 <= u32::MAX
        &&& 4 * self.data@.len() <= usize::MAX
        &&& self.primary_len() > 0
        &&& self.kind.fits(self.primary_len())
        &&& self.border matches Some(border) ==> {
            &&& border.texel_len > 0
            &&& border.relative_offset + border.texel_len == self.data@.len() / 2
        }
    }
}

/// Bytes that a cached blob takes.
pub open spec fn blob_bytes(blob: CachedBlob) -> nat {
    4 * blob.data@.len()
}

/// Bytes that all the blobs of a map take.
pub open spec fn total_bytes(m: Map<u128, CachedBlob>) -> nat
    decreases m.dom().len(),
{
    if m.dom().finite() && m.dom().len() > 0 {
        let k = m.dom().choose();
        blob_bytes(m[k]) + total_bytes(m.remove(k))
    } else {
        0
    }
}

proof fn lemma_total_bytes_remove(m: Map<u128, CachedBlob>, k: u128)
    requires
        m.dom().finite(),
        m.contains_key(k),
    ensures
        total_bytes(m) == blob_bytes(m[k]) + total_bytes(m.remove(k)),
    decreases m.dom().len(),
{
    let c = m.dom().choose();
    assert(m.dom().contains(k));
    if c != k {
        let without_c = m.remove(c);
        let without_k = m.remove(k);
        lemma_total_bytes_remove(without_c, k);
        lemma_total_bytes_remove(without_k, c);
        assert(without_c.remove(k) =~= without_k.remove(c));
    }
}

proof fn lemma_total_bytes_insert(m: Map<u128, CachedBlob>, k: u128, v: CachedBlob)
    requires
        m.dom().finite(),
        !m.contains_key(k),
    ensures
        total_bytes(m.insert(k, v)) == blob_bytes(v) + total_bytes(m),
{
    lemma_total_bytes_remove(m.insert(k, v), k);
    assert(m.insert(k, v).remove(k) =~= m);
}

/// The map that a list of entries makes, later entries replacing earlier ones.
pub open spec fn map_of(items: Seq<(u128, CachedBlob)>) -> Map<u128, CachedBlob>
    decreases items.len(),
{
    if items.len() == 0 {
        Map::empty()
    } else {
        map_of(items.drop_last()).insert(items.last().0, items.last().1)
    }
}

/// Bytes that a list of blobs takes.
pub open spec fn listed_bytes(items: Seq<(u128, CachedBlob)>) -> nat
    decreases items.len(),
{
    if items.len() == 0 {
        0
    } else {
        listed_bytes(items.drop_last()) + blob_bytes(items.last().1)
    }
}

/// The map of a list without repeated keys holds exactly the list.
pub proof fn lemma_map_of(items: Seq<(u128, CachedBlob)>)
    requires
        forall|i: int, j: int| 0 <= i < j < items.len() ==> (#[trigger] items[i]).0 != (#[trigger] items[j]).0,
    ensures
        map_of(items).dom().finite(),
        total_bytes(map_of(items)) == listed_bytes(items),
        forall|k: u128| #[trigger]
            map_of(items).contains_key(k) ==> exists|i: int| 0 <= i < items.len() && (#[trigger] items[i]).0 == k,
        forall|i: int|
            0 <= i < items.len() ==> map_of(items).contains_key((#[trigger] items[i]).0) && map_of(items)[items[i].0]
                == items[i].1,
    decreases items.len(),
{
    if items.len() > 0 {
        let rest = items.drop_last();
        let last = items.last();
        assert forall|i: int, j: int| 0 <= i < j < rest.len() implies (#[trigger] rest[i]).0 != (#[trigger] rest[j]).0 by {
            assert(rest[i] == items[i] && rest[j] == items[j]);
        }
        lemma_map_of(rest);
        assert(!map_of(rest).contains_key(last.0)) by {
            if map_of(rest).contains_key(last.0) {
                let i = choose|i: int| 0 <= i < rest.len() && (#[trigger] rest[i]).0 == last.0;
                assert(items[i].0 == items[items.len() - 1].0);
            }
        }
        lemma_total_bytes_insert(map_of(rest), last.0, last.1);
        assert forall|k: u128| #[trigger] map_of(items).contains_key(k) implies exists|i: int|
            0 <= i < items.len() && (#[trigger] items[i]).0 == k by {
            if k == last.0 {
                assert(items[items.len() - 1].0 == k);
            } else {
                assert(map_of(rest).contains_key(k));
                let i = choose|i: int| 0 <= i < rest.len() && (#[trigger] rest[i]).0 == k;
                assert(items[i].0 == k);
            }
        }
        assert forall|i: int| 0 <= i < items.len() implies map_of(items).contains_key((#[trigger] items[i]).0)
            && map_of(items)[items[i].0] == items[i].1 by {
            if i < rest.len() {
                assert(rest[i] == items[i]);
                assert(items[i].0 != items[items.len() - 1].0);
            }
        }
    } else {
        assert(map_of(items).dom() =~= Set::<u128>::empty());
    }
}

/// A bounded collection of glyph data outside the atlas.
pub struct GlyphBlobCache {
    entries: FxHashMap<u128, CachedBlob>,
    bytes: usize,
    budget: usize,
    stats: BlobCacheStats,
}

impl View for GlyphBlobCache {
    type V = Map<u128, CachedBlob>;

    closed spec fn view(&self) -> Map<u128, CachedBlob> {
        self.entries@
    }
}

impl GlyphBlobCache {
    /// The byte count is that of the entries, which are finitely many, and within the
    /// budget.
    pub closed spec fn wf(self) -> bool {
        &&& self.entries@.dom().finite()
        &&& self.bytes == total_bytes(self.entries@)
        &&& self.stats.bytes == self.bytes
        &&& self.bytes <= self.budget
    }

    pub closed spec fn limit(self) -> usize {
        self.budget
    }

    pub closed spec fn counters(self) -> BlobCacheStats {
        self.stats
    }

    pub fn new(budget: usize) -> (r: GlyphBlobCache)
        ensures
            r.wf(),
            r@ == no_entries::<CachedBlob>(),
            r.limit() == budget,
            r.counters() == (BlobCacheStats {
                hits: 0,
                budget_evictions: 0,
                oversized_drops: 0,
                repopulated_bytes: 0,
                bytes: 0,
            }),
    {
        GlyphBlobCache { entries: map_new(), bytes: 0, budget, stats: BlobCacheStats::default() }
    }

    /// Takes a blob out.
    pub fn take(&mut self, id: u128) -> (r: Option<CachedBlob>)
        requires
            old(self).wf(),
        ensures
            final(self).wf(),
            final(self).limit() == old(self).limit(),
            final(self)@ == old(self)@.remove(id),
            r == (if old(self)@.contains_key(id) { Some(old(self)@[id]) } else { None }),
            r is None ==> final(self).counters() == old(self).counters(),
            r is Some ==> final(self).counters() == (BlobCacheStats {
                hits: count_up(old(self).counters().hits, 1),
                bytes: (old(self).counters().bytes - blob_bytes(r->0)) as usize,
                ..old(self).counters()
            }),
    {
        match map_remove(&mut self.entries, id) {
            None => {
                assert(self.entries@ =~= old(self).entries@);
                None
            },
            Some(entry) => {
                proof {
                    lemma_total_bytes_remove(old(self).entries@, id);
                }
                self.bytes = self.bytes - entry.data.len() * 4;
                self.stats.bytes = self.bytes;
                self.stats.hits = counted(self.stats.hits, 1);
                Some(entry)
            },
        }
    }

    /// Texels of a cached blob, unless they do not fit the atlas's offsets.
    pub fn texel_len(&self, id: u128) -> (r: Option<u32>)
        ensures
            r == (if self@.contains_key(id) && self@[id].data@.len() / 2 <= u32::MAX {
                Some((self@[id].data@.len() / 2) as u32)
            } else {
                None
            }),
    {
        match map_get(&self.entries, id) {
            Some(entry) => {
                let texels: usize = entry.data.len() / 2;
                if texels <= u32::MAX as usize {
                    Some(texels as u32)
                } else {
                    None
                }
            },
            None => None,
        }
    }

    /// Counts bytes that went back into the atlas.
    pub fn add_repopulated_bytes(&mut self, bytes: u64)
        requires
            old(self).wf(),
        ensures
            final(self).wf(),
            final(self)@ == old(self)@,
            final(self).limit() == old(self).limit(),
            final(self).counters() == (BlobCacheStats {
                repopulated_bytes: count_up(old(self).counters().repopulated_bytes, bytes),
                ..old(self).counters()
            }),
    {
        self.stats.repopulated_bytes = counted(self.stats.repopulated_bytes, bytes);
    }

    pub fn budget(&self) -> (r: usize)
        ensures
            r == self.limit(),
    {
        self.budget
    }

    /// Installs a pre-selected entry set (see [`select_within_budget`]).
    /// Counters accumulate.
    pub fn replace_entries(&mut self, entries: Vec<(u128, CachedBlob)>, budget_evictions: u64, oversized_drops: u64)
        requires
            old(self).wf(),
            forall|i: int, j: int|
                0 <= i < j < entries@.len() ==> (#[trigger] entries@[i]).0 != (#[trigger] entries@[j]).0,
            listed_bytes(entries@) <= old(self).limit(),
        ensures
            final(self).wf(),
            final(self)@ == map_of(entries@),
            final(self).limit() == old(self).limit(),
            final(self).counters() == (BlobCacheStats {
                bytes: listed_bytes(entries@) as usize,
                budget_evictions: count_up(old(self).counters().budget_evictions, budget_evictions),
                oversized_drops: count_up(old(self).counters().oversized_drops, oversized_drops),
                ..old(self).counters()
            }),
    {
        let ghost all = entries@;
        let mut rest: Vec<(u128, CachedBlob)> = reversed(entries);
        let mut map: FxHashMap<u128, CachedBlob> = map_new();
        let mut bytes: usize = 0;
        let n: usize = rest.len();
        let ghost mut i: int = 0;
        proof {
            assert(all.take(0) =~= Seq::<(u128, CachedBlob)>::empty());
            assert(rest@ =~= all.skip(0).reverse());
        }
        while rest.len() > 0
            invariant
                n == all.len(),
                0 <= i <= n,
                rest@ == all.skip(i).reverse(),
                map@ == map_of(all.take(i)),
                bytes == listed_bytes(all.take(i)),
                listed_bytes(all) <= self.budget,
            decreases rest.len(),
        {
            proof {
                lemma_listed_bytes_prefix(all, i + 1);
                assert(all.take(i + 1).drop_last() =~= all.take(i));
                assert(rest@.last() == all[i]);
                assert(rest@.drop_last() =~= all.skip(i + 1).reverse());
            }
            let (id, blob) = rest.pop().unwrap();
            bytes = bytes + blob.data.len() * 4;
            map_insert(&mut map, id, blob);
            proof {
                i = i + 1;
            }
        }
        proof {
            assert(all.take(i) =~= all);
            lemma_map_of(all);
        }
        self.entries = map;
        self.bytes = bytes;
        self.stats.bytes = bytes;
        self.stats.budget_evictions = counted(self.stats.budget_evictions, budget_evictions);
        self.stats.oversized_drops = counted(self.stats.oversized_drops, oversized_drops);
    }

    pub fn stats(&self) -> (r: BlobCacheStats)
        ensures
            r == self.counters(),
    {
        self.stats
    }

    /// Empties the cache and hands its entries out, in no particular order.
    pub fn drain(&mut self) -> (r: Vec<(u128, CachedBlob)>)
        requires
            old(self).wf(),
        ensures
            final(self).wf(),
            final(self)@ == no_entries::<CachedBlob>(),
            final(self).limit() == old(self).limit(),
            final(self).counters() == (BlobCacheStats { bytes: 0, ..old(self).counters() }),
            lists_map(old(self)@, r@),
    {
        self.bytes = 0;
        self.stats.bytes = 0;
        map_drain(&mut self.entries)
    }
}

/// The cache accounts for its bytes exactly: it reports four bytes per word of
/// every blob it holds, and never more than its budget.
pub proof fn law_bytes_are_those_of_the_entries(cache: GlyphBlobCache)
    requires
        cache.wf(),
    ensures
        cache@.dom().finite(),
        cache.counters().bytes == total_bytes(cache@),
        total_bytes(cache@) <= cache.limit(),
{
}

/// The bytes of a map add up blob by blob: each takes four bytes per word, and
/// without any there are none.
pub proof fn law_bytes_add_up(m: Map<u128, CachedBlob>, id: u128)
    requires
        m.dom().finite(),
    ensures
        m.contains_key(id) ==> total_bytes(m) == 4 * m[id].data@.len() + total_bytes(m.remove(id)),
        m.dom().len() == 0 ==> total_bytes(m) == 0,
{
    if m.contains_key(id) {
        lemma_total_bytes_remove(m, id);
    }
}

/// Taking a blob out gives its bytes back.
pub proof fn law_taking_returns_bytes(before: GlyphBlobCache, after: GlyphBlobCache, id: u128)
    requires
        before.wf(),
        after.wf(),
        before@.contains_key(id),
        after@ == before@.remove(id),
    ensures
        after.counters().bytes + 4 * before@[id].data@.len() == before.counters().bytes,
{
    lemma_total_bytes_remove(before.entries@, id);
}

proof fn lemma_listed_bytes_prefix(items: Seq<(u128, CachedBlob)>, n: int)
    requires
        0 <= n <= items.len(),
    ensures
        listed_bytes(items.take(n)) <= listed_bytes(items),
    decreases items.len() - n,
{
    if n < items.len() {
        lemma_listed_bytes_prefix(items, n + 1);
        assert(items.take(n + 1).drop_last() =~= items.take(n));
    } else {
        assert(items.take(n) =~= items);
    }
}

/// Sort keys that put the newest candidates first.
pub open spec fn newest_keys(candidates: Seq<(u64, usize)>) -> Seq<i128> {
    Seq::new(candidates.len(), |i: int| (-candidates[i].0) as i128)
}

/// `0..n` as indices.
pub open spec fn all_indices(n: nat) -> Seq<usize> {
    Seq::new(n, |i: int| i as usize)
}

/// The candidates from newest to oldest, equal ages in their given order.
pub open spec fn newest_first(candidates: Seq<(u64, usize)>) -> Seq<usize> {
    ordered(newest_keys(candidates), all_indices(candidates.len()))
}

/// How far a selection has come.
pub ghost struct Selection {
    pub picked: Seq<usize>,
    pub used: nat,
    pub evicted: nat,
    pub oversized: nat,
}

/// The selection after the first `n` candidates of `order`: a candidate is
/// kept when it fits beside what was kept before it, counted as oversized when
/// it could never fit, and evicted otherwise.
pub open spec fn selection(candidates: Seq<(u64, usize)>, order: Seq<usize>, budget: usize, n: nat) -> Selection
    decreases n,
{
    if n == 0 {
        Selection { picked: Seq::empty(), used: 0, evicted: 0, oversized: 0 }
    } else {
        let before = selection(candidates, order, budget, (n - 1) as nat);
        let i = order[n - 1];
        let bytes = candidates[i as int].1;
        if bytes > budget {
            Selection { oversized: before.oversized + 1, ..before }
        } else if before.used + bytes <= budget {
            Selection { picked: before.picked.push(i), used: before.used + bytes as nat, ..before }
        } else {
            Selection { evicted: before.evicted + 1, ..before }
        }
    }
}

/// The selection among all candidates, newest first.
pub open spec fn budget_selection(candidates: Seq<(u64, usize)>, budget: usize) -> Selection {
    selection(candidates, newest_first(candidates), budget, candidates.len())
}

proof fn lemma_selection_counts(candidates: Seq<(u64, usize)>, order: Seq<usize>, budget: usize, n: nat)
    ensures
        ({
            let s = selection(candidates, order, budget, n);
            &&& s.picked.len() + s.evicted + s.oversized == n
            &&& s.used <= budget
        }),
    decreases n,
{
    if n > 0 {
        lemma_selection_counts(candidates, order, budget, (n - 1) as nat);
    }
}

proof fn lemma_newest_first(candidates: Seq<(u64, usize)>)
    requires
        candidates.len() <= usize::MAX,
    ensures
        newest_first(candidates).len() == candidates.len(),
        forall|p: int| 0 <= p < candidates.len() ==> #[trigger] newest_first(candidates)[p] < candidates.len(),
        newest_first(candidates).no_duplicates(),
{
    let list = all_indices(candidates.len());
    let order = newest_first(candidates);
    lemma_ordered(newest_keys(candidates), list);
    assert forall|p: int| 0 <= p < candidates.len() implies #[trigger] order[p] < candidates.len() by {
        assert(list.contains(order[p]));
    }
    assert(list.no_duplicates());
    list.lemma_multiset_has_no_duplicates();
    order.lemma_multiset_has_no_duplicates_conv();
}

/// Newest-first budget selection over `(last_used_epoch, byte_len)`
/// candidates. Returns the selected candidate indices plus
/// (budget_evictions, oversized_drops) counts for the losers: under pressure
/// the newest candidates survive.
pub fn select_within_budget(candidates: &[(u64, usize)], budget: usize) -> (r: (Vec<usize>, u64, u64))
    ensures
        ({
            let s = budget_selection(candidates@, budget);
            &&& r.0@ == s.picked
            &&& r.1 == s.evicted
            &&& r.2 == s.oversized
        }),
{
    let n: usize = candidates.len();
    let mut keys: Vec<i128> = Vec::new();
    let mut list: Vec<usize> = Vec::new();
    let mut i: usize = 0;
    while i < n
        invariant
            i <= n,
            n == candidates.len(),
            keys.len() == i,
            list.len() == i,
            forall|j: int| 0 <= j < i ==> #[trigger] keys@[j] == -candidates@[j].0,
            forall|j: int| 0 <= j < i ==> #[trigger] list@[j] == j,
        decreases n - i,
    {
        keys.push(-(candidates[i].0 as i128));
        list.push(i);
        i = i + 1;
    }
    proof {
        assert(keys@ =~= newest_keys(candidates@));
        assert(list@ =~= all_indices(candidates@.len()));
        lemma_newest_first(candidates@);
    }
    let order: Vec<usize> = sort_by_key(&keys, &list);
    let mut selected: Vec<usize> = Vec::new();
    let mut used: usize = 0;
    let mut budget_evictions: u64 = 0;
    let mut oversized_drops: u64 = 0;
    let mut p: usize = 0;
    while p < n
        invariant
            p <= n,
            n == candidates.len(),
            order@ == newest_first(candidates@),
            order.len() == n,
            forall|j: int| 0 <= j < n ==> #[trigger] order@[j] < n,
            selected@ == selection(candidates@, order@, budget, p as nat).picked,
            used == selection(candidates@, order@, budget, p as nat).used,
            budget_evictions == selection(candidates@, order@, budget, p as nat).evicted,
            oversized_drops == selection(candidates@, order@, budget, p as nat).oversized,
            used <= budget,
        decreases n - p,
    {
        proof {
            lemma_selection_counts(candidates@, order@, budget, p as nat);
        }
        let c: usize = order[p];
        let bytes: usize = candidates[c].1;
        if bytes > budget {
            oversized_drops = oversized_drops + 1;
        } else if bytes <= budget - used {
            used = used + bytes;
            selected.push(c);
        } else {
            budget_evictions = budget_evictions + 1;
        }
        p = p + 1;
    }
    (selected, budget_evictions, oversized_drops)
}

/// Bytes of the candidates that a list of indices names.
pub open spec fn picked_bytes(candidates: Seq<(u64, usize)>, picked: Seq<usize>) -> nat
    decreases picked.len(),
{
    if picked.len() == 0 {
        0
    } else {
        picked_bytes(candidates, picked.drop_last()) + candidates[picked.last() as int].1 as nat
    }
}

proof fn lemma_selection_bytes(candidates: Seq<(u64, usize)>, order: Seq<usize>, budget: usize, n: nat)
    ensures
        ({
            let s = selection(candidates, order, budget, n);
            s.used == picked_bytes(candidates, s.picked)
        }),
    decreases n,
{
    if n > 0 {
        lemma_selection_bytes(candidates, order, budget, (n - 1) as nat);
        let before = selection(candidates, order, budget, (n - 1) as nat);
        let i = order[n - 1];
        assert(before.picked.push(i).drop_last() =~= before.picked);
    }
}

proof fn lemma_selection_picks(candidates: Seq<(u64, usize)>, order: Seq<usize>, budget: usize, n: nat)
    requires
        n <= order.len(),
        order.no_duplicates(),
    ensures
        ({
            let s = selection(candidates, order, budget, n);
            &&& s.picked.no_duplicates()
            &&& forall|i: int|
                0 <= i < s.picked.len() ==> exists|p: int| 0 <= p < n && #[trigger] order[p] == #[trigger] s.picked[i]
        }),
    decreases n,
{
    if n > 0 {
        lemma_selection_picks(candidates, order, budget, (n - 1) as nat);
        let before = selection(candidates, order, budget, (n - 1) as nat);
        let s = selection(candidates, order, budget, n);
        let c = order[n - 1];
        assert forall|i: int| 0 <= i < s.picked.len() implies exists|p: int|
            0 <= p < n && #[trigger] order[p] == #[trigger] s.picked[i] by {
            if i < before.picked.len() {
                assert(s.picked[i] == before.picked[i]);
                let p = choose|p: int| 0 <= p < n - 1 && #[trigger] order[p] == before.picked[i];
                assert(order[p] == s.picked[i]);
            } else {
                assert(order[n - 1] == s.picked[i]);
            }
        }
        assert(s.picked.no_duplicates()) by {
            if s.picked != before.picked {
                assert(!before.picked.contains(c)) by {
                    if before.picked.contains(c) {
                        let i = choose|i: int| 0 <= i < before.picked.len() && before.picked[i] == c;
                        let p = choose|p: int| 0 <= p < n - 1 && #[trigger] order[p] == before.picked[i];
                        assert(order[p] == order[n - 1]);
                    }
                }
            }
        }
    }
}

/// What is selected fits the budget, holds no candidate twice, and with the
/// two counts accounts for every candidate.
pub proof fn law_selection_accounts_for_all(candidates: Seq<(u64, usize)>, budget: usize)
    requires
        candidates.len() <= usize::MAX,
    ensures
        ({
            let s = budget_selection(candidates, budget);
            &&& picked_bytes(candidates, s.picked) <= budget
            &&& s.picked.no_duplicates()
            &&& forall|i: int| 0 <= i < s.picked.len() ==> #[trigger] s.picked[i] < candidates.len()
            &&& s.picked.len() + s.evicted + s.oversized == candidates.len()
        }),
{
    let order = newest_first(candidates);
    let n = candidates.len();
    lemma_newest_first(candidates);
    lemma_selection_counts(candidates, order, budget, n);
    lemma_selection_bytes(candidates, order, budget, n);
    lemma_selection_picks(candidates, order, budget, n);
    let s = budget_selection(candidates, budget);
    assert forall|i: int| 0 <= i < s.picked.len() implies #[trigger] s.picked[i] < candidates.len() by {
        let p = choose|p: int| 0 <= p < n && #[trigger] order[p] == s.picked[i];
        assert(order[p] < candidates.len());
    }
}

proof fn lemma_selection_keeps(candidates: Seq<(u64, usize)>, order: Seq<usize>, budget: usize, m: nat, n: nat, c: usize)
    requires
        m <= n <= order.len(),
        order.no_duplicates(),
    ensures
        selection(candidates, order, budget, m).picked.contains(c) ==> selection(
            candidates,
            order,
            budget,
            n,
        ).picked.contains(c),
        forall|p: int| 0 <= p < m && order[p] == c ==> (selection(candidates, order, budget, m).picked.contains(c)
            == #[trigger] selection(candidates, order, budget, n).picked.contains(order[p])),
    decreases n - m,
{
    if m < n {
        lemma_selection_keeps(candidates, order, budget, m, (n - 1) as nat, c);
        let before = selection(candidates, order, budget, (n - 1) as nat).picked;
        let after = selection(candidates, order, budget, n).picked;
        if before.contains(c) {
            let i = choose|i: int| 0 <= i < before.len() && before[i] == c;
            assert(after[i] == c);
        }
        assert forall|p: int| 0 <= p < m && order[p] == c implies (selection(candidates, order, budget, m).picked.contains(
            c,
        ) == #[trigger] selection(candidates, order, budget, n).picked.contains(order[p])) by {
            assert(order[p] != order[n - 1]);
            assert(before.contains(order[p]) == selection(candidates, order, budget, m).picked.contains(c));
            if after.contains(c) && !before.contains(c) {
                let i = choose|i: int| 0 <= i < after.len() && after[i] == c;
                if i < before.len() {
                    assert(before[i] == c);
                }
            }
        }
    }
}

/// The newest survive: whether a candidate is kept depends on the candidates
/// that come before it, newest first, and on those alone. It is kept exactly
/// when it fits into what they leave of the budget.
pub proof fn law_newest_survive(candidates: Seq<(u64, usize)>, budget: usize, p: int)
    requires
        candidates.len() <= usize::MAX,
        0 <= p < candidates.len(),
    ensures
        ({
            let order = newest_first(candidates);
            let newer = selection(candidates, order, budget, p as nat);
            &&& budget_selection(candidates, budget).picked.contains(order[p]) <==> newer.used + candidates[order[p] as int].1
                <= budget
            &&& forall|q: int|
                0 <= q < p ==> candidates[#[trigger] order[q] as int].0 >= candidates[order[p] as int].0
        }),
{
    let order = newest_first(candidates);
    let n = candidates.len();
    let c = order[p];
    lemma_newest_first(candidates);
    lemma_ordered(newest_keys(candidates), all_indices(n));
    lemma_selection_keeps(candidates, order, budget, (p + 1) as nat, n, c);
    lemma_selection_picks(candidates, order, budget, p as nat);
    let newer = selection(candidates, order, budget, p as nat);
    let with = selection(candidates, order, budget, (p + 1) as nat);
    assert(!newer.picked.contains(c)) by {
        if newer.picked.contains(c) {
            let i = choose|i: int| 0 <= i < newer.picked.len() && newer.picked[i] == c;
            let q = choose|q: int| 0 <= q < p && #[trigger] order[q] == newer.picked[i];
            assert(order[q] == order[p]);
        }
    }
    if newer.used + candidates[c as int].1 <= budget {
        assert(with.picked == newer.picked.push(c));
        assert(with.picked[newer.picked.len() as int] == c);
    } else {
        assert(with.picked == newer.picked);
    }
    assert(budget_selection(candidates, budget).picked.contains(order[p]) == with.picked.contains(c));
}

/// The byte count of a selection is that of its picks.
pub proof fn lemma_budget_bytes(candidates: Seq<(u64, usize)>, budget: usize)
    ensures
        ({
            let s = budget_selection(candidates, budget);
            s.used == picked_bytes(candidates, s.picked) && s.used <= budget
        }),
{
    lemma_selection_bytes(candidates, newest_first(candidates), budget, candidates.len());
    lemma_selection_counts(candidates, newest_first(candidates), budget, candidates.len());
}

/// Picks are candidates.
pub proof fn lemma_selection_in_range(candidates: Seq<(u64, usize)>, budget: usize, j: int)
    requires
        0 <= j < budget_selection(candidates, budget).picked.len(),
        candidates.len() <= usize::MAX,
    ensures
        0 <= budget_selection(candidates, budget).picked[j] < candidates.len(),
{
    law_selection_accounts_for_all(candidates, budget);
}

}
