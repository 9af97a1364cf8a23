//! The glyph atlas: which glyph data is in the GPU buffer, and where.
//!
//! The atlas is the CPU side of one storage buffer. Data is appended in texels
//! of two 32-bit words; [`TextAtlas::flush_uploads`] says what has to reach the
//! GPU, and [`TextAtlas::trim`] compacts the buffer once it has grown well
//! beyond what the current frames use.
use vstd::prelude::*;
use rustc_hash::FxHashMap;
use crate::blob_cache::{BlobCacheStats, BlobKind, CachedBlob, CachedColorLayer, GlyphBlobCache, ResidentBlob};
use crate::float32::{F32, doubled_until};
use crate::fx::{map_get, map_new, no_entries};
use crate::glyph_cache::{
    COLOR_V1_VECTOR_OFFSET, COLOR_VECTOR_OFFSET, ColorGlyphEntry, ColorGlyphLayer, ColorV1GlyphEntry, GlyphEntry,
    GlyphKey, GlyphMap, NON_VECTOR_OFFSET, marker,
};
use crate::packing::{pack_i16_pair, pair_word, wrap16, wrap32, wrap_i16, wrap_i32};
use crate::prep::PrepScratch;
use crate::types::PrepareError;

pub mod border_blob;
pub mod commit;
pub mod compaction;
pub mod grounded;
pub mod laws;
pub mod layers;
pub mod readback;

verus! {

/// Initial buffer capacity in packed texels (8 bytes each).
pub const INITIAL_BUFFER_CAPACITY: u32 = 131_072;

/// A grown atlas is eligible for trimming once it reaches this multiple of its
/// initial allocation.
pub const TRIM_GROWTH_FACTOR: u32 = 4;

/// Texels of a glyph header.
pub const GLYPH_HEADER_TEXELS: u32 = 5;

/// Bytes of glyph data kept outside the atlas.
pub const BLOB_CACHE_BUDGET: usize = 4_194_304;

/// Bytes per texel in the packed layout.
pub const BYTES_PER_TEXEL: u64 = 8;

/// The smallest power of two that is at least `x`.
pub open spec fn next_power_of_two(x: int) -> int {
    doubled_until(1, x)
}

pub open spec fn min_int(a: int, b: int) -> int {
    if a < b { a } else { b }
}

pub open spec fn max_int(a: int, b: int) -> int {
    if a > b { a } else { b }
}

/// The allocation for `required` texels: the next power of two, never less than
/// the current allocation nor more than the device allows.
pub open spec fn planned_capacity(current: int, required: int, max: int) -> int {
    min_int(max_int(current, min_int(next_power_of_two(required), max)), max)
}

/// Choose a single allocation that can hold `required_capacity` texels.
pub fn planned_buffer_capacity(current_capacity: u32, required_capacity: u32, max_capacity: u32) -> (r: Result<
    u32,
    PrepareError,
>)
    ensures
        required_capacity > max_capacity <==> r == Err::<u32, PrepareError>(PrepareError::AtlasFull),
        required_capacity <= max_capacity ==> r == Ok::<u32, PrepareError>(
            planned_capacity(current_capacity as int, required_capacity as int, max_capacity as int) as u32,
        ),
{
    if required_capacity > max_capacity {
        return Err(PrepareError::AtlasFull);
    }
    let mut power: u64 = 1;
    while power < required_capacity as u64
        invariant
            1 <= power <= 0x2_0000_0000,
            doubled_until(power as int, required_capacity as int) == next_power_of_two(required_capacity as int),
        decreases 0x2_0000_0000 - power,
    {
        power = power * 2;
    }
    let rounded: u32 = if power < max_capacity as u64 { power as u32 } else { max_capacity };
    let kept: u32 = if current_capacity > rounded { current_capacity } else { rounded };
    Ok(if kept < max_capacity { kept } else { max_capacity })
}

/// The texel after an appended blob, if the atlas may grow that far.
pub fn checked_buffer_end(cursor: u32, blob_size: u32, max_capacity: u32) -> (r: Result<u32, PrepareError>)
    ensures
        cursor + blob_size > max_capacity <==> r == Err::<u32, PrepareError>(PrepareError::AtlasFull),
        cursor + blob_size <= max_capacity <==> r == Ok::<u32, PrepareError>((cursor + blob_size) as u32),
{
    if blob_size > u32::MAX - cursor {
        return Err(PrepareError::AtlasFull);
    }
    let end: u32 = cursor + blob_size;
    if end > max_capacity {
        return Err(PrepareError::AtlasFull);
    }
    Ok(end)
}

/// Texels that a device allows in one storage buffer: the smaller of its two
/// byte limits, counted in texels.
pub fn max_buffer_capacity(max_storage_buffer_binding_size: u64, max_buffer_size: u64) -> (r: u32)
    ensures
        r == min_int(
            min_int(max_storage_buffer_binding_size as int, max_buffer_size as int) / 8,
            u32::MAX as int,
        ),
{
    let max_bytes: u64 = if max_storage_buffer_binding_size < max_buffer_size {
        max_storage_buffer_binding_size
    } else {
        max_buffer_size
    };
    let max_texels: u64 = max_bytes / BYTES_PER_TEXEL;
    if max_texels < u32::MAX as u64 {
        max_texels as u32
    } else {
        u32::MAX
    }
}

proof fn lemma_doubled_until(p: int, x: int)
    requires
        p > 0,
    ensures
        doubled_until(p, x) >= x,
        doubled_until(p, x) >= p,
        doubled_until(p, x) == p || doubled_until(p, x) < 2 * x,
    decreases (if p < x { x - p } else { 0 }),
{
    if p < x {
        lemma_doubled_until(2 * p, x);
    }
}

/// A planned allocation holds what was asked for, does not shrink below the
/// current one, stays within the device's limit, and overshoots the need by
/// less than a factor of two unless the current allocation already did.
pub proof fn law_plan_holds_what_is_required(current: u32, required: u32, max: u32)
    requires
        required <= max,
    ensures
        ({
            let plan = planned_capacity(current as int, required as int, max as int);
            &&& required <= plan <= max
            &&& current <= max ==> plan >= current
            &&& plan <= current || plan == 1 || plan < 2 * required
        }),
{
    lemma_doubled_until(1, required as int);
}

/// A larger need never gets a smaller allocation.
pub proof fn law_plan_is_monotone(current: u32, small: u32, large: u32, max: u32)
    requires
        small <= large <= max,
    ensures
        planned_capacity(current as int, small as int, max as int) <= planned_capacity(
            current as int,
            large as int,
            max as int,
        ),
{
    lemma_doubled_monotone(1, small as int, large as int);
}

proof fn lemma_doubled_monotone(p: int, x: int, y: int)
    requires
        p > 0,
        x <= y,
    ensures
        doubled_until(p, x) <= doubled_until(p, y),
    decreases (if p < y { y - p } else { 0 }),
{
    if p < y {
        lemma_doubled_monotone(2 * p, x, y);
        lemma_doubled_until(2 * p, y);
    }
}

/// Determine the band count for a glyph based on its curve complexity: one per
/// curve, up to 16.
pub fn band_count_for_curves(num_curves: usize) -> (r: u32)
    ensures
        r == band_count(num_curves as int),
{
    if num_curves < 1 {
        1
    } else if num_curves > 16 {
        16
    } else {
        num_curves as u32
    }
}

pub open spec fn band_count(num_curves: int) -> u32 {
    (if num_curves < 1 {
        1int
    } else if num_curves > 16 {
        16
    } else {
        num_curves
    }) as u32
}

/// A 32-bit pattern as the signed word that the buffer holds.
pub open spec fn bits_word(bits: u32) -> i32 {
    wrap32(bits as int) as i32
}

pub(crate) fn to_word(bits: u32) -> (r: i32)
    ensures
        r == bits_word(bits),
{
    wrap_i32(bits as i64)
}

/// The words of a glyph header.
pub open spec fn header_words(bounds: Seq<F32>, band_transform: Seq<F32>, band_max_x: u32, band_max_y: u32) -> Seq<
    i32,
> {
    seq![
        bits_word(bounds[0].bits),
        bits_word(bounds[1].bits),
        bits_word(bounds[2].bits),
        bits_word(bounds[3].bits),
        bits_word(band_transform[0].bits),
        bits_word(band_transform[1].bits),
        bits_word(band_transform[2].bits),
        bits_word(band_transform[3].bits),
        pair_word(wrap16(band_max_x as int) as i16, wrap16(band_max_y as int) as i16),
        0i32,
    ]
}

/// Encode a universal 5-texel glyph header. Float values retain their exact
/// bits because the vertex shader reads these raw words and bitcasts them.
pub fn encode_glyph_header(bounds: [F32; 4], band_transform: [F32; 4], band_max_x: u32, band_max_y: u32) -> (r: [i32; 10])
    ensures
        r@ == header_words(bounds@, band_transform@, band_max_x, band_max_y),
{
    let words: [i32; 10] = [
        to_word(bounds[0].bits),
        to_word(bounds[1].bits),
        to_word(bounds[2].bits),
        to_word(bounds[3].bits),
        to_word(band_transform[0].bits),
        to_word(band_transform[1].bits),
        to_word(band_transform[2].bits),
        to_word(band_transform[3].bits),
        pack_i16_pair(wrap_i16(band_max_x as i64), wrap_i16(band_max_y as i64)),
        0,
    ];
    assert(words@ =~= header_words(bounds@, band_transform@, band_max_x, band_max_y));
    words
}

fn append_header(out: &mut Vec<i32>, bounds: [F32; 4], band_transform: [F32; 4], band_max_x: u32, band_max_y: u32)
    ensures
        final(out)@ == old(out)@ + header_words(bounds@, band_transform@, band_max_x, band_max_y),
{
    let ghost before = out@;
    let words: [i32; 10] = encode_glyph_header(bounds, band_transform, band_max_x, band_max_y);
    let mut i: usize = 0;
    assert(before + words@.take(0) =~= before);
    while i < 10
        invariant
            i <= 10,
            out@ == before + words@.take(i as int),
        decreases 10 - i,
    {
        out.push(words[i]);
        assert(out@ =~= before + words@.take(i + 1));
        i = i + 1;
    }
    assert(words@.take(10) =~= words@);
}

/// The float bits of a header survive: reading a word back gives the pattern.
pub proof fn law_header_words_keep_patterns(bits: u32)
    ensures
        bits_word(bits) as int % 0x1_0000_0000 == bits,
{
}

/// The mathematical content of an atlas.
pub ghost struct AtlasState {
    pub id: u64,
    /// Texels of the first allocation.
    pub initial: u32,
    /// Texels that the device allows.
    pub max: u32,
    /// Texels of the current allocation.
    pub capacity: u32,
    /// Texels in use.
    pub cursor: u32,
    /// The buffer's words, two per texel in use.
    pub words: Seq<i32>,
    /// Texels that the GPU already has.
    pub flushed: u32,
    pub glyphs: Map<u128, GlyphEntry>,
    pub frame: u64,
    pub layers: Map<u128, ColorGlyphEntry>,
    pub commands: Map<u128, ColorV1GlyphEntry>,
    pub residents: Map<u128, ResidentBlob>,
    /// Superseded border spans, immutable until the next compaction.
    pub reclaimable: Seq<(u32, u32)>,
    pub cached: Map<u128, CachedBlob>,
    pub counters: BlobCacheStats,
    pub budget: usize,
    pub generation: u32,
}

/// An atlas containing cached glyph curve and band data for GPU rendering.
pub struct TextAtlas {
    id: u64,
    initial_buffer_capacity: u32,
    max_buffer_capacity: u32,
    buffer_capacity: u32,
    buffer_cursor: u32,
    buffer_data: Vec<i32>,
    gpu_flush_cursor: u32,
    glyphs: GlyphMap,
    color_glyphs: FxHashMap<u128, ColorGlyphEntry>,
    color_v1_glyphs: FxHashMap<u128, ColorV1GlyphEntry>,
    resident_blobs: FxHashMap<u128, ResidentBlob>,
    reclaimable_border_spans: Vec<(u32, u32)>,
    blob_cache: GlyphBlobCache,
    generation: u32,
    prep_scratch: PrepScratch,
}

impl View for TextAtlas {
    type V = AtlasState;

    closed spec fn view(&self) -> AtlasState {
        AtlasState {
            id: self.id,
            initial: self.initial_buffer_capacity,
            max: self.max_buffer_capacity,
            capacity: self.buffer_capacity,
            cursor: self.buffer_cursor,
            words: self.buffer_data@,
            flushed: self.gpu_flush_cursor,
            glyphs: self.glyphs@,
            frame: self.glyphs.frame(),
            layers: self.color_glyphs@,
            commands: self.color_v1_glyphs@,
            residents: self.resident_blobs@,
            reclaimable: self.reclaimable_border_spans@,
            cached: self.blob_cache@,
            counters: self.blob_cache.counters(),
            budget: self.blob_cache.limit(),
            generation: self.generation,
        }
    }
}

/// Two spans of texels share none.
pub open spec fn spans_apart(a: int, a_len: int, b: int, b_len: int) -> bool {
    a + a_len <= b || b + b_len <= a
}

impl ResidentBlob {
    /// The blob and its border lie within the first `cursor` texels, apart from
    /// each other.
    pub open spec fn inside(self, cursor: int) -> bool {
        &&& self.texel_len > 0
        &&& self.start_texel + self.texel_len <= cursor
        &&& self.kind.fits(self.texel_len as int)
        &&& self.border matches Some(b) ==> {
            &&& b.texel_len > 0
            &&& b.start_texel + b.texel_len <= cursor
            &&& spans_apart(
                self.start_texel as int,
                self.texel_len as int,
                b.start_texel as int,
                b.texel_len as int,
            )
        }
    }

    /// A span shares no texel with the blob or its border.
    pub open spec fn clear_of(self, start: int, len: int) -> bool {
        &&& spans_apart(self.start_texel as int, self.texel_len as int, start, len)
        &&& self.border matches Some(b) ==> spans_apart(b.start_texel as int, b.texel_len as int, start, len)
    }

    /// Two blobs and their borders share no texel.
    pub open spec fn apart(self, other: ResidentBlob) -> bool {
        &&& self.clear_of(other.start_texel as int, other.texel_len as int)
        &&& other.border matches Some(b) ==> self.clear_of(b.start_texel as int, b.texel_len as int)
    }

    /// Texels of the blob and its border together.
    pub open spec fn total_len(self) -> int {
        self.texel_len + (match self.border {
            Some(b) => b.texel_len as int,
            None => 0,
        })
    }
}

/// An installed layer shows the data that a cached layer describes.
pub open spec fn layer_installed(installed: ColorGlyphLayer, layer: CachedColorLayer, start: int, units_per_em: F32) -> bool {
    &&& installed.color == layer.color
    &&& installed.use_foreground == layer.use_foreground
    &&& match layer.offset {
        None => marker(installed.entry, NON_VECTOR_OFFSET),
        Some(offset) => installed.entry == (GlyphEntry {
            glyph_offset: (start + offset) as u32,
            bounds: layer.bounds,
            units_per_em,
            last_used_epoch: 0,
        }),
    }
}

pub open spec fn layers_installed(entry: ColorGlyphEntry, layers: Seq<CachedColorLayer>, start: int, units_per_em: F32) -> bool {
    &&& entry.units_per_em == units_per_em
    &&& entry.layers@.len() == layers.len()
    &&& forall|i: int|
        0 <= i < layers.len() ==> layer_installed(#[trigger] entry.layers@[i], layers[i], start, units_per_em)
}

impl AtlasState {
    /// The entries of a resident glyph address its data.
    pub open spec fn installed(self, id: u128) -> bool {
        let r = self.residents[id];
        let start = r.start_texel;
        &&& self.glyphs.contains_key(id)
        &&& match r.kind {
            BlobKind::Mono { bounds, units_per_em } => {
                &&& self.glyphs[id].glyph_offset == start
                &&& self.glyphs[id].bounds == bounds
                &&& self.glyphs[id].units_per_em == units_per_em
            },
            BlobKind::ColorV0 { units_per_em, layers } => {
                &&& self.glyphs[id].glyph_offset == COLOR_VECTOR_OFFSET
                &&& self.layers.contains_key(id)
                &&& layers_installed(self.layers[id], layers@, start as int, units_per_em)
            },
            BlobKind::ColorV1 { bounds, units_per_em, cmd_texel_count } => {
                &&& self.glyphs[id].glyph_offset == COLOR_V1_VECTOR_OFFSET
                &&& self.commands.contains_key(id)
                &&& self.commands[id] == (ColorV1GlyphEntry {
                    glyph_offset: start,
                    cmd_texel_count,
                    bounds,
                    units_per_em,
                })
            },
        }
    }

    /// The buffer is as long as its cursor says and within its limits.
    pub open spec fn buffer_wf(self) -> bool {
        &&& 1 <= self.initial <= self.capacity <= self.max
        &&& 8 * self.max <= usize::MAX
        &&& self.words.len() == 2 * self.cursor
        &&& self.cursor <= self.max
        &&& self.flushed <= self.cursor
    }

    /// Resident data lies inside the buffer, no two glyphs share a texel, and
    /// every resident glyph's entries address its data.
    pub open spec fn residents_wf(self) -> bool {
        &&& self.residents.dom().finite()
        &&& forall|id: u128| #[trigger] self.residents.contains_key(id) ==> self.residents[id].inside(self.cursor as int)
        &&& forall|a: u128, b: u128|
            #![trigger self.residents.contains_key(a), self.residents.contains_key(b)]
            self.residents.contains_key(a) && self.residents.contains_key(b) && a != b ==> self.residents[a].apart(
                self.residents[b],
            )
        &&& forall|id: u128| #[trigger] self.residents.contains_key(id) ==> self.installed(id)
    }

    /// Data outside the atlas belongs to glyphs that are not known, and is well
    /// formed.
    pub open spec fn cached_wf(self) -> bool {
        forall|id: u128| #[trigger] self.cached.contains_key(id) ==> self.cached[id].wf() && !self.glyphs.contains_key(id)
    }

    pub open spec fn wf(self) -> bool {
        &&& self.buffer_wf()
        &&& self.residents_wf()
        &&& self.cached_wf()
    }

    /// The glyph was used in the current frame.
    pub open spec fn live(self, id: u128) -> bool {
        self.glyphs.contains_key(id) && self.glyphs[id].last_used_epoch == self.frame
    }

    /// The words of a span of texels.
    pub open spec fn span(self, start: int, len: int) -> Seq<i32> {
        self.words.subrange(2 * start, 2 * (start + len))
    }
}

impl TextAtlas {
    pub closed spec fn wf(self) -> bool {
        &&& self@.wf()
        &&& self.glyphs.wf()
        &&& self.blob_cache.wf()
    }

    /// An empty atlas with a caller-selected initial capacity, brought into what
    /// the device allows. The id tells atlases apart.
    pub fn with_initial_buffer_capacity(id: u64, initial_buffer_capacity: u32, max_buffer_capacity: u32) -> (r: TextAtlas)
        requires
            max_buffer_capacity >= 1,
            8 * max_buffer_capacity <= usize::MAX,
        ensures
            r.wf(),
            r@.id == id,
            r@.max == max_buffer_capacity,
            r@.initial == (if initial_buffer_capacity < 1 {
                1
            } else if initial_buffer_capacity > max_buffer_capacity {
                max_buffer_capacity
            } else {
                initial_buffer_capacity
            }),
            r@.capacity == r@.initial,
            r@.cursor == 0,
            r@.flushed == 0,
            r@.words == Seq::<i32>::empty(),
            r@.glyphs == no_entries::<GlyphEntry>(),
            r@.layers == no_entries::<ColorGlyphEntry>(),
            r@.commands == no_entries::<ColorV1GlyphEntry>(),
            r@.residents == no_entries::<ResidentBlob>(),
            r@.cached == no_entries::<CachedBlob>(),
            r@.reclaimable == Seq::<(u32, u32)>::empty(),
            r@.budget == BLOB_CACHE_BUDGET,
            r@.generation == 0,
            r@.frame == 1,
            r@.counters == (BlobCacheStats {
                hits: 0,
                budget_evictions: 0,
                oversized_drops: 0,
                repopulated_bytes: 0,
                bytes: 0,
            }),
    {
        let initial: u32 = if initial_buffer_capacity < 1 {
            1
        } else if initial_buffer_capacity > max_buffer_capacity {
            max_buffer_capacity
        } else {
            initial_buffer_capacity
        };
        let r = TextAtlas {
            id,
            initial_buffer_capacity: initial,
            max_buffer_capacity,
            buffer_capacity: initial,
            buffer_cursor: 0,
            buffer_data: Vec::new(),
            gpu_flush_cursor: 0,
            glyphs: GlyphMap::new(),
            color_glyphs: map_new(),
            color_v1_glyphs: map_new(),
            resident_blobs: map_new(),
            reclaimable_border_spans: Vec::new(),
            blob_cache: GlyphBlobCache::new(BLOB_CACHE_BUDGET),
            generation: 0,
            prep_scratch: PrepScratch::default(),
        };
        assert(r@.words =~= Seq::<i32>::empty());
        assert(r@.reclaimable =~= Seq::<(u32, u32)>::empty());
        r
    }

    /// An empty atlas of the default initial capacity.
    pub fn new(id: u64, max_buffer_capacity: u32) -> (r: TextAtlas)
        requires
            max_buffer_capacity >= 1,
            8 * max_buffer_capacity <= usize::MAX,
        ensures
            r.wf(),
            r@.id == id,
            r@.max == max_buffer_capacity,
            r@.initial == min_int(INITIAL_BUFFER_CAPACITY as int, max_buffer_capacity as int),
            r@.capacity == r@.initial,
            r@.cursor == 0,
            r@.flushed == 0,
            r@.words == Seq::<i32>::empty(),
            r@.glyphs == no_entries::<GlyphEntry>(),
            r@.layers == no_entries::<ColorGlyphEntry>(),
            r@.commands == no_entries::<ColorV1GlyphEntry>(),
            r@.residents == no_entries::<ResidentBlob>(),
            r@.cached == no_entries::<CachedBlob>(),
            r@.reclaimable == Seq::<(u32, u32)>::empty(),
            r@.budget == BLOB_CACHE_BUDGET,
            r@.generation == 0,
            r@.frame == 1,
            r@.counters == (BlobCacheStats {
                hits: 0,
                budget_evictions: 0,
                oversized_drops: 0,
                repopulated_bytes: 0,
                bytes: 0,
            }),
    {
        TextAtlas::with_initial_buffer_capacity(id, INITIAL_BUFFER_CAPACITY, max_buffer_capacity)
    }

    /// Number of cached glyph entries (including non-vector sentinels).
    pub fn glyph_count(&self) -> (r: usize)
        ensures
            r == self@.glyphs.len(),
    {
        self.glyphs.len()
    }

    /// Read-only access to the glyph cache, for querying non-vector classification.
    pub fn glyph_map(&self) -> (r: &GlyphMap)
        ensures
            r@ == self@.glyphs,
            r.frame() == self@.frame,
    {
        &self.glyphs
    }

    /// Current atlas generation; it changes when glyph data moves.
    pub fn generation(&self) -> (r: u32)
        ensures
            r == self@.generation,
    {
        self.generation
    }

    pub fn id(&self) -> (r: u64)
        ensures
            r == self@.id,
    {
        self.id
    }

    /// Texels in use.
    pub fn buffer_elements_used(&self) -> (r: u32)
        ensures
            r == self@.cursor,
    {
        self.buffer_cursor
    }

    /// Texels of the current allocation.
    pub fn buffer_capacity(&self) -> (r: u32)
        ensures
            r == self@.capacity,
    {
        self.buffer_capacity
    }

    /// The words of the buffer.
    pub fn buffer_words(&self) -> (r: &Vec<i32>)
        ensures
            r@ == self@.words,
    {
        &self.buffer_data
    }

    pub fn blob_cache_stats(&self) -> (r: BlobCacheStats)
        ensures
            r == self@.counters,
    {
        self.blob_cache.stats()
    }

    /// Looks a glyph up without marking it used.
    pub fn glyph(&self, key: &GlyphKey) -> (r: Option<GlyphEntry>)
        ensures
            r == (if self@.glyphs.contains_key(key.id()) { Some(self@.glyphs[key.id()]) } else { None }),
    {
        self.glyphs.get(key)
    }

    /// Looks a glyph up and marks it used in the current frame.
    pub fn glyph_mark_used(&mut self, key: &GlyphKey) -> (r: Option<GlyphEntry>)
        requires
            old(self).wf(),
        ensures
            final(self).wf(),
            !old(self)@.glyphs.contains_key(key.id()) ==> r is None && final(self)@ == old(self)@,
            old(self)@.glyphs.contains_key(key.id()) ==> {
                let used = old(self)@.glyphs[key.id()].used_in(old(self)@.frame);
                &&& r == Some(used)
                &&& final(self)@ == (AtlasState { glyphs: old(self)@.glyphs.insert(key.id(), used), ..old(self)@ })
            },
    {
        let ghost before = self@;
        let r = self.glyphs.get_and_mark_used(key);
        proof {
            let id = key.id();
            if before.glyphs.contains_key(id) {
                let after = self@;
                assert forall|k: u128| #[trigger] after.residents.contains_key(k) implies after.installed(k) by {
                    assert(before.residents.contains_key(k));
                    assert(before.installed(k));
                }
                assert(after.residents_wf());
            }
        }
        r
    }

    /// Where a glyph's border descriptor is, if it has one.
    pub fn border_descriptor(&self, key: &GlyphKey) -> (r: Option<u32>)
        ensures
            r == border_start(self@, key.id()),
    {
        match map_get(&self.resident_blobs, key.packed()) {
            Some(blob) => match &blob.border {
                Some(border) => Some(border.start_texel),
                None => None,
            },
            None => None,
        }
    }

    /// The installed layers of a color glyph.
    pub fn color_glyph(&self, key: &GlyphKey) -> (r: Option<&ColorGlyphEntry>)
        ensures
            r == (if self@.layers.contains_key(key.id()) { Some(&self@.layers[key.id()]) } else { None }),
    {
        map_get(&self.color_glyphs, key.packed())
    }

    /// The installed command sequence of a color glyph.
    pub fn color_v1_glyph(&self, key: &GlyphKey) -> (r: Option<&ColorV1GlyphEntry>)
        ensures
            r == (if self@.commands.contains_key(key.id()) { Some(&self@.commands[key.id()]) } else { None }),
    {
        map_get(&self.color_v1_glyphs, key.packed())
    }
}

/// Where a glyph's border descriptor is.
pub open spec fn border_start(state: AtlasState, id: u128) -> Option<u32> {
    if state.residents.contains_key(id) {
        match state.residents[id].border {
            Some(border) => Some(border.start_texel),
            None => None,
        }
    } else {
        None
    }
}

}
