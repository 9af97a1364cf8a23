//! Appending glyph data to the atlas.
use vstd::prelude::*;
use crate::blob_cache::{
    BlobCacheStats, BlobKind, CachedBlob, CachedColorLayer, ResidentBlob, ResidentBorderBlob, count_up,
};
use crate::float32::{F32, MAX_BITS, MIN_BITS, f_max, f_min};
use crate::fx::map_insert;
use crate::glyph_cache::{
    COLOR_V1_VECTOR_OFFSET, COLOR_VECTOR_OFFSET, ColorGlyphEntry, ColorGlyphLayer, ColorV1GlyphEntry, GlyphEntry,
    GlyphKey, NON_VECTOR_OFFSET, marker,
};
use crate::lists::append_words;
use crate::outline::{CMD_DRAW_GRADIENT, CMD_DRAW_SOLID, ColorLayer, ColorV1Data, GlyphOutline, GlyphSource};
use crate::packing::{pack_i16_pair, pair_word};
use crate::prep::{PreparedMono, counters_fit, outline_transform, outline_words, prepare_mono};
use crate::text_atlas::{
    AtlasState, BYTES_PER_TEXEL, GLYPH_HEADER_TEXELS, TextAtlas, append_header, band_count, band_count_for_curves,
    bits_word, checked_buffer_end, header_words, layer_installed, layers_installed, to_word,
};
use crate::types::PrepareError;

verus! {

/// The largest blob whose offsets fit 16 bits.
pub const MAX_BLOB_TEXELS: u32 = 65535;

/// One less, and nothing from nothing.
pub open spec fn less_one(x: u32) -> u32 {
    if x == 0 { 0 } else { (x - 1) as u32 }
}

fn one_less(x: u32) -> (r: u32)
    ensures
        r == less_one(x),
{
    if x == 0 {
        0
    } else {
        x - 1
    }
}

/// The words that a prepared glyph takes in the atlas.
pub open spec fn mono_words(p: PreparedMono) -> Seq<i32> {
    header_words(p.bounds@, p.band_transform@, less_one(p.band_count_x), less_one(p.band_count_y)) + p.blob_data@
}

/// A layer of a color glyph with its prepared data.
pub struct PreparedLayer {
    pub prepared: Option<PreparedMono>,
    pub color: [F32; 4],
    pub use_foreground: bool,
}

/// What a color glyph's layer shows: the words and bounds of its data, if it
/// has any, and its color.
pub ghost struct LayerModel {
    pub data: Option<(Seq<i32>, [F32; 4])>,
    pub color: [F32; 4],
    pub use_foreground: bool,
}

impl View for PreparedLayer {
    type V = LayerModel;

    open spec fn view(&self) -> LayerModel {
        LayerModel {
            data: match self.prepared {
                Some(p) => Some((mono_words(p), p.bounds)),
                None => None,
            },
            color: self.color,
            use_foreground: self.use_foreground,
        }
    }
}

pub open spec fn layer_models(layers: Seq<PreparedLayer>) -> Seq<LayerModel> {
    Seq::new(layers.len(), |i: int| layers[i]@)
}

pub open spec fn layer_len(layer: LayerModel) -> nat {
    match layer.data {
        Some(data) => data.0.len() / 2,
        None => 0,
    }
}

/// Texels of the first `n` layers.
pub open spec fn layers_len(layers: Seq<LayerModel>, n: nat) -> nat
    decreases n,
{
    if n == 0 {
        0
    } else {
        layers_len(layers, (n - 1) as nat) + layer_len(layers[n - 1])
    }
}

/// Words of the first `n` layers.
pub open spec fn layers_words(layers: Seq<LayerModel>, n: nat) -> Seq<i32>
    decreases n,
{
    if n == 0 {
        Seq::empty()
    } else {
        let before = layers_words(layers, (n - 1) as nat);
        match layers[n - 1].data {
            Some(data) => before + data.0,
            None => before,
        }
    }
}

/// A layer describes the `n`-th of the prepared layers: its data starts where
/// the data of the layers before it ends.
pub open spec fn layer_describes(layer: CachedColorLayer, layers: Seq<LayerModel>, n: int) -> bool {
    &&& layer.color == layers[n].color
    &&& layer.use_foreground == layers[n].use_foreground
    &&& match layers[n].data {
        Some(data) => layer.offset == Some(layers_len(layers, n as nat) as u32) && layer.bounds == data.1,
        None => layer.offset is None,
    }
}

pub open spec fn layers_describe(cached: Seq<CachedColorLayer>, layers: Seq<LayerModel>) -> bool {
    &&& cached.len() == layers.len()
    &&& forall|i: int| 0 <= i < layers.len() ==> layer_describes(#[trigger] cached[i], layers, i)
}

pub open spec fn layers_wf(layers: Seq<PreparedLayer>) -> bool {
    forall|i: int| 0 <= i < layers.len() ==> ((#[trigger] layers[i]).prepared matches Some(p) ==> p.wf())
}

/// Every layer's offsets fit 16 bits.
pub open spec fn layers_small(layers: Seq<LayerModel>) -> bool {
    forall|i: int|
        0 <= i < layers.len() ==> layer_len(#[trigger] layers[i]) <= MAX_BLOB_TEXELS + GLYPH_HEADER_TEXELS
}

proof fn lemma_layers_len_monotone(layers: Seq<LayerModel>, a: nat, b: nat)
    requires
        a <= b,
    ensures
        layers_len(layers, a) <= layers_len(layers, b),
    decreases b - a,
{
    if a < b {
        lemma_layers_len_monotone(layers, a, (b - 1) as nat);
    }
}

proof fn lemma_layers_words_len(layers: Seq<PreparedLayer>, n: nat)
    requires
        n <= layers.len(),
        layers_wf(layers),
    ensures
        layers_words(layer_models(layers), n).len() == 2 * layers_len(layer_models(layers), n),
    decreases n,
{
    if n > 0 {
        lemma_layers_words_len(layers, (n - 1) as nat);
        let p = layers[n - 1].prepared;
        assert(layer_models(layers)[n - 1] == layers[n - 1]@);
    }
}

/// Two states hold the same for every glyph but one.
pub open spec fn same_but(before: AtlasState, after: AtlasState, id: u128) -> bool {
    &&& forall|k: u128|
        k != id ==> #[trigger] after.glyphs.contains_key(k) == before.glyphs.contains_key(k)
    &&& forall|k: u128|
        k != id && before.glyphs.contains_key(k) ==> #[trigger] after.glyphs[k] == before.glyphs[k]
    &&& forall|k: u128|
        k != id && before.layers.contains_key(k) ==> #[trigger] after.layers.contains_key(k) && after.layers[k]
            == before.layers[k]
    &&& forall|k: u128|
        k != id && before.commands.contains_key(k) ==> #[trigger] after.commands.contains_key(k) && after.commands[k]
            == before.commands[k]
}

/// Appending a glyph's data and installing its entries keeps the atlas well
/// formed.
proof fn lemma_appended(before: AtlasState, after: AtlasState, id: u128, r: ResidentBlob)
    requires
        before.wf(),
        after.buffer_wf(),
        !before.residents.contains_key(id),
        before.cursor <= after.cursor,
        after.residents == before.residents.insert(id, r),
        r.inside(after.cursor as int),
        r.start_texel >= before.cursor,
        r.border matches Some(b) ==> b.start_texel >= before.cursor,
        after.installed(id),
        same_but(before, after, id),
        forall|k: u128| #[trigger]
            after.cached.contains_key(k) ==> k != id && before.cached.contains_key(k) && after.cached[k]
                == before.cached[k],
    ensures
        after.wf(),
{
    assert forall|k: u128| #[trigger] after.residents.contains_key(k) implies after.residents[k].inside(
        after.cursor as int,
    ) && after.installed(k) by {
        if k != id {
            assert(before.residents.contains_key(k));
            assert(before.residents[k].inside(before.cursor as int));
            assert(before.installed(k));
            assert(before.glyphs.contains_key(k));
            assert(after.glyphs.contains_key(k));
            assert(after.glyphs[k] == before.glyphs[k]);
            assert(before.layers.contains_key(k) ==> after.layers.contains_key(k));
            assert(before.commands.contains_key(k) ==> after.commands.contains_key(k));
        }
    }
    assert forall|a: u128, b: u128|
        #![trigger after.residents.contains_key(a), after.residents.contains_key(b)]
        after.residents.contains_key(a) && after.residents.contains_key(b) && a != b implies after.residents[a].apart(
        after.residents[b],
    ) by {
        if a != id {
            assert(before.residents.contains_key(a));
            assert(before.residents[a].inside(before.cursor as int));
        }
        if b != id {
            assert(before.residents.contains_key(b));
            assert(before.residents[b].inside(before.cursor as int));
        }
        if a != id && b != id {
            assert(before.residents[a].apart(before.residents[b]));
        }
    }
    assert(after.residents.dom() =~= before.residents.dom().insert(id));
    assert(after.residents_wf());
    assert forall|k: u128| #[trigger] after.cached.contains_key(k) implies after.cached[k].wf()
        && !after.glyphs.contains_key(k) by {
        assert(before.cached.contains_key(k));
        assert(!before.glyphs.contains_key(k));
    }
}

/// Installing entries of a glyph without resident data keeps the atlas well
/// formed.
proof fn lemma_entered(before: AtlasState, after: AtlasState, id: u128)
    requires
        before.wf(),
        after.buffer_wf(),
        !before.residents.contains_key(id),
        after.residents == before.residents,
        after.cursor == before.cursor,
        same_but(before, after, id),
        after.cached == before.cached,
        !before.cached.contains_key(id),
    ensures
        after.wf(),
{
    assert forall|k: u128| #[trigger] after.residents.contains_key(k) implies after.residents[k].inside(
        after.cursor as int,
    ) && after.installed(k) by {
        assert(before.residents.contains_key(k));
        assert(before.residents[k].inside(before.cursor as int));
        assert(before.installed(k));
        assert(before.glyphs.contains_key(k));
        assert(after.glyphs.contains_key(k));
        assert(after.glyphs[k] == before.glyphs[k]);
        assert(before.layers.contains_key(k) ==> after.layers.contains_key(k));
        assert(before.commands.contains_key(k) ==> after.commands.contains_key(k));
    }
    assert(after.residents_wf());
    assert forall|k: u128| #[trigger] after.cached.contains_key(k) implies after.cached[k].wf()
        && !after.glyphs.contains_key(k) by {
        assert(before.cached.contains_key(k));
        assert(!before.glyphs.contains_key(k));
    }
}

impl TextAtlas {
    /// The texel after an appended blob, if the atlas may grow that far.
    pub(super) fn checked_buffer_end(&self, blob_size: u32) -> (r: Result<u32, PrepareError>)
        ensures
            self@.cursor + blob_size > self@.max <==> r == Err::<u32, PrepareError>(PrepareError::AtlasFull),
            self@.cursor + blob_size <= self@.max <==> r == Ok::<u32, PrepareError>((self@.cursor + blob_size) as u32),
    {
        checked_buffer_end(self.buffer_cursor, blob_size, self.max_buffer_capacity)
    }

    /// Appends a prepared glyph: a universal header, then its blob.
    fn commit_mono(&mut self, key: GlyphKey, prepared: &PreparedMono) -> (r: Result<GlyphEntry, PrepareError>)
        requires
            prepared.wf(),
            old(self).wf(),
        ensures
            final(self).glyphs.wf() && final(self).blob_cache.wf(),
            r is Err <==> prepared.blob_size > MAX_BLOB_TEXELS || old(self)@.cursor + GLYPH_HEADER_TEXELS
                + prepared.blob_size > old(self)@.max,
            r is Err ==> r == Err::<GlyphEntry, PrepareError>(PrepareError::AtlasFull) && final(self)@ == old(self)@,
            r is Ok ==> r == Ok::<GlyphEntry, PrepareError>(
                GlyphEntry {
                    glyph_offset: old(self)@.cursor,
                    bounds: prepared.bounds,
                    units_per_em: prepared.units_per_em,
                    last_used_epoch: 0,
                },
            ) && final(self)@ == (AtlasState {
                cursor: (old(self)@.cursor + GLYPH_HEADER_TEXELS + prepared.blob_size) as u32,
                words: old(self)@.words + mono_words(*prepared),
                residents: old(self)@.residents.insert(
                    key.id(),
                    ResidentBlob {
                        start_texel: old(self)@.cursor,
                        texel_len: (GLYPH_HEADER_TEXELS + prepared.blob_size) as u32,
                        kind: BlobKind::Mono { bounds: prepared.bounds, units_per_em: prepared.units_per_em },
                        border: None,
                    },
                ),
                ..old(self)@
            }),
    {
        if prepared.blob_size > MAX_BLOB_TEXELS {
            return Err(PrepareError::AtlasFull);
        }
        let glyph_offset: u32 = self.buffer_cursor;
        let total_size: u32 = GLYPH_HEADER_TEXELS + prepared.blob_size;
        let new_end: u32 = match self.checked_buffer_end(total_size) {
            Ok(end) => end,
            Err(e) => {
                return Err(PrepareError::AtlasFull);
            },
        };
        append_header(
            &mut self.buffer_data,
            prepared.bounds,
            prepared.band_transform,
            one_less(prepared.band_count_x),
            one_less(prepared.band_count_y),
        );
        append_words(&mut self.buffer_data, &prepared.blob_data, 0, prepared.blob_data.len());
        proof {
            assert(prepared.blob_data@.subrange(0, prepared.blob_data@.len() as int) =~= prepared.blob_data@);
            assert(self.buffer_data@ =~= old(self)@.words + mono_words(*prepared));
        }
        self.buffer_cursor = new_end;
        map_insert(
            &mut self.resident_blobs,
            key.packed(),
            ResidentBlob {
                start_texel: glyph_offset,
                texel_len: total_size,
                kind: BlobKind::Mono { bounds: prepared.bounds, units_per_em: prepared.units_per_em },
                border: None,
            },
        );
        Ok(
            GlyphEntry {
                glyph_offset,
                bounds: prepared.bounds,
                units_per_em: prepared.units_per_em,
                last_used_epoch: 0,
            },
        )
    }

    /// Appends the layers of a color glyph. A glyph whose layers all lack data
    /// takes no space.
    fn commit_color_v0(&mut self, key: GlyphKey, layers: &Vec<PreparedLayer>, units_per_em: F32) -> (r: Result<
        ColorGlyphEntry,
        PrepareError,
    >)
        requires
            layers_wf(layers@),
            old(self).wf(),
        ensures
            final(self).glyphs.wf() && final(self).blob_cache.wf(),
            r is Err <==> !layers_small(layer_models(layers@)) || old(self)@.cursor + layers_len(
                layer_models(layers@),
                layers@.len(),
            ) > old(self)@.max,
            r is Err ==> r == Err::<ColorGlyphEntry, PrepareError>(PrepareError::AtlasFull) && final(self)@
                == old(self)@,
            r is Ok ==> color_v0_committed(old(self)@, final(self)@, key.id(), layer_models(layers@), r->Ok_0, units_per_em),
    {
        let n: usize = layers.len();
        let ghost models = layer_models(layers@);
        let mut total: u32 = 0;
        let mut i: usize = 0;
        while i < n
            invariant
                i <= n,
                n == layers.len(),
                *self == *old(self),
                old(self).wf(),
                total == layers_len(models, i as nat),
                models == layer_models(layers@),
                layers_wf(layers@),
                forall|j: int|
                    0 <= j < i ==> layer_len(#[trigger] models[j]) <= MAX_BLOB_TEXELS + GLYPH_HEADER_TEXELS,
            decreases n - i,
        {
            proof {
                lemma_layers_len_monotone(models, (i + 1) as nat, n as nat);
            }
            assert(models[i as int] == layers@[i as int]@);
            match &layers[i].prepared {
                Some(p) => {
                    assert(layers@[i as int].prepared == Some(*p));
                    assert(layer_len(models[i as int]) == GLYPH_HEADER_TEXELS + p.blob_size);
                    if p.blob_size > MAX_BLOB_TEXELS {
                        return Err(PrepareError::AtlasFull);
                    }
                    let part: u32 = GLYPH_HEADER_TEXELS + p.blob_size;
                    if part > u32::MAX - total {
                        return Err(PrepareError::AtlasFull);
                    }
                    total = total + part;
                },
                None => {},
            }
            i = i + 1;
        }
        assert(layers_small(models));
        let start: u32 = self.buffer_cursor;
        match self.checked_buffer_end(total) {
            Ok(_) => {},
            Err(_) => {
                return Err(PrepareError::AtlasFull);
            },
        }
        let mut cached_layers: Vec<CachedColorLayer> = Vec::new();
        let mut installed_layers: Vec<ColorGlyphLayer> = Vec::new();
        let ghost before = old(self)@;
        let mut i: usize = 0;
        let zero = F32 { bits: 0 };
        assert(before.words + layers_words(models, 0) =~= before.words);
        while i < n
            invariant
                i <= n,
                n == layers.len(),
                before == old(self)@,
                start == before.cursor,
                models == layer_models(layers@),
                start + layers_len(models, n as nat) <= before.max,
                layers_wf(layers@),
                layers_small(models),
                self.glyphs.wf() && self.blob_cache.wf(),
                self@ == (AtlasState {
                    cursor: (start + layers_len(models, i as nat)) as u32,
                    words: before.words + layers_words(models, i as nat),
                    ..before
                }),
                cached_layers.len() == i,
                installed_layers.len() == i,
                forall|j: int| 0 <= j < i ==> layer_describes(#[trigger] cached_layers@[j], models, j),
                forall|j: int|
                    0 <= j < i ==> layer_installed(
                        #[trigger] installed_layers@[j],
                        cached_layers@[j],
                        start as int,
                        units_per_em,
                    ),
            decreases n - i,
        {
            proof {
                lemma_layers_len_monotone(models, (i + 1) as nat, n as nat);
            }
            let color: [F32; 4] = layers[i].color;
            let use_foreground: bool = layers[i].use_foreground;
            match &layers[i].prepared {
                Some(p) => {
                    assert(layers@[i as int].prepared == Some(*p));
                    assert(models[i as int] == layers@[i as int]@);
                    assert(layer_len(models[i as int]) == GLYPH_HEADER_TEXELS + p.blob_size);
                    let ghost words_before = self.buffer_data@;
                    let relative: u32 = self.buffer_cursor - start;
                    append_header(
                        &mut self.buffer_data,
                        p.bounds,
                        p.band_transform,
                        one_less(p.band_count_x),
                        one_less(p.band_count_y),
                    );
                    append_words(&mut self.buffer_data, &p.blob_data, 0, p.blob_data.len());
                    proof {
                        assert(p.blob_data@.subrange(0, p.blob_data@.len() as int) =~= p.blob_data@);
                        assert(self.buffer_data@ =~= words_before + mono_words(*p));
                        assert(words_before + mono_words(*p) =~= before.words + (layers_words(models, i as nat)
                            + mono_words(*p)));
                    }
                    self.buffer_cursor = self.buffer_cursor + (GLYPH_HEADER_TEXELS + p.blob_size);
                    cached_layers.push(
                        CachedColorLayer { offset: Some(relative), bounds: p.bounds, color, use_foreground },
                    );
                    installed_layers.push(
                        ColorGlyphLayer {
                            entry: GlyphEntry::new(start + relative, p.bounds, units_per_em),
                            color,
                            use_foreground,
                        },
                    );
                },
                None => {
                    assert(layers@[i as int].prepared is None);
                    assert(models[i as int] == layers@[i as int]@);
                    cached_layers.push(
                        CachedColorLayer { offset: None, bounds: [zero, zero, zero, zero], color, use_foreground },
                    );
                    installed_layers.push(
                        ColorGlyphLayer { entry: GlyphEntry::non_vector(), color, use_foreground },
                    );
                },
            }
            i = i + 1;
        }
        let ghost cached = cached_layers@;
        let entry = ColorGlyphEntry { layers: installed_layers, units_per_em };
        proof {
            assert(layers_describe(cached, models));
            assert forall|j: int| 0 <= j < n implies prepared_installed(#[trigger] entry.layers@[j], models, j, start as int, units_per_em) by {
                assert(layer_installed(installed_layers@[j], cached_layers@[j], start as int, units_per_em));
                assert(layer_describes(cached_layers@[j], models, j));
                lemma_layers_len_monotone(models, j as nat, n as nat);
            }
            assert(layers_installed(entry, cached, start as int, units_per_em));
        }
        if total > 0 {
            map_insert(
                &mut self.resident_blobs,
                key.packed(),
                ResidentBlob {
                    start_texel: start,
                    texel_len: total,
                    kind: BlobKind::ColorV0 { units_per_em, layers: cached_layers },
                    border: None,
                },
            );
        } else {
            proof {
                lemma_layers_words_len(layers@, n as nat);
                assert(before.words + layers_words(models, n as nat) =~= before.words);
            }
        }
        Ok(entry)
    }
}

/// An installed layer shows the `i`-th prepared layer, whose data starts where
/// the data of the layers before it ends.
pub open spec fn prepared_installed(
    installed: ColorGlyphLayer,
    layers: Seq<LayerModel>,
    i: int,
    start: int,
    units_per_em: F32,
) -> bool {
    &&& installed.color == layers[i].color
    &&& installed.use_foreground == layers[i].use_foreground
    &&& match layers[i].data {
        None => marker(installed.entry, NON_VECTOR_OFFSET),
        Some(data) => installed.entry == (GlyphEntry {
            glyph_offset: (start + layers_len(layers, i as nat)) as u32,
            bounds: data.1,
            units_per_em,
            last_used_epoch: 0,
        }),
    }
}

/// The layers of a color glyph have been appended.
pub open spec fn color_v0_committed(
    before: AtlasState,
    after: AtlasState,
    id: u128,
    layers: Seq<LayerModel>,
    entry: ColorGlyphEntry,
    units_per_em: F32,
) -> bool {
    let total = layers_len(layers, layers.len());
    &&& entry.units_per_em == units_per_em
    &&& entry.layers@.len() == layers.len()
    &&& forall|i: int|
        0 <= i < layers.len() ==> prepared_installed(
            #[trigger] entry.layers@[i],
            layers,
            i,
            before.cursor as int,
            units_per_em,
        )
    &&& if total == 0 {
        after == before
    } else {
        let r = after.residents[id];
        &&& after == (AtlasState {
            cursor: (before.cursor + total) as u32,
            words: before.words + layers_words(layers, layers.len()),
            residents: before.residents.insert(id, r),
            ..before
        })
        &&& r.start_texel == before.cursor
        &&& r.texel_len == total
        &&& r.border is None
        &&& r.kind matches BlobKind::ColorV0 { units_per_em: u, layers: l } && u == units_per_em && layers_describe(
            l@,
            layers,
        ) && layers_installed(entry, l@, before.cursor as int, units_per_em)
    }
}

/// The words of a sub-glyph: three header texels, then its bands and curves.
#[verifier::opaque]
pub open spec fn sub_words(o: GlyphOutline) -> Seq<i32> {
    let count = band_count(o.curves@.len() as int);
    let t = outline_transform(o, count, count);
    let top = (count - 1) as i16;
    seq![
        pair_word(top, top),
        0i32,
        bits_word(t[0].bits),
        bits_word(t[1].bits),
        bits_word(t[2].bits),
        bits_word(t[3].bits),
    ] + outline_words(o, count, count)
}

/// Texels of the first `n` sub-glyphs.
pub open spec fn subs_len(subs: Seq<GlyphOutline>, n: nat) -> nat
    decreases n,
{
    if n == 0 {
        0
    } else {
        subs_len(subs, (n - 1) as nat) + sub_words(subs[n - 1]).len() / 2
    }
}

/// Words of the first `n` sub-glyphs.
pub open spec fn subs_words(subs: Seq<GlyphOutline>, n: nat) -> Seq<i32>
    decreases n,
{
    if n == 0 {
        Seq::empty()
    } else {
        subs_words(subs, (n - 1) as nat) + sub_words(subs[n - 1])
    }
}

/// The union of the bounds of the first `n` sub-glyphs.
pub open spec fn union_bounds(subs: Seq<GlyphOutline>, n: nat) -> Seq<F32>
    decreases n,
{
    if n == 0 {
        seq![F32 { bits: MAX_BITS }, F32 { bits: MAX_BITS }, F32 { bits: MIN_BITS }, F32 { bits: MIN_BITS }]
    } else {
        joined_bounds(union_bounds(subs, (n - 1) as nat), subs[n - 1].bounds@)
    }
}

/// The smallest box around two boxes.
#[verifier::opaque]
pub open spec fn joined_bounds(u: Seq<F32>, b: Seq<F32>) -> Seq<F32> {
    seq![f_min(u[0], b[0]), f_min(u[1], b[1]), f_max(u[2], b[2]), f_max(u[3], b[3])]
}

fn join_bounds(u: &[F32; 4], b: &[F32; 4]) -> (r: [F32; 4])
    ensures
        r@ == joined_bounds(u@, b@),
{
    reveal(joined_bounds);
    let r: [F32; 4] = [u[0].min(b[0]), u[1].min(b[1]), u[2].max(b[2]), u[3].max(b[3])];
    assert(r@ =~= joined_bounds(u@, b@));
    r
}

/// The command draws one of the sub-glyphs.
pub open spec fn draws(cmd: [i32; 4], sub_count: int) -> bool {
    (cmd[0] == CMD_DRAW_SOLID || cmd[0] == CMD_DRAW_GRADIENT) && 0 <= cmd[1] < sub_count
}

/// Where a draw command's sub-glyph starts, counted from the first command.
pub open spec fn draw_target(cmd: [i32; 4], subs: Seq<GlyphOutline>, cmd_texels: int) -> int {
    cmd_texels + subs_len(subs, cmd[1] as nat)
}

/// A command as the shader reads it: sub-glyph indices are replaced by offsets.
pub open spec fn fixed_command(cmd: [i32; 4], subs: Seq<GlyphOutline>, cmd_texels: int) -> Seq<i32> {
    if draws(cmd, subs.len() as int) {
        seq![cmd[0], draw_target(cmd, subs, cmd_texels) as i32, cmd[2], cmd[3]]
    } else {
        cmd@
    }
}

/// The words of the first `n` commands.
pub open spec fn commands_words(commands: Seq<[i32; 4]>, subs: Seq<GlyphOutline>, cmd_texels: int, n: nat) -> Seq<i32>
    decreases n,
{
    if n == 0 {
        Seq::empty()
    } else {
        commands_words(commands, subs, cmd_texels, (n - 1) as nat) + fixed_command(
            commands[n - 1],
            subs,
            cmd_texels,
        )
    }
}

/// The offsets of all draw commands fit their words.
pub open spec fn targets_fit(v1: ColorV1Data) -> bool {
    forall|i: int|
        0 <= i < v1.commands@.len() && draws(#[trigger] v1.commands@[i], v1.sub_glyphs@.len() as int) ==> draw_target(
            v1.commands@[i],
            v1.sub_glyphs@,
            2 * v1.commands@.len() as int,
        ) <= i32::MAX
}

/// The counters of all sub-glyphs fit.
pub open spec fn subs_fit(subs: Seq<GlyphOutline>) -> bool {
    forall|i: int|
        0 <= i < subs.len() ==> counters_fit(
            #[trigger] subs[i],
            band_count(subs[i].curves@.len() as int),
            band_count(subs[i].curves@.len() as int),
        )
}

/// Texels of a color glyph's commands and sub-glyphs.
pub open spec fn v1_len(v1: ColorV1Data) -> int {
    2 * v1.commands@.len() + subs_len(v1.sub_glyphs@, v1.sub_glyphs@.len()) as int
}

pub open spec fn zero_floats() -> Seq<F32> {
    seq![F32 { bits: 0 }, F32 { bits: 0 }, F32 { bits: 0 }, F32 { bits: 0 }]
}

/// The words that a command glyph takes in the atlas.
pub open spec fn v1_words(v1: ColorV1Data) -> Seq<i32> {
    header_words(union_bounds(v1.sub_glyphs@, v1.sub_glyphs@.len()), zero_floats(), 0, 0) + commands_words(
        v1.commands@,
        v1.sub_glyphs@,
        2 * v1.commands@.len() as int,
        v1.commands@.len(),
    ) + subs_words(v1.sub_glyphs@, v1.sub_glyphs@.len())
}

proof fn lemma_subs_len_monotone(subs: Seq<GlyphOutline>, a: nat, b: nat)
    requires
        a <= b,
    ensures
        subs_len(subs, a) <= subs_len(subs, b),
    decreases b - a,
{
    if a < b {
        lemma_subs_len_monotone(subs, a, (b - 1) as nat);
    }
}

pub proof fn lemma_commands_words_len(commands: Seq<[i32; 4]>, subs: Seq<GlyphOutline>, cmd_texels: int, n: nat)
    ensures
        commands_words(commands, subs, cmd_texels, n).len() == 4 * n,
    decreases n,
{
    if n > 0 {
        lemma_commands_words_len(commands, subs, cmd_texels, (n - 1) as nat);
    }
}

/// Appends one sub-glyph's header and data.
fn append_sub(out: &mut Vec<i32>, outline: &GlyphOutline, prepared: &PreparedMono)
    requires
        prepared.wf(),
        prepared.band_count_x == band_count(outline.curves@.len() as int),
        prepared.blob_data@ == outline_words(*outline, prepared.band_count_x, prepared.band_count_x),
        prepared.band_transform@ == outline_transform(*outline, prepared.band_count_x, prepared.band_count_x),
    ensures
        final(out)@ == old(out)@ + sub_words(*outline),
        sub_words(*outline).len() == 6 + prepared.blob_data@.len(),
{
    reveal(sub_words);
    let ghost before = out@;
    let top: i16 = (prepared.band_count_x - 1) as i16;
    let t: [F32; 4] = prepared.band_transform;
    out.push(pack_i16_pair(top, top));
    out.push(0);
    out.push(to_word(t[0].bits));
    out.push(to_word(t[1].bits));
    out.push(to_word(t[2].bits));
    out.push(to_word(t[3].bits));
    append_words(out, &prepared.blob_data, 0, prepared.blob_data.len());
    assert(prepared.blob_data@.subrange(0, prepared.blob_data@.len() as int) =~= prepared.blob_data@);
    assert(out@ =~= before + sub_words(*outline));
}

/// A command as the shader reads it.
fn append_command(out: &mut Vec<i32>, cmd: &[i32; 4], offsets: &Vec<u32>, Ghost(subs): Ghost<Seq<GlyphOutline>>, Ghost(cmd_texels): Ghost<int>) -> (r: bool)
    requires
        offsets.len() == subs.len(),
        forall|j: int| 0 <= j < subs.len() ==> #[trigger] offsets@[j] == cmd_texels + subs_len(subs, j as nat),
    ensures
        r == (draws(*cmd, subs.len() as int) ==> draw_target(*cmd, subs, cmd_texels) <= i32::MAX),
        r ==> final(out)@ == old(out)@ + fixed_command(*cmd, subs, cmd_texels),
{
    let ghost before = out@;
    let mut second: i32 = cmd[1];
    if (cmd[0] == CMD_DRAW_SOLID || cmd[0] == CMD_DRAW_GRADIENT) && cmd[1] >= 0 && (cmd[1] as usize) < offsets.len() {
        let target: u32 = offsets[cmd[1] as usize];
        if target > i32::MAX as u32 {
            return false;
        }
        second = target as i32;
    }
    out.push(cmd[0]);
    out.push(second);
    out.push(cmd[2]);
    out.push(cmd[3]);
    assert(out@ =~= before + fixed_command(*cmd, subs, cmd_texels));
    true
}

impl TextAtlas {
    /// Appends a command glyph: a header, its commands, and the sub-glyphs that
    /// they draw. Draw commands name sub-glyphs by texel offset, counted from
    /// the first command.
    fn upload_color_v1(&mut self, key: GlyphKey, v1: &ColorV1Data, units_per_em: F32) -> (r: Result<
        ColorV1GlyphEntry,
        PrepareError,
    >)
        requires
            old(self).wf(),
        ensures
            final(self).glyphs.wf() && final(self).blob_cache.wf(),
            r is Ok <==> subs_fit(v1.sub_glyphs@) && targets_fit(*v1) && old(self)@.cursor + GLYPH_HEADER_TEXELS
                + v1_len(*v1) <= old(self)@.max,
            r is Err ==> r == Err::<ColorV1GlyphEntry, PrepareError>(PrepareError::AtlasFull) && final(self)@
                == old(self)@,
            r matches Ok(entry) ==> {
                &&& entry.glyph_offset == old(self)@.cursor
                &&& entry.cmd_texel_count == 2 * v1.commands@.len()
                &&& entry.bounds@ == union_bounds(v1.sub_glyphs@, v1.sub_glyphs@.len())
                &&& entry.units_per_em == units_per_em
                &&& final(self)@ == (AtlasState {
                    cursor: (old(self)@.cursor + GLYPH_HEADER_TEXELS + v1_len(*v1)) as u32,
                    words: old(self)@.words + v1_words(*v1),
                    residents: old(self)@.residents.insert(
                        key.id(),
                        ResidentBlob {
                            start_texel: old(self)@.cursor,
                            texel_len: (GLYPH_HEADER_TEXELS + v1_len(*v1)) as u32,
                            kind: BlobKind::ColorV1 {
                                bounds: entry.bounds,
                                units_per_em,
                                cmd_texel_count: entry.cmd_texel_count,
                            },
                            border: None,
                        },
                    ),
                    ..old(self)@
                })
            },
    {
        let ghost subs = v1.sub_glyphs@;
        let ghost before = self@;
        let command_count: usize = v1.commands.len();
        let sub_count: usize = v1.sub_glyphs.len();
        if command_count > 0x7fff_ffff {
            return Err(PrepareError::AtlasFull);
        }
        let cmd_texel_count: u32 = command_count as u32 * 2;
        let ghost ct = cmd_texel_count as int;

        // Build each sub-glyph's blob, its offset, and the union of the bounds.
        let high = F32 { bits: MAX_BITS };
        let low = F32 { bits: MIN_BITS };
        let mut bounds: [F32; 4] = [high, high, low, low];
        assert(bounds@ =~= union_bounds(subs, 0));
        let mut blobs: Vec<i32> = Vec::new();
        let mut offsets: Vec<u32> = Vec::new();
        let mut offset: u32 = cmd_texel_count;
        let mut i: usize = 0;
        assert(blobs@ =~= subs_words(subs, 0));
        while i < sub_count
            invariant
                i <= sub_count,
                subs == v1.sub_glyphs@,
                sub_count == subs.len(),
                old(self).wf(),
                before == old(self)@,
                self@ == before,
                self.glyphs.wf() && self.blob_cache.wf(),
                ct == cmd_texel_count,
                ct == 2 * v1.commands@.len(),
                bounds@ == union_bounds(subs, i as nat),
                blobs@ == subs_words(subs, i as nat),
                blobs@.len() == 2 * subs_len(subs, i as nat),
                offset == ct + subs_len(subs, i as nat),
                offsets.len() == i,
                forall|j: int| 0 <= j < i ==> #[trigger] offsets@[j] == ct + subs_len(subs, j as nat),
                forall|j: int|
                    0 <= j < i ==> counters_fit(
                        #[trigger] subs[j],
                        band_count(subs[j].curves@.len() as int),
                        band_count(subs[j].curves@.len() as int),
                    ),
            decreases sub_count - i,
        {
            let outline: &GlyphOutline = &v1.sub_glyphs[i];
            bounds = join_bounds(&bounds, &outline.bounds);
            let count: u32 = band_count_for_curves(outline.curves.len());
            let prepared: PreparedMono = match prepare_mono(outline, count, count, units_per_em, &mut self.prep_scratch) {
                Some(p) => p,
                None => {
                    return Err(PrepareError::AtlasFull);
                },
            };
            append_sub(&mut blobs, outline, &prepared);
            offsets.push(offset);
            proof {
                lemma_subs_len_monotone(subs, (i + 1) as nat, sub_count as nat);
                assert(sub_words(subs[i as int]).len() == 6 + 2 * prepared.blob_size);
            }
            if prepared.blob_size > u32::MAX - 3 || prepared.blob_size + 3 > u32::MAX - offset {
                return Err(PrepareError::AtlasFull);
            }
            offset = offset + (prepared.blob_size + 3);
            i = i + 1;
        }
        assert(subs_fit(subs));
        let total_blob_size: u32 = offset;

        // Replace sub-glyph indices by offsets.
        let mut commands: Vec<i32> = Vec::new();
        let mut i: usize = 0;
        while i < command_count
            invariant
                i <= command_count,
                subs == v1.sub_glyphs@,
                old(self).wf(),
                before == old(self)@,
                self@ == before,
                self.glyphs.wf() && self.blob_cache.wf(),
                command_count == v1.commands@.len(),
                ct == 2 * v1.commands@.len(),
                offsets.len() == subs.len(),
                forall|j: int| 0 <= j < subs.len() ==> #[trigger] offsets@[j] == ct + subs_len(subs, j as nat),
                commands@ == commands_words(v1.commands@, subs, ct, i as nat),
                forall|j: int|
                    0 <= j < i && draws(#[trigger] v1.commands@[j], subs.len() as int) ==> draw_target(
                        v1.commands@[j],
                        subs,
                        ct,
                    ) <= i32::MAX,
            decreases command_count - i,
        {
            if !append_command(&mut commands, &v1.commands[i], &offsets, Ghost(subs), Ghost(ct)) {
                assert(draws(v1.commands@[i as int], subs.len() as int));
                return Err(PrepareError::AtlasFull);
            }
            i = i + 1;
        }
        assert(targets_fit(*v1));

        // Validate capacity and append to CPU storage.
        let glyph_offset: u32 = self.buffer_cursor;
        if total_blob_size > u32::MAX - GLYPH_HEADER_TEXELS {
            return Err(PrepareError::AtlasFull);
        }
        let total_size: u32 = GLYPH_HEADER_TEXELS + total_blob_size;
        let new_end: u32 = match self.checked_buffer_end(total_size) {
            Ok(end) => end,
            Err(_) => {
                return Err(PrepareError::AtlasFull);
            },
        };
        let zero = F32 { bits: 0 };
        let zeros: [F32; 4] = [zero, zero, zero, zero];
        assert(zeros@ =~= zero_floats());
        append_header(&mut self.buffer_data, bounds, zeros, 0, 0);
        append_words(&mut self.buffer_data, &commands, 0, commands.len());
        append_words(&mut self.buffer_data, &blobs, 0, blobs.len());
        proof {
            assert(commands@.subrange(0, commands@.len() as int) =~= commands@);
            assert(blobs@.subrange(0, blobs@.len() as int) =~= blobs@);
            assert(self.buffer_data@ =~= before.words + v1_words(*v1));
        }
        self.buffer_cursor = new_end;
        map_insert(
            &mut self.resident_blobs,
            key.packed(),
            ResidentBlob {
                start_texel: glyph_offset,
                texel_len: total_size,
                kind: BlobKind::ColorV1 { bounds, units_per_em, cmd_texel_count },
                border: None,
            },
        );
        Ok(ColorV1GlyphEntry { glyph_offset, cmd_texel_count, bounds, units_per_em })
    }
}

/// The offsets of a glyph's entries have been set for data at `start`.
pub open spec fn offsets_installed(before: AtlasState, after: AtlasState, id: u128, start: u32, kind: BlobKind) -> bool {
    match kind {
        BlobKind::Mono { .. } => after == (AtlasState {
            glyphs: if before.glyphs.contains_key(id) {
                before.glyphs.insert(id, GlyphEntry { glyph_offset: start, ..before.glyphs[id] })
            } else {
                before.glyphs
            },
            ..before
        }),
        BlobKind::ColorV0 { units_per_em, layers } => {
            &&& after == (AtlasState { layers: before.layers.insert(id, after.layers[id]), ..before })
            &&& layers_installed(after.layers[id], layers@, start as int, units_per_em)
        },
        BlobKind::ColorV1 { bounds, units_per_em, cmd_texel_count } => after == (AtlasState {
            commands: before.commands.insert(
                id,
                ColorV1GlyphEntry { glyph_offset: start, cmd_texel_count, bounds, units_per_em },
            ),
            ..before
        }),
    }
}

/// The words of a cached blob as they stand in the atlas at `start`: a border
/// descriptor begins with the offset of its glyph.
pub open spec fn restored_words(blob: CachedBlob, start: u32) -> Seq<i32> {
    match blob.border {
        Some(border) => blob.data@.update(2 * border.relative_offset as int, bits_word(start)),
        None => blob.data@,
    }
}

/// A cached blob's place in the atlas at `start`.
pub open spec fn restored_resident(blob: CachedBlob, start: u32) -> ResidentBlob {
    ResidentBlob {
        start_texel: start,
        texel_len: blob.primary_len() as u32,
        kind: blob.kind,
        border: match blob.border {
            Some(border) => Some(
                ResidentBorderBlob {
                    start_texel: (start + border.relative_offset) as u32,
                    texel_len: border.texel_len,
                    ppem_ceiling: border.ppem_ceiling,
                    grid_radius_units: border.grid_radius_units,
                },
            ),
            None => None,
        },
    }
}

/// A marker entry that was last used in a frame.
pub open spec fn marker_in(entry: GlyphEntry, offset: u32, frame: u64) -> bool {
    &&& entry.last_used_epoch == frame
    &&& marker(GlyphEntry { last_used_epoch: 0, ..entry }, offset)
}

/// The entry of a restored glyph.
pub open spec fn restored_entry(entry: GlyphEntry, kind: BlobKind, start: u32, frame: u64) -> bool {
    match kind {
        BlobKind::Mono { bounds, units_per_em } => entry == (GlyphEntry {
            glyph_offset: start,
            bounds,
            units_per_em,
            last_used_epoch: frame,
        }),
        BlobKind::ColorV0 { .. } => marker_in(entry, COLOR_VECTOR_OFFSET, frame),
        BlobKind::ColorV1 { .. } => marker_in(entry, COLOR_V1_VECTOR_OFFSET, frame),
    }
}

/// A glyph has come back from the blob cache.
pub open spec fn restored(before: AtlasState, after: AtlasState, id: u128, entry: GlyphEntry) -> bool {
    let blob = before.cached[id];
    let texels = blob.data@.len() / 2;
    let start = before.cursor;
    &&& restored_entry(entry, blob.kind, start, before.frame)
    &&& after == (AtlasState {
        cursor: (start + texels) as u32,
        words: before.words + restored_words(blob, start),
        residents: before.residents.insert(id, restored_resident(blob, start)),
        glyphs: before.glyphs.insert(id, entry),
        layers: after.layers,
        commands: after.commands,
        cached: before.cached.remove(id),
        counters: BlobCacheStats {
            hits: count_up(before.counters.hits, 1),
            bytes: (before.counters.bytes - 4 * blob.data@.len()) as usize,
            repopulated_bytes: count_up(before.counters.repopulated_bytes, (8 * texels) as u64),
            ..before.counters
        },
        ..before
    })
    &&& match blob.kind {
        BlobKind::Mono { .. } => after.layers == before.layers && after.commands == before.commands,
        BlobKind::ColorV0 { units_per_em, layers } => {
            &&& after.layers == before.layers.insert(id, after.layers[id])
            &&& after.commands == before.commands
            &&& layers_installed(after.layers[id], layers@, start as int, units_per_em)
        },
        BlobKind::ColorV1 { bounds, units_per_em, cmd_texel_count } => {
            &&& after.layers == before.layers
            &&& after.commands == before.commands.insert(
                id,
                ColorV1GlyphEntry { glyph_offset: start, cmd_texel_count, bounds, units_per_em },
            )
        },
    }
}

/// The installed form of one layer.
fn install_layer(layer: &CachedColorLayer, start: u32, units_per_em: F32) -> (r: ColorGlyphLayer)
    requires
        layer.offset matches Some(offset) ==> start + offset <= u32::MAX,
    ensures
        layer_installed(r, *layer, start as int, units_per_em),
{
    let entry: GlyphEntry = match layer.offset {
        Some(offset) => GlyphEntry::new(start + offset, layer.bounds, units_per_em),
        None => GlyphEntry::non_vector(),
    };
    ColorGlyphLayer { entry, color: layer.color, use_foreground: layer.use_foreground }
}

/// The installed form of all layers.
fn install_layers(layers: &Vec<CachedColorLayer>, start: u32, units_per_em: F32, Ghost(len): Ghost<int>) -> (r: ColorGlyphEntry)
    requires
        start + len <= u32::MAX,
        forall|i: int|
            0 <= i < layers@.len() && (#[trigger] layers@[i]).offset is Some ==> layers@[i].offset->0 < len,
    ensures
        layers_installed(r, layers@, start as int, units_per_em),
{
    let n: usize = layers.len();
    let mut out: Vec<ColorGlyphLayer> = Vec::new();
    let mut i: usize = 0;
    while i < n
        invariant
            i <= n,
            n == layers.len(),
            start + len <= u32::MAX,
            forall|i: int|
                0 <= i < layers@.len() && (#[trigger] layers@[i]).offset is Some ==> layers@[i].offset->0 < len,
            out.len() == i,
            forall|j: int| 0 <= j < i ==> layer_installed(#[trigger] out@[j], layers@[j], start as int, units_per_em),
        decreases n - i,
    {
        let layer: &CachedColorLayer = &layers[i];
        assert(layers@[i as int].offset is Some ==> layers@[i as int].offset->0 < len);
        out.push(install_layer(layer, start, units_per_em));
        i = i + 1;
    }
    ColorGlyphEntry { layers: out, units_per_em }
}

impl TextAtlas {
    /// Points a glyph's entries at data that starts at `start`.
    pub(super) fn install_offsets(&mut self, id: u128, start: u32, kind: &BlobKind, Ghost(len): Ghost<int>)
        requires
            old(self).glyphs.wf() && old(self).blob_cache.wf(),
            kind.fits(len),
            start + len <= u32::MAX,
        ensures
            final(self).glyphs.wf() && final(self).blob_cache.wf(),
            offsets_installed(old(self)@, final(self)@, id, start, *kind),
    {
        match kind {
            BlobKind::Mono { .. } => {
                self.glyphs.relocate(id, start);
            },
            BlobKind::ColorV1 { bounds, units_per_em, cmd_texel_count } => {
                map_insert(
                    &mut self.color_v1_glyphs,
                    id,
                    ColorV1GlyphEntry {
                        glyph_offset: start,
                        cmd_texel_count: *cmd_texel_count,
                        bounds: *bounds,
                        units_per_em: *units_per_em,
                    },
                );
            },
            BlobKind::ColorV0 { units_per_em, layers } => {
                let entry: ColorGlyphEntry = install_layers(layers, start, *units_per_em, Ghost(len));
                map_insert(&mut self.color_glyphs, id, entry);
            },
        }
    }

    /// Brings a glyph back from the blob cache, if it is there.
    pub fn restore_cached_glyph(&mut self, key: GlyphKey) -> (r: Result<Option<GlyphEntry>, PrepareError>)
        requires
            old(self).wf(),
            !old(self)@.glyphs.contains_key(key.id()),
        ensures
            final(self).wf(),
            r is Err <==> old(self)@.cached.contains_key(key.id()) && old(self)@.cursor + old(self)@.cached[key.id()].data@.len()
                / 2 > old(self)@.max,
            r is Err ==> r == Err::<Option<GlyphEntry>, PrepareError>(PrepareError::AtlasFull) && final(self)@
                == old(self)@,
            !old(self)@.cached.contains_key(key.id()) ==> r == Ok::<Option<GlyphEntry>, PrepareError>(None)
                && final(self)@ == old(self)@,
            r is Ok && old(self)@.cached.contains_key(key.id()) ==> r->Ok_0 is Some && restored(
                old(self)@,
                final(self)@,
                key.id(),
                r->Ok_0->0,
            ),
    {
        let id: u128 = key.packed();
        let ghost before = self@;
        assert(!before.residents.contains_key(id)) by {
            if before.residents.contains_key(id) {
                assert(before.installed(id));
            }
        }
        let texel_len: u32 = match self.blob_cache.texel_len(id) {
            Some(len) => len,
            None => {
                assert(before.cached.contains_key(id) ==> before.cached[id].wf());
                return Ok(None);
            },
        };
        assert(before.cached[id].wf());
        let new_end: u32 = match self.checked_buffer_end(texel_len) {
            Ok(end) => end,
            Err(_) => {
                return Err(PrepareError::AtlasFull);
            },
        };
        let taken = self.blob_cache.take(id);
        let mut blob: CachedBlob = taken.unwrap();
        let ghost cached = before.cached[id];
        let start: u32 = self.buffer_cursor;
        let mut primary: u32 = texel_len;
        let mut border: Option<ResidentBorderBlob> = None;
        if let Some(b) = &blob.border {
            primary = b.relative_offset;
            border = Some(
                ResidentBorderBlob {
                    start_texel: start + b.relative_offset,
                    texel_len: b.texel_len,
                    ppem_ceiling: b.ppem_ceiling,
                    grid_radius_units: b.grid_radius_units,
                },
            );
            blob.data.set(primary as usize * 2, to_word(start));
        }
        assert(blob.data@ == restored_words(cached, start));
        append_words(&mut self.buffer_data, &blob.data, 0, blob.data.len());
        assert(blob.data@.subrange(0, blob.data@.len() as int) =~= blob.data@);
        self.buffer_cursor = new_end;
        let entry: GlyphEntry = match &blob.kind {
            BlobKind::Mono { bounds, units_per_em } => GlyphEntry::new(start, *bounds, *units_per_em),
            BlobKind::ColorV0 { .. } => GlyphEntry::color_vector(),
            BlobKind::ColorV1 { .. } => GlyphEntry::color_v1_vector(),
        };
        self.install_offsets(id, start, &blob.kind, Ghost(cached.primary_len()));
        map_insert(
            &mut self.resident_blobs,
            id,
            ResidentBlob { start_texel: start, texel_len: primary, kind: blob.kind, border },
        );
        let entry: GlyphEntry = self.glyphs.insert_and_mark_used(key, entry);
        self.blob_cache.add_repopulated_bytes(texel_len as u64 * BYTES_PER_TEXEL);
        proof {
            let after = self@;
            assert(restored(before, after, id, entry));
            let r = restored_resident(cached, start);
            assert(r.inside(after.cursor as int));
            assert(after.installed(id));
            assert(after.buffer_wf());
            lemma_appended(before, after, id, r);
        }
        Ok(Some(entry))
    }
}

/// The words that an outline takes in the atlas.
pub open spec fn outline_data(o: GlyphOutline) -> Seq<i32> {
    let count = band_count(o.curves@.len() as int);
    header_words(o.bounds@, outline_transform(o, count, count), less_one(count), less_one(count)) + outline_words(
        o,
        count,
        count,
    )
}

/// The outline's counters fit, so that its data can be prepared.
pub open spec fn outline_fits(o: GlyphOutline) -> bool {
    let count = band_count(o.curves@.len() as int);
    counters_fit(o, count, count)
}

/// What the layers of a color glyph show; layers without an outline are left
/// out.
pub open spec fn source_models(layers: Seq<ColorLayer>, n: nat) -> Seq<LayerModel>
    decreases n,
{
    if n == 0 {
        Seq::empty()
    } else {
        let before = source_models(layers, (n - 1) as nat);
        let layer = layers[n - 1];
        match layer.outline {
            None => before,
            Some(o) => before.push(
                LayerModel {
                    data: if outline_fits(o) { Some((outline_data(o), o.bounds)) } else { None },
                    color: layer.color,
                    use_foreground: layer.use_foreground,
                },
            ),
        }
    }
}

/// A glyph has been entered as one without vector data.
pub open spec fn entered_as_non_vector(before: AtlasState, after: AtlasState, id: u128, entry: GlyphEntry) -> bool {
    &&& marker_in(entry, NON_VECTOR_OFFSET, before.frame)
    &&& after == (AtlasState { glyphs: before.glyphs.insert(id, entry), ..before })
}

/// An outline has been appended and entered.
pub open spec fn entered_as_outline(
    before: AtlasState,
    after: AtlasState,
    id: u128,
    o: GlyphOutline,
    units_per_em: F32,
    entry: GlyphEntry,
) -> bool {
    let texels = outline_data(o).len() / 2;
    &&& entry == (GlyphEntry {
        glyph_offset: before.cursor,
        bounds: o.bounds,
        units_per_em,
        last_used_epoch: before.frame,
    })
    &&& after == (AtlasState {
        cursor: (before.cursor + texels) as u32,
        words: before.words + outline_data(o),
        residents: before.residents.insert(
            id,
            ResidentBlob {
                start_texel: before.cursor,
                texel_len: texels as u32,
                kind: BlobKind::Mono { bounds: o.bounds, units_per_em },
                border: None,
            },
        ),
        glyphs: before.glyphs.insert(id, entry),
        ..before
    })
}

/// Color layers have been appended and entered.
pub open spec fn entered_as_layers(
    before: AtlasState,
    after: AtlasState,
    id: u128,
    models: Seq<LayerModel>,
    units_per_em: F32,
    entry: GlyphEntry,
) -> bool {
    &&& marker_in(entry, COLOR_VECTOR_OFFSET, before.frame)
    &&& after.glyphs == before.glyphs.insert(id, entry)
    &&& after.layers == before.layers.insert(id, after.layers[id])
    &&& color_v0_committed(
        before,
        AtlasState { glyphs: before.glyphs, layers: before.layers, ..after },
        id,
        models,
        after.layers[id],
        units_per_em,
    )
}

/// Color commands have been appended and entered.
pub open spec fn entered_as_commands(
    before: AtlasState,
    after: AtlasState,
    id: u128,
    v1: ColorV1Data,
    units_per_em: F32,
    entry: GlyphEntry,
) -> bool {
    let e = after.commands[id];
    &&& marker_in(entry, COLOR_V1_VECTOR_OFFSET, before.frame)
    &&& e.glyph_offset == before.cursor
    &&& e.cmd_texel_count == 2 * v1.commands@.len()
    &&& e.bounds@ == union_bounds(v1.sub_glyphs@, v1.sub_glyphs@.len())
    &&& e.units_per_em == units_per_em
    &&& after == (AtlasState {
        cursor: (before.cursor + GLYPH_HEADER_TEXELS + v1_len(v1)) as u32,
        words: before.words + v1_words(v1),
        residents: before.residents.insert(
            id,
            ResidentBlob {
                start_texel: before.cursor,
                texel_len: (GLYPH_HEADER_TEXELS + v1_len(v1)) as u32,
                kind: BlobKind::ColorV1 { bounds: e.bounds, units_per_em, cmd_texel_count: e.cmd_texel_count },
                border: None,
            },
        ),
        glyphs: before.glyphs.insert(id, entry),
        commands: before.commands.insert(id, e),
        ..before
    })
}

/// A glyph that was neither known nor cached has been resolved from what its
/// font has for it. Only an outline that does not fit is an error; color data
/// that does not fit leaves the glyph without vector data.
pub open spec fn resolved_from_source(
    before: AtlasState,
    after: AtlasState,
    id: u128,
    source: GlyphSource,
    units_per_em: F32,
    r: Result<GlyphEntry, PrepareError>,
) -> bool {
    match source {
        GlyphSource::Missing => r is Ok && entered_as_non_vector(before, after, id, r->Ok_0),
        GlyphSource::Outline(o) => if !outline_fits(o) {
            r is Ok && entered_as_non_vector(before, after, id, r->Ok_0)
        } else if outline_data(o).len() / 2 > MAX_BLOB_TEXELS + GLYPH_HEADER_TEXELS || before.cursor + outline_data(
            o,
        ).len() / 2 > before.max {
            r == Err::<GlyphEntry, PrepareError>(PrepareError::AtlasFull) && after == before
        } else {
            r is Ok && entered_as_outline(before, after, id, o, units_per_em, r->Ok_0)
        },
        GlyphSource::V0Layers(layers) => {
            let models = source_models(layers@, layers@.len());
            if models.len() == 0 || !layers_small(models) || before.cursor + layers_len(models, models.len())
                > before.max {
                r is Ok && entered_as_non_vector(before, after, id, r->Ok_0)
            } else {
                r is Ok && entered_as_layers(before, after, id, models, units_per_em, r->Ok_0)
            }
        },
        GlyphSource::V1(v1) => if subs_fit(v1.sub_glyphs@) && targets_fit(v1) && before.cursor + GLYPH_HEADER_TEXELS
            + v1_len(v1) <= before.max {
            r is Ok && entered_as_commands(before, after, id, v1, units_per_em, r->Ok_0)
        } else {
            r is Ok && entered_as_non_vector(before, after, id, r->Ok_0)
        },
    }
}

/// Prepares the layers of a color glyph.
fn prepare_layers(layers: &Vec<ColorLayer>, units_per_em: F32, scratch: &mut crate::prep::PrepScratch) -> (r: Vec<PreparedLayer>)
    ensures
        layers_wf(r@),
        layer_models(r@) == source_models(layers@, layers@.len()),
{
    let n: usize = layers.len();
    let mut out: Vec<PreparedLayer> = Vec::new();
    let mut i: usize = 0;
    assert(layer_models(out@) =~= source_models(layers@, 0));
    while i < n
        invariant
            i <= n,
            n == layers.len(),
            layers_wf(out@),
            layer_models(out@) == source_models(layers@, i as nat),
        decreases n - i,
    {
        match &layers[i].outline {
            None => {},
            Some(outline) => {
                let count: u32 = band_count_for_curves(outline.curves.len());
                let prepared: Option<PreparedMono> = prepare_mono(outline, count, count, units_per_em, scratch);
                let ghost before = out@;
                let layer = PreparedLayer {
                    prepared,
                    color: layers[i].color,
                    use_foreground: layers[i].use_foreground,
                };
                out.push(layer);
                proof {
                    assert(layer_models(out@) =~= layer_models(before).push(layer@));
                    assert(layers@[i as int].outline == Some(*outline));
                }
            },
        }
        i = i + 1;
    }
    out
}

proof fn lemma_described_layers_fit(cached: Seq<CachedColorLayer>, layers: Seq<LayerModel>)
    requires
        layers_describe(cached, layers),
        layers_len(layers, layers.len()) <= u32::MAX,
        forall|i: int| 0 <= i < layers.len() && (#[trigger] layers[i]).data is Some ==> layer_len(layers[i]) > 0,
    ensures
        forall|i: int|
            0 <= i < cached.len() && (#[trigger] cached[i]).offset is Some ==> cached[i].offset->0 < layers_len(
                layers,
                layers.len(),
            ),
{
    assert forall|i: int| 0 <= i < cached.len() && (#[trigger] cached[i]).offset is Some implies cached[i].offset->0
        < layers_len(layers, layers.len()) by {
        assert(layer_describes(cached[i], layers, i));
        lemma_layers_len_monotone(layers, (i + 1) as nat, layers.len());
    }
}

impl TextAtlas {
    /// Enters a glyph without vector data.
    fn enter_non_vector(&mut self, key: GlyphKey) -> (r: GlyphEntry)
        requires
            old(self).wf(),
            !old(self)@.glyphs.contains_key(key.id()),
            !old(self)@.cached.contains_key(key.id()),
        ensures
            final(self).wf(),
            entered_as_non_vector(old(self)@, final(self)@, key.id(), r),
    {
        let ghost before = self@;
        let entry: GlyphEntry = self.glyphs.insert_and_mark_used(key, GlyphEntry::non_vector());
        proof {
            if before.residents.contains_key(key.id()) {
                assert(before.installed(key.id()));
            }
            lemma_entered(before, self@, key.id());
        }
        entry
    }

    fn resolve_outline(&mut self, key: GlyphKey, outline: &GlyphOutline, units_per_em: F32) -> (r: Result<
        GlyphEntry,
        PrepareError,
    >)
        requires
            old(self).wf(),
            !old(self)@.glyphs.contains_key(key.id()),
            !old(self)@.cached.contains_key(key.id()),
        ensures
            final(self).wf(),
            resolved_from_source(old(self)@, final(self)@, key.id(), GlyphSource::Outline(*outline), units_per_em, r),
    {
        let ghost before = self@;
        let ghost id = key.id();
        let count: u32 = band_count_for_curves(outline.curves.len());
        match prepare_mono(outline, count, count, units_per_em, &mut self.prep_scratch) {
            None => Ok(self.enter_non_vector(key)),
            Some(prepared) => {
                assert(mono_words(prepared) == outline_data(*outline));
                match self.commit_mono(key, &prepared) {
                    Err(_) => Err(PrepareError::AtlasFull),
                    Ok(entry) => {
                        let entry: GlyphEntry = self.glyphs.insert_and_mark_used(key, entry);
                        proof {
                            if before.residents.contains_key(id) {
                                assert(before.installed(id));
                            }
                            let after = self@;
                            assert(entered_as_outline(before, after, id, *outline, units_per_em, entry));
                            lemma_appended(before, after, id, after.residents[id]);
                        }
                        Ok(entry)
                    },
                }
            },
        }
    }

    fn resolve_layers(&mut self, key: GlyphKey, layers: &Vec<ColorLayer>, units_per_em: F32, Ghost(source): Ghost<GlyphSource>) -> (r: GlyphEntry)
        requires
            old(self).wf(),
            !old(self)@.glyphs.contains_key(key.id()),
            !old(self)@.cached.contains_key(key.id()),
            source == GlyphSource::V0Layers(*layers),
        ensures
            final(self).wf(),
            resolved_from_source(
                old(self)@,
                final(self)@,
                key.id(),
                source,
                units_per_em,
                Ok::<GlyphEntry, PrepareError>(r),
            ),
    {
        let ghost before = self@;
        let ghost id = key.id();
        let ghost models = source_models(layers@, layers@.len());
        let prepared: Vec<PreparedLayer> = prepare_layers(layers, units_per_em, &mut self.prep_scratch);
        assert(models.len() == prepared@.len());
        if prepared.len() == 0 {
            return self.enter_non_vector(key);
        }
        match self.commit_color_v0(key, &prepared, units_per_em) {
            Err(_) => self.enter_non_vector(key),
            Ok(color) => {
                let ghost mid = self@;
                map_insert(&mut self.color_glyphs, key.packed(), color);
                let entry: GlyphEntry = self.glyphs.insert_and_mark_used(key, GlyphEntry::color_vector());
                proof {
                    if before.residents.contains_key(id) {
                        assert(before.installed(id));
                    }
                    let after = self@;
                    assert(AtlasState { glyphs: before.glyphs, layers: before.layers, ..after } == mid);
                    assert(after.layers[id] == color);
                    lemma_layers_words_len(prepared@, prepared@.len());
                    if layers_len(models, models.len()) == 0 {
                        lemma_entered(before, after, id);
                    } else {
                        let r = after.residents[id];
                        assert forall|i: int| 0 <= i < models.len() && (#[trigger] models[i]).data is Some implies layer_len(
                            models[i],
                        ) > 0 by {
                            assert(models[i] == prepared@[i]@);
                        }
                        lemma_described_layers_fit(r.kind->layers@, models);
                        assert(r.inside(after.cursor as int));
                        assert(after.installed(id));
                        lemma_appended(before, after, id, r);
                    }
                }
                entry
            },
        }
    }

    fn resolve_commands(&mut self, key: GlyphKey, v1: &ColorV1Data, units_per_em: F32) -> (r: GlyphEntry)
        requires
            old(self).wf(),
            !old(self)@.glyphs.contains_key(key.id()),
            !old(self)@.cached.contains_key(key.id()),
        ensures
            final(self).wf(),
            resolved_from_source(
                old(self)@,
                final(self)@,
                key.id(),
                GlyphSource::V1(*v1),
                units_per_em,
                Ok::<GlyphEntry, PrepareError>(r),
            ),
    {
        let ghost before = self@;
        let ghost id = key.id();
        match self.upload_color_v1(key, v1, units_per_em) {
            Err(_) => self.enter_non_vector(key),
            Ok(commands) => {
                map_insert(&mut self.color_v1_glyphs, key.packed(), commands);
                let entry: GlyphEntry = self.glyphs.insert_and_mark_used(key, GlyphEntry::color_v1_vector());
                proof {
                    if before.residents.contains_key(id) {
                        assert(before.installed(id));
                    }
                    let after = self@;
                    assert(after.commands[id] == commands);
                    lemma_v1_words_len(*v1);
                    assert(entered_as_commands(before, after, id, *v1, units_per_em, entry));
                    lemma_appended(before, after, id, after.residents[id]);
                }
                entry
            },
        }
    }

    /// Resolve a glyph: return its resident entry, or restore it, or append what
    /// its font has for it.
    pub fn resolve_glyph(&mut self, key: GlyphKey, source: &GlyphSource, units_per_em: F32) -> (r: Result<
        GlyphEntry,
        PrepareError,
    >)
        requires
            old(self).wf(),
        ensures
            final(self).wf(),
            old(self)@.glyphs.contains_key(key.id()) ==> {
                let used = old(self)@.glyphs[key.id()].used_in(old(self)@.frame);
                &&& r == Ok::<GlyphEntry, PrepareError>(used)
                &&& final(self)@ == (AtlasState { glyphs: old(self)@.glyphs.insert(key.id(), used), ..old(self)@ })
            },
            !old(self)@.glyphs.contains_key(key.id()) && old(self)@.cached.contains_key(key.id()) ==> if old(
                self,
            )@.cursor + old(self)@.cached[key.id()].data@.len() / 2 > old(self)@.max {
                r == Err::<GlyphEntry, PrepareError>(PrepareError::AtlasFull) && final(self)@ == old(self)@
            } else {
                r is Ok && restored(old(self)@, final(self)@, key.id(), r->Ok_0)
            },
            !old(self)@.glyphs.contains_key(key.id()) && !old(self)@.cached.contains_key(key.id()) ==> resolved_from_source(
                old(self)@,
                final(self)@,
                key.id(),
                *source,
                units_per_em,
                r,
            ),
    {
        if let Some(entry) = self.glyph_mark_used(&key) {
            return Ok(entry);
        }
        match self.restore_cached_glyph(key) {
            Err(_) => {
                return Err(PrepareError::AtlasFull);
            },
            Ok(Some(entry)) => {
                return Ok(entry);
            },
            Ok(None) => {},
        }
        match source {
            GlyphSource::Missing => Ok(self.enter_non_vector(key)),
            GlyphSource::Outline(outline) => self.resolve_outline(key, outline, units_per_em),
            GlyphSource::V0Layers(layers) => Ok(self.resolve_layers(key, layers, units_per_em, Ghost(*source))),
            GlyphSource::V1(v1) => Ok(self.resolve_commands(key, v1, units_per_em)),
        }
    }

    /// Whether resolving a glyph needs nothing from its font.
    pub fn is_known(&self, key: &GlyphKey) -> (r: bool)
        requires
            self.wf(),
        ensures
            r == (self@.glyphs.contains_key(key.id()) || self@.cached.contains_key(key.id())),
    {
        proof {
            assert(self@.cached.contains_key(key.id()) ==> self@.cached[key.id()].wf());
        }
        self.glyphs.contains_key(key) || self.blob_cache.texel_len(key.packed()).is_some()
    }
}

proof fn lemma_v1_words_len(v1: ColorV1Data)
    ensures
        v1_words(v1).len() == 2 * (GLYPH_HEADER_TEXELS + v1_len(v1)),
{
    lemma_commands_words_len(v1.commands@, v1.sub_glyphs@, 2 * v1.commands@.len() as int, v1.commands@.len());
    lemma_subs_words_len(v1.sub_glyphs@, v1.sub_glyphs@.len());
}

proof fn lemma_subs_words_len(subs: Seq<GlyphOutline>, n: nat)
    ensures
        subs_words(subs, n).len() == 2 * subs_len(subs, n),
    decreases n,
{
    if n > 0 {
        lemma_subs_words_len(subs, (n - 1) as nat);
        reveal(sub_words);
        lemma_outline_words_even(subs[n - 1]);
    }
}

proof fn lemma_outline_words_even(o: GlyphOutline)
    ensures
        outline_words(o, band_count(o.curves@.len() as int), band_count(o.curves@.len() as int)).len() % 2 == 0,
{
    crate::prep::lemma_outline_words_even(o, band_count(o.curves@.len() as int), band_count(o.curves@.len() as int));
}

}
