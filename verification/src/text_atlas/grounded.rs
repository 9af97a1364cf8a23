//! Every glyph that is drawn from the buffer has its data there.
use vstd::prelude::*;
use crate::blob_cache::BlobKind;
use crate::border::prepare::PreparedBorder;
use crate::float32::F32;
use crate::glyph_cache::{COLOR_V1_VECTOR_OFFSET, COLOR_VECTOR_OFFSET, GlyphEntry, NON_VECTOR_OFFSET, monochrome};
use crate::outline::{ColorLayer, GlyphOutline, GlyphSource};
use crate::text_atlas::{AtlasState, layer_installed};
use crate::text_atlas::border_blob::border_resolved;
use crate::text_atlas::commit::{
    LayerModel, entered_as_layers, layer_len, layers_len, outline_data, prepared_installed, resolved_from_source,
    restored, source_models,
};
use crate::text_atlas::compaction::compacted;
use crate::text_atlas::laws::law_compaction_keeps_live_data;
use crate::types::PrepareError;

verus! {

/// What a known glyph is drawn from is resident.
pub open spec fn glyph_grounded(s: AtlasState, id: u128) -> bool {
    let entry = s.glyphs[id];
    &&& monochrome(entry) ==> s.residents.contains_key(id)
    &&& entry.glyph_offset == COLOR_V1_VECTOR_OFFSET && s.commands.contains_key(id) ==> s.residents.contains_key(id)
    &&& entry.glyph_offset == COLOR_VECTOR_OFFSET && s.layers.contains_key(id) ==> s.residents.contains_key(id)
        || forall|i: int|
        0 <= i < s.layers[id].layers@.len() ==> (#[trigger] s.layers[id].layers@[i]).entry.glyph_offset
            == NON_VECTOR_OFFSET
}

/// What every known glyph is drawn from is resident.
pub open spec fn grounded(s: AtlasState) -> bool {
    forall|id: u128| #[trigger] s.glyphs.contains_key(id) ==> glyph_grounded(s, id)
}

/// Marking a glyph used keeps the atlas grounded.
pub proof fn law_marking_keeps_grounded(before: AtlasState, after: AtlasState, id: u128)
    requires
        grounded(before),
        before.glyphs.contains_key(id),
        after == (AtlasState {
            glyphs: before.glyphs.insert(id, before.glyphs[id].used_in(before.frame)),
            ..before
        }),
    ensures
        grounded(after),
{
    assert forall|k: u128| #[trigger] after.glyphs.contains_key(k) implies glyph_grounded(after, k) by {
        assert(before.glyphs.contains_key(k));
        assert(glyph_grounded(before, k));
    }
}

proof fn lemma_models_have_data(layers: Seq<ColorLayer>, n: nat)
    ensures
        forall|i: int|
            0 <= i < source_models(layers, n).len() ==> ((#[trigger] source_models(layers, n)[i]).data is Some
                ==> layer_len(source_models(layers, n)[i]) > 0),
    decreases n,
{
    if n > 0 {
        lemma_models_have_data(layers, (n - 1) as nat);
        if let Some(o) = layers[n - 1].outline {
            assert(outline_data(o).len() >= 10);
        }
    }
}

proof fn lemma_total_covers(models: Seq<LayerModel>, i: int, n: nat)
    requires
        0 <= i < n <= models.len(),
    ensures
        layers_len(models, n) >= layer_len(models[i]),
    decreases n,
{
    if i < n - 1 {
        lemma_total_covers(models, i, (n - 1) as nat);
    }
}

proof fn lemma_layers_grounded(
    before: AtlasState,
    after: AtlasState,
    id: u128,
    models: Seq<LayerModel>,
    units_per_em: F32,
    entry: GlyphEntry,
)
    requires
        entered_as_layers(before, after, id, models, units_per_em, entry),
        forall|i: int| 0 <= i < models.len() ==> ((#[trigger] models[i]).data is Some ==> layer_len(models[i]) > 0),
    ensures
        glyph_grounded(after, id),
        forall|k: u128| k != id ==> #[trigger] after.residents.contains_key(k) == before.residents.contains_key(k),
        after.commands == before.commands,
{
    let total = layers_len(models, models.len());
    let layers = after.layers[id].layers@;
    if total == 0 {
        assert forall|i: int| 0 <= i < layers.len() implies (#[trigger] layers[i]).entry.glyph_offset
            == NON_VECTOR_OFFSET by {
            assert(prepared_installed(layers[i], models, i, before.cursor as int, units_per_em));
            lemma_total_covers(models, i, models.len());
        }
    }
}

/// Resolving a glyph from its font keeps the atlas grounded.
pub proof fn law_resolving_keeps_grounded(
    before: AtlasState,
    after: AtlasState,
    id: u128,
    source: GlyphSource,
    units_per_em: F32,
    r: Result<GlyphEntry, PrepareError>,
)
    requires
        grounded(before),
        resolved_from_source(before, after, id, source, units_per_em, r),
    ensures
        grounded(after),
{
    if let GlyphSource::V0Layers(layers) = source {
        let models = source_models(layers@, layers@.len());
        lemma_models_have_data(layers@, layers@.len());
        if r is Ok && entered_as_layers(before, after, id, models, units_per_em, r->Ok_0) {
            lemma_layers_grounded(before, after, id, models, units_per_em, r->Ok_0);
        }
    }
    assert forall|k: u128| #[trigger] after.glyphs.contains_key(k) implies glyph_grounded(after, k) by {
        if k != id {
            assert(before.glyphs.contains_key(k));
            assert(glyph_grounded(before, k));
        }
    }
}

/// Restoring a glyph from the blob cache keeps the atlas grounded.
pub proof fn law_restoring_keeps_grounded(before: AtlasState, after: AtlasState, id: u128, entry: GlyphEntry)
    requires
        grounded(before),
        restored(before, after, id, entry),
    ensures
        grounded(after),
{
    assert forall|k: u128| #[trigger] after.glyphs.contains_key(k) implies glyph_grounded(after, k) by {
        if k != id {
            assert(before.glyphs.contains_key(k));
            assert(glyph_grounded(before, k));
        }
    }
}

/// Building a border keeps the atlas grounded.
pub proof fn law_borders_keep_grounded(
    before: AtlasState,
    after: AtlasState,
    id: u128,
    outline: GlyphOutline,
    ppem: F32,
    radius_units: F32,
    b: PreparedBorder,
    r: Result<u32, PrepareError>,
)
    requires
        grounded(before),
        border_resolved(before, after, id, outline, ppem, radius_units, b, r),
    ensures
        grounded(after),
{
    assert forall|k: u128| #[trigger] after.glyphs.contains_key(k) implies glyph_grounded(after, k) by {
        assert(before.glyphs.contains_key(k));
        assert(glyph_grounded(before, k));
    }
}

/// A compaction keeps the atlas grounded.
pub proof fn law_compaction_keeps_grounded(before: AtlasState, after: AtlasState)
    requires
        before.wf(),
        after.wf(),
        grounded(before),
        compacted(before, after),
    ensures
        grounded(after),
{
    assert forall|k: u128| #[trigger] after.glyphs.contains_key(k) implies glyph_grounded(after, k) by {
        assert(before.live(k));
        assert(before.glyphs.contains_key(k));
        assert(glyph_grounded(before, k));
        if before.residents.contains_key(k) {
            law_compaction_keeps_live_data(before, after, k);
        } else if !after.residents.contains_key(k) {
            assert(after.layers.contains_key(k) == before.layers.contains_key(k));
            assert(after.commands.contains_key(k) == before.commands.contains_key(k));
        }
    }
}

/// The data of two glyphs is never confused: where an outline in one color starts,
/// neither the commands nor a layer of a color glyph do.
pub proof fn law_data_is_never_confused(s: AtlasState, mono: u128, color: u128, offset: u32)
    requires
        s.wf(),
        grounded(s),
        s.max < COLOR_V1_VECTOR_OFFSET,
        s.glyphs.contains_key(mono),
        monochrome(s.glyphs[mono]),
        s.glyphs.contains_key(color),
        offset != NON_VECTOR_OFFSET,
        ({
            ||| s.glyphs[color].glyph_offset == COLOR_V1_VECTOR_OFFSET && s.commands.contains_key(color)
                && s.commands[color].glyph_offset == offset
            ||| s.glyphs[color].glyph_offset == COLOR_VECTOR_OFFSET && s.layers.contains_key(color) && exists|i: int|
                0 <= i < s.layers[color].layers@.len() && (#[trigger] s.layers[color].layers@[i]).entry.glyph_offset
                    == offset
        }),
    ensures
        s.glyphs[mono].glyph_offset != offset,
{
    assert(glyph_grounded(s, mono));
    assert(glyph_grounded(s, color));
    assert(mono != color);
    assert(s.residents.contains_key(mono));
    assert(s.residents.contains_key(color));
    assert(s.installed(mono) && s.installed(color));
    let m = s.residents[mono];
    let c = s.residents[color];
    assert(m.inside(s.cursor as int) && c.inside(s.cursor as int));
    assert(m.apart(c));
    match c.kind {
        BlobKind::ColorV0 { units_per_em, layers } => {
            if s.glyphs[color].glyph_offset == COLOR_VECTOR_OFFSET && s.layers.contains_key(color) {
                let i = choose|i: int|
                    0 <= i < s.layers[color].layers@.len() && (#[trigger] s.layers[color].layers@[i]).entry.glyph_offset
                        == offset;
                assert(layer_installed(
                    s.layers[color].layers@[i],
                    layers@[i],
                    c.start_texel as int,
                    units_per_em,
                ));
                assert(layers@[i].offset is Some);
                assert(layers@[i].offset->0 < c.texel_len);
            }
        },
        _ => {},
    }
}

}
