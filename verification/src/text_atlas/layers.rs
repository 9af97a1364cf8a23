//! Where the parts of color glyphs stand, and what they cover.
use vstd::prelude::*;
use crate::float32::{F32, f_le};
use crate::glyph_cache::{ColorGlyphEntry, NON_VECTOR_OFFSET};
use crate::outline::{ColorV1Data, GlyphOutline};
use crate::text_atlas::commit::{
    LayerModel, color_v0_committed, joined_bounds, layers_len, layers_words, prepared_installed, union_bounds, v1_words,
    zero_floats,
};
use crate::text_atlas::readback::{lemma_header, reads_values, stands_at};
use crate::text_atlas::{AtlasState, header_words};

verus! {

/// The data of every layer is whole texels.
pub open spec fn whole_layers(layers: Seq<LayerModel>) -> bool {
    forall|i: int| 0 <= i < layers.len() ==> ((#[trigger] layers[i]).data matches Some(d) ==> d.0.len() % 2 == 0)
}

proof fn lemma_layer_at(layers: Seq<LayerModel>, n: nat, k: int)
    requires
        0 <= k < n <= layers.len(),
        whole_layers(layers),
        layers[k].data is Some,
    ensures
        layers_words(layers, n).len() == 2 * layers_len(layers, n),
        stands_at(layers_words(layers, n), layers_len(layers, k as nat) as int, (layers[k].data->0).0),
    decreases n,
{
    lemma_layers_words_len(layers, n);
    lemma_layers_words_len(layers, (n - 1) as nat);
    let all = layers_words(layers, n);
    let before = layers_words(layers, (n - 1) as nat);
    let start = 2 * layers_len(layers, k as nat) as int;
    let part = (layers[k].data->0).0;
    let end = start + part.len();
    assert(layers[k].data is Some);
    if k < n - 1 {
        lemma_layer_at(layers, (n - 1) as nat, k);
        assert(all.subrange(start, end) =~= before.subrange(start, end));
    } else {
        assert(all.subrange(start, end) =~= part);
    }
}

proof fn lemma_layers_words_len(layers: Seq<LayerModel>, n: nat)
    requires
        n <= layers.len(),
        whole_layers(layers),
    ensures
        layers_words(layers, n).len() == 2 * layers_len(layers, n),
    decreases n,
{
    if n > 0 {
        lemma_layers_words_len(layers, (n - 1) as nat);
        assert(layers[n - 1].data is Some ==> (layers[n - 1].data->0).0.len() % 2 == 0);
    }
}

/// The layers of a color glyph lead to what they show: a layer's entry names the texel
/// where its data stands, with its own bounds and color, and a layer without data names
/// none.
pub proof fn law_layers_lead_to_their_data(
    before: AtlasState,
    after: AtlasState,
    id: u128,
    layers: Seq<LayerModel>,
    entry: ColorGlyphEntry,
    units_per_em: F32,
    i: int,
)
    requires
        color_v0_committed(before, after, id, layers, entry, units_per_em),
        whole_layers(layers),
        before.words.len() == 2 * before.cursor,
        before.cursor + layers_len(layers, layers.len()) <= u32::MAX,
        0 <= i < layers.len(),
    ensures
        ({
            let layer = entry.layers@[i];
            &&& layer.color == layers[i].color
            &&& layer.use_foreground == layers[i].use_foreground
            &&& match layers[i].data {
                Some(data) => {
                    &&& stands_at(after.words, layer.entry.glyph_offset as int, data.0)
                    &&& layer.entry.bounds == data.1
                    &&& layer.entry.units_per_em == units_per_em
                },
                None => layer.entry.glyph_offset == NON_VECTOR_OFFSET,
            }
        }),
{
    let n = layers.len();
    assert(prepared_installed(entry.layers@[i], layers, i, before.cursor as int, units_per_em));
    if layers[i].data is Some {
        let part = (layers[i].data->0).0;
        lemma_layers_words_len(layers, n);
        lemma_layer_at(layers, n, i);
        let all = layers_words(layers, n);
        let at = layers_len(layers, i as nat) as int;
        assert(after.words =~= before.words + all);
        assert(after.words.subrange(2 * (before.cursor + at), 2 * (before.cursor + at) + part.len()) =~= part) by {
            assert forall|k: int| 0 <= k < part.len() implies after.words[2 * (before.cursor + at) + k] == part[k] by {
                assert(all.subrange(2 * at, 2 * at + part.len())[k] == part[k]);
            }
        }
    }
}

/// A box lies in another (left, bottom, right, top).
pub open spec fn box_within(b: Seq<F32>, outer: Seq<F32>) -> bool {
    f_le(outer[0], b[0]) && f_le(outer[1], b[1]) && f_le(b[2], outer[2]) && f_le(b[3], outer[3])
}

pub open spec fn finite_box(o: GlyphOutline) -> bool {
    o.bounds@[0].finite() && o.bounds@[1].finite() && o.bounds@[2].finite() && o.bounds@[3].finite()
}

proof fn lemma_union(subs: Seq<GlyphOutline>, n: nat)
    requires
        n <= subs.len(),
        forall|j: int| 0 <= j < n ==> finite_box(#[trigger] subs[j]),
    ensures
        union_bounds(subs, n).len() == 4,
        forall|k: int| 0 <= k < 4 ==> (#[trigger] union_bounds(subs, n)[k]).finite(),
        forall|j: int| 0 <= j < n ==> box_within((#[trigger] subs[j]).bounds@, union_bounds(subs, n)),
        n > 0 ==> forall|k: int|
            0 <= k < 4 ==> exists|j: int|
                0 <= j < n && (#[trigger] subs[j]).bounds@[k] == (#[trigger] union_bounds(subs, n)[k]),
    decreases n,
{
    if n > 0 {
        lemma_union(subs, (n - 1) as nat);
        reveal(joined_bounds);
        assert(finite_box(subs[n - 1]));
        let before = union_bounds(subs, (n - 1) as nat);
        let u = union_bounds(subs, n);
        assert(before[0].finite() && before[1].finite() && before[2].finite() && before[3].finite());
        assert forall|j: int| 0 <= j < n implies box_within((#[trigger] subs[j]).bounds@, u) by {
            if j < n - 1 {
                assert(box_within(subs[j].bounds@, before));
            }
        }
        assert forall|k: int| 0 <= k < 4 implies exists|j: int|
            0 <= j < n && (#[trigger] subs[j]).bounds@[k] == (#[trigger] u[k]) by {
            if u[k] == subs[n - 1].bounds@[k] {
            } else {
                assert(u[k] == before[k]);
                if n > 1 {
                    let j = choose|j: int| 0 <= j < n - 1 && (#[trigger] subs[j]).bounds@[k] == before[k];
                    assert(subs[j].bounds@[k] == u[k]);
                } else {
                    assert(u[k] == subs[n - 1].bounds@[k]);
                }
            }
        }
    }
}

/// The header of a command glyph holds the least box around all the outlines that it draws
/// from: it holds every one of them, and each of its sides is a side of one.
pub proof fn law_command_glyphs_hold_their_outlines(words: Seq<i32>, texel: int, v1: ColorV1Data)
    requires
        stands_at(words, texel, v1_words(v1)),
        v1.sub_glyphs@.len() > 0,
        forall|j: int| 0 <= j < v1.sub_glyphs@.len() ==> finite_box(#[trigger] v1.sub_glyphs@[j]),
    ensures
        exists|b: Seq<F32>| #[trigger]
            reads_values(words, 2 * texel, b) && (forall|j: int|
                0 <= j < v1.sub_glyphs@.len() ==> box_within((#[trigger] v1.sub_glyphs@[j]).bounds@, b)) && (forall|k: int|
                0 <= k < 4 ==> exists|j: int|
                    0 <= j < v1.sub_glyphs@.len() && (#[trigger] v1.sub_glyphs@[j]).bounds@[k] == (#[trigger] b[k])),
{
    let subs = v1.sub_glyphs@;
    let n = subs.len();
    lemma_union(subs, n);
    let b = union_bounds(subs, n);
    let head = header_words(b, zero_floats(), 0, 0);
    lemma_header(head, b, zero_floats(), 0, 0);
    let part = v1_words(v1);
    assert forall|i: int| 0 <= i < 10 implies words[2 * texel + i] == #[trigger] head[i] by {
        assert(words.subrange(2 * texel, 2 * texel + part.len())[i] == part[i]);
        assert(part[i] == head[i]);
    }
    assert(words[2 * texel] == head[0] && words[2 * texel + 1] == head[1]);
    assert(words[2 * texel + 2] == head[2] && words[2 * texel + 3] == head[3]);
    assert(reads_values(words, 2 * texel, b));
}

}
