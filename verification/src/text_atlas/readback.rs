//! Glyphs in the atlas, read as the shader reads them.
use vstd::prelude::*;
use crate::float32::F32;
use crate::outline::{ColorV1Data, GlyphOutline};
use crate::packing::wrap16;
use crate::prep::laws::{fits_lanes_of_blob, glyph_reads_back, lemma_outline_reads_back, outline_stands_at};
use crate::prep::{PreparedMono, is_mono_of, outline_transform, outline_words};
use crate::readback::{lane_bits, lemma_bits_word, lemma_pair_word, word_at};
use crate::text_atlas::commit::{
    commands_words, draw_target, draws, fixed_command, lemma_commands_words_len, less_one, mono_words, outline_data,
    sub_words, subs_len, subs_words, targets_fit, union_bounds, v1_words, zero_floats,
};
use crate::text_atlas::{band_count, header_words};

verus! {

/// The words of a part stand from a texel on.
pub open spec fn stands_at(words: Seq<i32>, texel: int, part: Seq<i32>) -> bool {
    &&& 0 <= texel
    &&& 2 * texel + part.len() <= words.len()
    &&& words.subrange(2 * texel, 2 * texel + part.len()) == part
}

/// Four words are the patterns of four values.
pub open spec fn reads_values(words: Seq<i32>, i: int, values: Seq<F32>) -> bool {
    &&& values.len() == 4
    &&& word_at(words, i) == values[0].bits
    &&& word_at(words, i + 1) == values[1].bits
    &&& word_at(words, i + 2) == values[2].bits
    &&& word_at(words, i + 3) == values[3].bits
}

/// A glyph in the atlas can be read from its offset alone: its header holds its bounds,
/// the transform of its bands and how many bands there are, less one, and behind the
/// header's five texels stand its bands and curves.
pub open spec fn glyph_stands_at(words: Seq<i32>, texel: int, o: GlyphOutline) -> bool {
    let columns = (lane_bits(words, texel + 4, 0) + 1) as u32;
    let rows = (lane_bits(words, texel + 4, 1) + 1) as u32;
    &&& reads_values(words, 2 * texel, o.bounds@)
    &&& exists|t: Seq<F32>| #[trigger]
        reads_values(words, 2 * texel + 4, t) && glyph_reads_back(words, texel + 5, t, columns, rows, o.curves@)
}

proof fn lemma_inner(words: Seq<i32>, texel: int, part: Seq<i32>)
    requires
        stands_at(words, texel, part),
    ensures
        forall|i: int| 0 <= i < part.len() ==> words[2 * texel + i] == #[trigger] part[i],
{
    assert forall|i: int| 0 <= i < part.len() implies words[2 * texel + i] == #[trigger] part[i] by {
        assert(words.subrange(2 * texel, 2 * texel + part.len())[i] == part[i]);
    }
}

/// What is entered for an outline can be read back wherever it stands.
pub proof fn law_outlines_in_the_atlas_read_back(words: Seq<i32>, texel: int, o: GlyphOutline)
    requires
        stands_at(words, texel, outline_data(o)),
        fits_lanes_of_blob(o, band_count(o.curves@.len() as int), band_count(o.curves@.len() as int)),
    ensures
        glyph_stands_at(words, texel, o),
{
    let count = band_count(o.curves@.len() as int);
    lemma_glyph_at(words, texel, o, count, count);
}

/// What is entered for a prepared outline, with any numbers of bands, can be read back
/// wherever it stands.
pub proof fn law_prepared_glyphs_read_back(
    words: Seq<i32>,
    texel: int,
    p: PreparedMono,
    o: GlyphOutline,
    columns: u32,
    rows: u32,
    units_per_em: F32,
)
    requires
        is_mono_of(p, o, columns, rows, units_per_em),
        stands_at(words, texel, mono_words(p)),
        0 < columns <= 0x8000,
        0 < rows <= 0x8000,
        fits_lanes_of_blob(o, columns, rows),
    ensures
        glyph_stands_at(words, texel, o),
        lane_bits(words, texel + 4, 0) + 1 == columns,
        lane_bits(words, texel + 4, 1) + 1 == rows,
{
    lemma_glyph_at(words, texel, o, columns, rows);
}

proof fn lemma_glyph_at(words: Seq<i32>, texel: int, o: GlyphOutline, columns: u32, rows: u32)
    requires
        stands_at(
            words,
            texel,
            header_words(o.bounds@, outline_transform(o, columns, rows), less_one(columns), less_one(rows))
                + outline_words(o, columns, rows),
        ),
        0 < columns <= 0x8000,
        0 < rows <= 0x8000,
        fits_lanes_of_blob(o, columns, rows),
    ensures
        glyph_stands_at(words, texel, o),
        lane_bits(words, texel + 4, 0) + 1 == columns,
        lane_bits(words, texel + 4, 1) + 1 == rows,
{
    let t = outline_transform(o, columns, rows);
    assert(t.len() == 4) by {
        reveal(outline_transform);
    }
    let head = header_words(o.bounds@, t, less_one(columns), less_one(rows));
    let body = outline_words(o, columns, rows);
    let part = head + body;
    lemma_inner(words, texel, part);
    lemma_header(head, o.bounds@, t, less_one(columns), less_one(rows));
    assert forall|i: int| 0 <= i < 10 implies words[2 * texel + i] == #[trigger] head[i] by {
        assert(part[i] == head[i]);
    }
    assert(words[2 * texel] == head[0] && words[2 * texel + 1] == head[1] && words[2 * texel + 2] == head[2]);
    assert(words[2 * texel + 3] == head[3] && words[2 * texel + 4] == head[4] && words[2 * texel + 5] == head[5]);
    assert(words[2 * texel + 6] == head[6] && words[2 * texel + 7] == head[7] && words[2 * texel + 8] == head[8]);
    assert(words.subrange(2 * (texel + 5), 2 * (texel + 5) + body.len()) =~= body) by {
        assert forall|i: int| 0 <= i < body.len() implies words[2 * (texel + 5) + i] == body[i] by {
            assert(part[10 + i] == body[i]);
        }
    }
    assert(outline_stands_at(words, texel + 5, o, columns, rows));
    lemma_outline_reads_back(words, texel + 5, o, columns, rows);
    assert(reads_values(words, 2 * texel + 4, t));
}

pub proof fn lemma_header(head: Seq<i32>, bounds: Seq<F32>, t: Seq<F32>, across: u32, up: u32)
    requires
        head == header_words(bounds, t, across, up),
        across < 0x8000,
        up < 0x8000,
    ensures
        head.len() == 10,
        head[0] as int % 0x1_0000_0000 == bounds[0].bits,
        head[1] as int % 0x1_0000_0000 == bounds[1].bits,
        head[2] as int % 0x1_0000_0000 == bounds[2].bits,
        head[3] as int % 0x1_0000_0000 == bounds[3].bits,
        head[4] as int % 0x1_0000_0000 == t[0].bits,
        head[5] as int % 0x1_0000_0000 == t[1].bits,
        head[6] as int % 0x1_0000_0000 == t[2].bits,
        head[7] as int % 0x1_0000_0000 == t[3].bits,
        (head[8] as int % 0x1_0000_0000) % 0x1_0000 == across,
        (head[8] as int % 0x1_0000_0000) / 0x1_0000 == up,
{
    lemma_bits_word(bounds[0].bits);
    lemma_bits_word(bounds[1].bits);
    lemma_bits_word(bounds[2].bits);
    lemma_bits_word(bounds[3].bits);
    lemma_bits_word(t[0].bits);
    lemma_bits_word(t[1].bits);
    lemma_bits_word(t[2].bits);
    lemma_bits_word(t[3].bits);
    lemma_pair_word(wrap16(across as int) as i16, wrap16(up as int) as i16);
}

/// A sub-glyph can be read from its offset alone: three texels hold how many bands there
/// are, less one, and their transform, and behind them stand its bands and curves.
pub open spec fn sub_glyph_stands_at(words: Seq<i32>, texel: int, o: GlyphOutline) -> bool {
    let columns = (lane_bits(words, texel, 0) + 1) as u32;
    let rows = (lane_bits(words, texel, 1) + 1) as u32;
    exists|t: Seq<F32>| #[trigger]
        reads_values(words, 2 * texel + 2, t) && glyph_reads_back(words, texel + 3, t, columns, rows, o.curves@)
}

proof fn lemma_sub_glyph(words: Seq<i32>, texel: int, o: GlyphOutline)
    requires
        stands_at(words, texel, sub_words(o)),
        fits_lanes_of_blob(o, band_count(o.curves@.len() as int), band_count(o.curves@.len() as int)),
    ensures
        sub_glyph_stands_at(words, texel, o),
{
    reveal(sub_words);
    let count = band_count(o.curves@.len() as int);
    let t = outline_transform(o, count, count);
    assert(t.len() == 4) by {
        reveal(outline_transform);
    }
    let part = sub_words(o);
    let body = outline_words(o, count, count);
    let top = (count - 1) as i16;
    lemma_inner(words, texel, part);
    lemma_bits_word(t[0].bits);
    lemma_bits_word(t[1].bits);
    lemma_bits_word(t[2].bits);
    lemma_bits_word(t[3].bits);
    lemma_pair_word(top, top);
    assert(words[2 * texel] == part[0] && words[2 * texel + 2] == part[2] && words[2 * texel + 3] == part[3]);
    assert(words[2 * texel + 4] == part[4] && words[2 * texel + 5] == part[5]);
    assert(words.subrange(2 * (texel + 3), 2 * (texel + 3) + body.len()) =~= body) by {
        assert forall|i: int| 0 <= i < body.len() implies words[2 * (texel + 3) + i] == body[i] by {
            assert(part[6 + i] == body[i]);
        }
    }
    assert(outline_stands_at(words, texel + 3, o, count, count));
    lemma_outline_reads_back(words, texel + 3, o, count, count);
    assert(reads_values(words, 2 * texel + 2, t));
}

proof fn lemma_sub_words_at(subs: Seq<GlyphOutline>, n: nat, k: int)
    requires
        0 <= k < n <= subs.len(),
        forall|i: int| 0 <= i < subs.len() ==> sub_words(#[trigger] subs[i]).len() % 2 == 0,
    ensures
        subs_words(subs, n).len() == 2 * subs_len(subs, n),
        subs_len(subs, k as nat) + sub_words(subs[k]).len() / 2 <= subs_len(subs, n),
        subs_words(subs, n).subrange(
            2 * subs_len(subs, k as nat) as int,
            (2 * subs_len(subs, k as nat) + sub_words(subs[k]).len()) as int,
        ) == sub_words(subs[k]),
    decreases n,
{
    let all = subs_words(subs, n);
    let before = subs_words(subs, (n - 1) as nat);
    let last = sub_words(subs[n - 1]);
    lemma_subs_words_len(subs, (n - 1) as nat);
    let start = 2 * subs_len(subs, k as nat) as int;
    let end = start + sub_words(subs[k]).len();
    if k < n - 1 {
        lemma_sub_words_at(subs, (n - 1) as nat, k);
        assert(all.subrange(start, end) =~= before.subrange(start, end));
    } else {
        assert(all.subrange(start, end) =~= last);
    }
}

proof fn lemma_subs_words_len(subs: Seq<GlyphOutline>, n: nat)
    requires
        n <= subs.len(),
        forall|i: int| 0 <= i < subs.len() ==> sub_words(#[trigger] subs[i]).len() % 2 == 0,
    ensures
        subs_words(subs, n).len() == 2 * subs_len(subs, n),
    decreases n,
{
    if n > 0 {
        lemma_subs_words_len(subs, (n - 1) as nat);
    }
}

proof fn lemma_sub_words_even(o: GlyphOutline)
    ensures
        sub_words(o).len() % 2 == 0,
{
    reveal(sub_words);
    let count = band_count(o.curves@.len() as int);
    crate::prep::lemma_outline_words_even(o, count, count);
}

proof fn lemma_command_at(commands: Seq<[i32; 4]>, subs: Seq<GlyphOutline>, cmd_texels: int, n: nat, k: int)
    requires
        0 <= k < n <= commands.len(),
    ensures
        commands_words(commands, subs, cmd_texels, n).len() == 4 * n,
        commands_words(commands, subs, cmd_texels, n).subrange(4 * k, 4 * k + 4) == fixed_command(
            commands[k],
            subs,
            cmd_texels,
        ),
    decreases n,
{
    lemma_commands_words_len(commands, subs, cmd_texels, n);
    lemma_commands_words_len(commands, subs, cmd_texels, (n - 1) as nat);
    let all = commands_words(commands, subs, cmd_texels, n);
    let before = commands_words(commands, subs, cmd_texels, (n - 1) as nat);
    let c = fixed_command(commands[k], subs, cmd_texels);
    if k < n - 1 {
        lemma_command_at(commands, subs, cmd_texels, (n - 1) as nat, k);
        assert(all.subrange(4 * k, 4 * k + 4) =~= before.subrange(4 * k, 4 * k + 4));
    } else {
        assert(all.subrange(4 * k, 4 * k + 4) =~= c);
    }
}

/// A command glyph's draws lead to what they draw: the words of a command stand two
/// texels apart behind the header, with nothing changed but which outline is drawn, and
/// that is named by where the outline stands, counted from the first command.
pub proof fn law_commands_lead_to_their_outlines(words: Seq<i32>, texel: int, v1: ColorV1Data, i: int)
    requires
        stands_at(words, texel, v1_words(v1)),
        targets_fit(v1),
        0 <= i < v1.commands@.len(),
        ({
            let c = v1.commands@[i];
            draws(c, v1.sub_glyphs@.len() as int) ==> {
                let o = v1.sub_glyphs@[c[1] as int];
                fits_lanes_of_blob(o, band_count(o.curves@.len() as int), band_count(o.curves@.len() as int))
            }
        }),
    ensures
        ({
            let c = v1.commands@[i];
            let first = 2 * (texel + 5);
            let at = first + 4 * i;
            &&& words[at] == c[0]
            &&& words[at + 2] == c[2]
            &&& words[at + 3] == c[3]
            &&& if draws(c, v1.sub_glyphs@.len() as int) {
                sub_glyph_stands_at(words, texel + 5 + words[at + 1], v1.sub_glyphs@[c[1] as int])
            } else {
                words[at + 1] == c[1]
            }
        }),
{
    let subs = v1.sub_glyphs@;
    let n = v1.commands@.len();
    let texels = 2 * n as int;
    let part = v1_words(v1);
    let head = header_words(union_bounds(subs, subs.len()), zero_floats(), 0, 0);
    let commands = commands_words(v1.commands@, subs, texels, n);
    let blobs = subs_words(subs, subs.len());
    lemma_command_at(v1.commands@, subs, texels, n, i);
    lemma_inner(words, texel, part);
    let c = v1.commands@[i];
    let fixed = fixed_command(c, subs, texels);
    let at = 2 * (texel + 5) + 4 * i;
    assert forall|k: int| 0 <= k < 4 implies words[at + k] == #[trigger] fixed[k] by {
        assert(commands.subrange(4 * i, 4 * i + 4)[k] == commands[4 * i + k]);
        assert(part[10 + 4 * i + k] == commands[4 * i + k]);
    }
    assert(words[at + 0] == fixed[0] && words[at + 1] == fixed[1] && words[at + 2] == fixed[2] && words[at + 3] == fixed[3]);
    if draws(c, subs.len() as int) {
        let s = c[1] as int;
        let o = subs[s];
        assert forall|k: int| 0 <= k < subs.len() implies sub_words(#[trigger] subs[k]).len() % 2 == 0 by {
            lemma_sub_words_even(subs[k]);
        }
        lemma_sub_words_at(subs, subs.len(), s);
        lemma_subs_words_len(subs, subs.len());
        let target = draw_target(c, subs, texels);
        assert(target <= i32::MAX);
        let start = 2 * subs_len(subs, s as nat) as int;
        let place = texel + 5 + target;
        let body = sub_words(o);
        assert(words.subrange(2 * place, 2 * place + body.len()) =~= body) by {
            assert forall|k: int| 0 <= k < body.len() implies words[2 * place + k] == body[k] by {
                assert(blobs.subrange(start, start + body.len())[k] == blobs[start + k]);
                assert(part[10 + 4 * n + start + k] == blobs[start + k]);
            }
        }
        lemma_sub_glyph(words, place, o);
    }
}

}
