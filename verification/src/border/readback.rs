//! A border blob, read as the shader reads it.
use vstd::prelude::*;
use crate::band::laws::{
    elements_for, entries_for, lemma_entries_name_curves_once, lemma_lane_reads_back, located_apart, reaches_band,
    transform_for,
};
use crate::band::{element_count, law_entries_are_whole_texels, split_lane};
use crate::border::certify::BoundaryPiece;
use crate::border::grid::DistanceGrid;
use crate::border::prepare::{
    BorderDescriptor, PreparedBorder, border_axis, border_band_lanes, curve_words, curves_words, descriptor_words,
    is_assembled, lemma_curves_words_len, lemma_pieces_words_len, padded_words, paired_locations, piece_words,
    pieces_words,
};
use crate::float32::F32;
use crate::outline::QuadCurve;
use crate::packing::{packed_words, wrap16};
use crate::prep::laws::fits_texels;
use crate::readback::{
    lanes_stand_at, lemma_bits_word, lemma_lane_holds, lemma_packed_lanes_stand, lemma_pair_word, lemma_region_list, reads_curve,
    region_list, word_at,
};
use crate::text_atlas::band_count;

verus! {

/// The six words of a piece: start, control and end, x before y.
pub open spec fn reads_piece(words: Seq<i32>, texel: int, c: QuadCurve) -> bool {
    &&& word_at(words, 2 * texel) == c.p1[0].bits
    &&& word_at(words, 2 * texel + 1) == c.p1[1].bits
    &&& word_at(words, 2 * texel + 2) == c.p2[0].bits
    &&& word_at(words, 2 * texel + 3) == c.p2[1].bits
    &&& word_at(words, 2 * texel + 4) == c.p3[0].bits
    &&& word_at(words, 2 * texel + 5) == c.p3[1].bits
}

proof fn lemma_piece_words_at(pieces: Seq<BoundaryPiece>, n: nat, k: int)
    requires
        0 <= k < n <= pieces.len(),
    ensures
        pieces_words(pieces, n).subrange(6 * k, 6 * k + 6) == piece_words(pieces[k]),
    decreases n,
{
    lemma_pieces_words_len(pieces, n);
    lemma_pieces_words_len(pieces, (n - 1) as nat);
    let all = pieces_words(pieces, n);
    let before = pieces_words(pieces, (n - 1) as nat);
    if k < n - 1 {
        lemma_piece_words_at(pieces, (n - 1) as nat, k);
        assert(all.subrange(6 * k, 6 * k + 6) =~= before.subrange(6 * k, 6 * k + 6));
    } else {
        assert(all.subrange(6 * k, 6 * k + 6) =~= piece_words(pieces[k]));
    }
}

proof fn lemma_curve_words_at(curves: Seq<QuadCurve>, n: nat, k: int)
    requires
        0 <= k < n <= curves.len(),
    ensures
        curves_words(curves, n).subrange(4 * k, 4 * k + 4) == curve_words(curves[k]),
    decreases n,
{
    lemma_curves_words_len(curves, n);
    lemma_curves_words_len(curves, (n - 1) as nat);
    let all = curves_words(curves, n);
    let before = curves_words(curves, (n - 1) as nat);
    if k < n - 1 {
        lemma_curve_words_at(curves, (n - 1) as nat, k);
        assert(all.subrange(4 * k, 4 * k + 4) =~= before.subrange(4 * k, 4 * k + 4));
    } else {
        assert(all.subrange(4 * k, 4 * k + 4) =~= curve_words(curves[k]));
    }
}

/// The parts of a blob, one after another.
proof fn lemma_parts(
    words: Seq<i32>,
    a: Seq<i32>,
    b: Seq<i32>,
    c: Seq<i32>,
    d: Seq<i32>,
    e: Seq<i32>,
    f: Seq<i32>,
)
    requires
        words == a + b + c + d + e + f,
    ensures
        words.subrange(0, a.len() as int) == a,
        words.subrange(a.len() as int, (a.len() + b.len()) as int) == b,
        words.subrange((a.len() + b.len()) as int, (a.len() + b.len() + c.len()) as int) == c,
        words.subrange(
            (a.len() + b.len() + c.len()) as int,
            (a.len() + b.len() + c.len() + d.len()) as int,
        ) == d,
        words.subrange(
            (a.len() + b.len() + c.len() + d.len()) as int,
            (a.len() + b.len() + c.len() + d.len() + e.len()) as int,
        ) == e,
        words.subrange((a.len() + b.len() + c.len() + d.len() + e.len()) as int, words.len() as int) == f,
{
    assert(words.subrange(0, a.len() as int) =~= a);
    assert(words.subrange(a.len() as int, (a.len() + b.len()) as int) =~= b);
    assert(words.subrange((a.len() + b.len()) as int, (a.len() + b.len() + c.len()) as int) =~= c);
    assert(words.subrange(
        (a.len() + b.len() + c.len()) as int,
        (a.len() + b.len() + c.len() + d.len()) as int,
    ) =~= d);
    assert(words.subrange(
        (a.len() + b.len() + c.len() + d.len()) as int,
        (a.len() + b.len() + c.len() + d.len() + e.len()) as int,
    ) =~= e);
    assert(words.subrange((a.len() + b.len() + c.len() + d.len() + e.len()) as int, words.len() as int) =~= f);
}

proof fn lemma_whole_texels(curves: Seq<QuadCurve>, bounds: [F32; 4], count: u32)
    ensures
        border_band_lanes(curves, bounds, count).len() == 4 * element_count(
            curves,
            border_axis(bounds, 1, count),
            border_axis(bounds, 0, count),
        ),
{
    reveal(border_band_lanes);
    law_entries_are_whole_texels(
        curves,
        bounds,
        paired_locations(curves.len()),
        border_axis(bounds, 1, count),
        border_axis(bounds, 0, count),
    );
}

/// Where the parts of an assembled blob are, in words.
proof fn lemma_where(
    b: PreparedBorder,
    curves: Seq<QuadCurve>,
    bounds: [F32; 4],
    fill_offset: u32,
    units_per_em: F32,
    ppem_ceiling: F32,
    radius: F32,
)
    requires
        is_assembled(b, curves, bounds, fill_offset, units_per_em, ppem_ceiling, radius),
    ensures
        ({
            let d = b.descriptor;
            let lanes = border_band_lanes(curves, bounds, band_count(curves.len() as int));
            let bands = lanes.len() as int / 4;
            let w = b.data@;
            let o = b.grid.offsets@.len();
            let c = b.grid.candidates@.len();
            &&& d.winding_offset == 8
            &&& d.grid_offset == 8 + bands + 2 * curves.len()
            &&& d.boundary_offset == d.grid_offset + o + c
            &&& w.len() == 2 * d.boundary_offset + 6 * b.boundary@.len()
            &&& w.subrange(0, 16) == descriptor_words(d, b.grid, units_per_em, bounds, curves.len() as int)
            &&& w.subrange(16, 16 + 2 * bands) == packed_words(lanes)
            &&& w.subrange(16 + 2 * bands, 2 * d.grid_offset as int) == curves_words(curves, curves.len())
            &&& w.subrange(2 * d.grid_offset as int, 2 * (d.grid_offset + o)) == padded_words(b.grid.offsets@)
            &&& w.subrange(2 * (d.grid_offset + o), 2 * (d.grid_offset + o + c)) == padded_words(b.grid.candidates@)
            &&& w.subrange(2 * d.boundary_offset as int, w.len() as int) == pieces_words(b.boundary@, b.boundary@.len())
        }),
{
    let d = b.descriptor;
    let count = band_count(curves.len() as int);
    let lanes = border_band_lanes(curves, bounds, count);
    lemma_whole_texels(curves, bounds, count);
    lemma_curves_words_len(curves, curves.len());
    lemma_pieces_words_len(b.boundary@, b.boundary@.len());
    lemma_parts(
        b.data@,
        descriptor_words(d, b.grid, units_per_em, bounds, curves.len() as int),
        packed_words(lanes),
        curves_words(curves, curves.len()),
        padded_words(b.grid.offsets@),
        padded_words(b.grid.candidates@),
        pieces_words(b.boundary@, b.boundary@.len()),
    );
}

/// A border blob gives its boundary back: the blob names how many pieces there are and
/// where they start, and from there on each takes three texels, the patterns of x and y
/// of its start, of its control point and of its end.
pub proof fn law_blobs_give_the_boundary_back(
    b: PreparedBorder,
    curves: Seq<QuadCurve>,
    bounds: [F32; 4],
    fill_offset: u32,
    units_per_em: F32,
    ppem_ceiling: F32,
    radius: F32,
)
    requires
        is_assembled(b, curves, bounds, fill_offset, units_per_em, ppem_ceiling, radius),
    ensures
        ({
            let w = b.data@;
            let start = word_at(w, 3);
            &&& word_at(w, 4) == b.boundary@.len()
            &&& start == b.descriptor.boundary_offset
            &&& w.len() == 2 * (start + 3 * b.boundary@.len())
            &&& forall|k: int|
                0 <= k < b.boundary@.len() ==> reads_piece(w, start + 3 * k, (#[trigger] b.boundary@[k]).curve)
        }),
{
    lemma_where(b, curves, bounds, fill_offset, units_per_em, ppem_ceiling, radius);
    let d = b.descriptor;
    let w = b.data@;
    let head = descriptor_words(d, b.grid, units_per_em, bounds, curves.len() as int);
    assert(w.subrange(0, 16)[3] == head[3] && w.subrange(0, 16)[4] == head[4]);
    lemma_bits_word(d.boundary_offset);
    lemma_bits_word(d.boundary_count);
    let start = d.boundary_offset as int;
    let tail = pieces_words(b.boundary@, b.boundary@.len());
    lemma_pieces_words_len(b.boundary@, b.boundary@.len());
    assert forall|k: int| 0 <= k < b.boundary@.len() implies reads_piece(
        w,
        start + 3 * k,
        (#[trigger] b.boundary@[k]).curve,
    ) by {
        lemma_piece_words_at(b.boundary@, b.boundary@.len(), k);
        let c = b.boundary@[k].curve;
        let six = piece_words(b.boundary@[k]);
        let part = tail.subrange(6 * k, 6 * k + 6);
        assert forall|i: int| 0 <= i < 6 implies w[2 * (start + 3 * k) + i] == #[trigger] six[i] by {
            assert(part[i] == tail[6 * k + i]);
            assert(w.subrange(2 * start, w.len() as int)[6 * k + i] == w[2 * start + 6 * k + i]);
        }
        assert(six[0] == w[2 * (start + 3 * k) + 0]);
        assert(six[1] == w[2 * (start + 3 * k) + 1]);
        assert(six[2] == w[2 * (start + 3 * k) + 2]);
        assert(six[3] == w[2 * (start + 3 * k) + 3]);
        assert(six[4] == w[2 * (start + 3 * k) + 4]);
        assert(six[5] == w[2 * (start + 3 * k) + 5]);
        lemma_bits_word(c.p1[0].bits);
        lemma_bits_word(c.p1[1].bits);
        lemma_bits_word(c.p2[0].bits);
        lemma_bits_word(c.p2[1].bits);
        lemma_bits_word(c.p3[0].bits);
        lemma_bits_word(c.p3[1].bits);
    }
}

/// A border blob describes itself: where the fill is, how large the grid is, what it
/// covers, for which radius, whether it is to be used, and how many curves the winding
/// region has.
pub proof fn law_blobs_describe_themselves(
    b: PreparedBorder,
    curves: Seq<QuadCurve>,
    bounds: [F32; 4],
    fill_offset: u32,
    units_per_em: F32,
    ppem_ceiling: F32,
    radius: F32,
)
    requires
        is_assembled(b, curves, bounds, fill_offset, units_per_em, ppem_ceiling, radius),
        curves.len() <= 0xffff,
    ensures
        ({
            let w = b.data@;
            let g = b.grid;
            &&& word_at(w, 0) == fill_offset
            &&& word_at(w, 1) == 8
            &&& word_at(w, 5) == g.radius.bits
            &&& word_at(w, 6) == units_per_em.bits
            &&& word_at(w, 7) == (if g.brute_force { 1int } else { 0 })
            &&& word_at(w, 8) == bounds[0].bits
            &&& word_at(w, 9) == bounds[1].bits
            &&& word_at(w, 10) == bounds[2].bits
            &&& word_at(w, 11) == bounds[3].bits
            &&& word_at(w, 12) == g.columns
            &&& word_at(w, 13) == g.rows
            &&& word_at(w, 14) == g.radius.bits
            &&& word_at(w, 15) == curves.len()
        }),
{
    lemma_where(b, curves, bounds, fill_offset, units_per_em, ppem_ceiling, radius);
    let d = b.descriptor;
    let g = b.grid;
    let head = descriptor_words(d, g, units_per_em, bounds, curves.len() as int);
    let w = b.data@;
    lemma_head(w, head);
    lemma_descriptor_bits(d, g, units_per_em, bounds, curves.len() as int);
}

/// Where a blob says that its parts are.
proof fn lemma_named_offsets(
    b: PreparedBorder,
    curves: Seq<QuadCurve>,
    bounds: [F32; 4],
    fill_offset: u32,
    units_per_em: F32,
    ppem_ceiling: F32,
    radius: F32,
)
    requires
        is_assembled(b, curves, bounds, fill_offset, units_per_em, ppem_ceiling, radius),
    ensures
        b.data@.len() >= 16,
        word_at(b.data@, 1) == 8,
        word_at(b.data@, 2) == b.descriptor.grid_offset,
{
    lemma_where(b, curves, bounds, fill_offset, units_per_em, ppem_ceiling, radius);
    let d = b.descriptor;
    let head = descriptor_words(d, b.grid, units_per_em, bounds, curves.len() as int);
    lemma_head(b.data@, head);
    lemma_bits_word(d.winding_offset);
    lemma_bits_word(d.grid_offset);
}

proof fn lemma_descriptor_bits(d: BorderDescriptor, g: DistanceGrid, units_per_em: F32, bounds: [F32; 4], n: int)
    requires
        0 <= n <= 0xffff,
    ensures
        ({
            let h = descriptor_words(d, g, units_per_em, bounds, n);
            &&& word_at(h, 0) == d.fill_offset
            &&& word_at(h, 1) == d.winding_offset
            &&& word_at(h, 2) == d.grid_offset
            &&& word_at(h, 3) == d.boundary_offset
            &&& word_at(h, 4) == d.boundary_count
            &&& word_at(h, 5) == g.radius.bits
            &&& word_at(h, 6) == units_per_em.bits
            &&& word_at(h, 7) == (if g.brute_force { 1int } else { 0 })
            &&& word_at(h, 8) == bounds[0].bits
            &&& word_at(h, 9) == bounds[1].bits
            &&& word_at(h, 10) == bounds[2].bits
            &&& word_at(h, 11) == bounds[3].bits
            &&& word_at(h, 12) == g.columns
            &&& word_at(h, 13) == g.rows
            &&& word_at(h, 14) == g.radius.bits
            &&& word_at(h, 15) == n
        }),
{
    lemma_bits_word(d.fill_offset);
    lemma_bits_word(d.winding_offset);
    lemma_bits_word(d.grid_offset);
    lemma_bits_word(d.boundary_offset);
    lemma_bits_word(d.boundary_count);
    lemma_bits_word(g.radius.bits);
    lemma_bits_word(units_per_em.bits);
    lemma_bits_word(bounds[0].bits);
    lemma_bits_word(bounds[1].bits);
    lemma_bits_word(bounds[2].bits);
    lemma_bits_word(bounds[3].bits);
}

proof fn lemma_head(w: Seq<i32>, head: Seq<i32>)
    requires
        w.len() >= 16,
        w.subrange(0, 16) == head,
    ensures
        w[0] == head[0] && w[1] == head[1] && w[2] == head[2] && w[3] == head[3],
        w[4] == head[4] && w[5] == head[5] && w[6] == head[6] && w[7] == head[7],
        w[8] == head[8] && w[9] == head[9] && w[10] == head[10] && w[11] == head[11],
        w[12] == head[12] && w[13] == head[13] && w[14] == head[14] && w[15] == head[15],
{
    assert forall|i: int| 0 <= i < 16 implies w[i] == #[trigger] head[i] by {
        assert(w.subrange(0, 16)[i] == w[i]);
    }
}

/// A border blob gives its grid back: the start of each cell's list, one texel each, and
/// then the lists, where the blob says the grid is.
pub proof fn law_blobs_give_the_grid_back(
    b: PreparedBorder,
    curves: Seq<QuadCurve>,
    bounds: [F32; 4],
    fill_offset: u32,
    units_per_em: F32,
    ppem_ceiling: F32,
    radius: F32,
)
    requires
        is_assembled(b, curves, bounds, fill_offset, units_per_em, ppem_ceiling, radius),
    ensures
        ({
            let w = b.data@;
            let grid = word_at(w, 2);
            let g = b.grid;
            &&& forall|k: int| 0 <= k < g.offsets@.len() ==> word_at(w, 2 * (grid + k)) == #[trigger] g.offsets@[k]
            &&& forall|k: int|
                0 <= k < g.candidates@.len() ==> word_at(w, 2 * (grid + g.offsets@.len() + k))
                    == #[trigger] g.candidates@[k]
        }),
{
    lemma_where(b, curves, bounds, fill_offset, units_per_em, ppem_ceiling, radius);
    lemma_named_offsets(b, curves, bounds, fill_offset, units_per_em, ppem_ceiling, radius);
    let grid = b.descriptor.grid_offset as int;
    let o = b.grid.offsets@.len() as int;
    lemma_padded(b.data@, grid, b.grid.offsets@);
    lemma_padded(b.data@, grid + o, b.grid.candidates@);
}

proof fn lemma_padded(w: Seq<i32>, texel: int, values: Seq<u32>)
    requires
        0 <= texel,
        2 * (texel + values.len()) <= w.len(),
        w.subrange(2 * texel, 2 * (texel + values.len())) == padded_words(values),
    ensures
        forall|k: int| 0 <= k < values.len() ==> word_at(w, 2 * (texel + k)) == #[trigger] values[k],
{
    assert forall|k: int| 0 <= k < values.len() implies word_at(w, 2 * (texel + k)) == #[trigger] values[k] by {
        assert(w.subrange(2 * texel, 2 * (texel + values.len()))[2 * k] == padded_words(values)[2 * k]);
        lemma_bits_word(values[k]);
    }
}

/// Both lists of a band of the winding region name a place once if the curve reaches the
/// band, upper edges included, else not. Places are counted from the start of the region.
pub open spec fn border_names_as_reached(
    words: Seq<i32>,
    place: int,
    c: QuadCurve,
    bounds: [F32; 4],
    count: u32,
    horizontal: bool,
    band: int,
) -> bool {
    let region = word_at(words, 1);
    let times = if reaches_band(transform_for(bounds, count, count, true), c, horizontal, count as int, true, band) {
        1nat
    } else {
        0
    };
    &&& region_list(words, region, count as int, horizontal, band, 1, 0).to_multiset().count(place) == times
    &&& region_list(words, region, count as int, horizontal, band, 2, 0).to_multiset().count(place) == times
}

/// Each curve stands at a place of its own in the winding region, by which the bands
/// name it.
pub open spec fn border_curves_stand_at(
    places: Seq<int>,
    words: Seq<i32>,
    curves: Seq<QuadCurve>,
    bounds: [F32; 4],
    count: u32,
) -> bool {
    &&& places.len() == curves.len()
    &&& forall|i: int|
        0 <= i < curves.len() ==> reads_curve(words, word_at(words, 1) + #[trigger] places[i], curves[i])
    &&& forall|i: int, j: int| 0 <= i < j < curves.len() ==> #[trigger] places[i] != #[trigger] places[j]
    &&& forall|i: int, horizontal: bool, band: int|
        0 <= i < curves.len() && 0 <= band < count ==> #[trigger] border_names_as_reached(
            words,
            places[i],
            curves[i],
            bounds,
            count,
            horizontal,
            band,
        )
}

/// A border blob gives its winding region back: every curve stands at a place of its own,
/// to the nearest quarter unit, and the bands name it by that place, exactly once in each
/// band that it reaches and not at all in the others.
pub proof fn law_blobs_give_the_winding_region_back(
    b: PreparedBorder,
    curves: Seq<QuadCurve>,
    bounds: [F32; 4],
    fill_offset: u32,
    units_per_em: F32,
    ppem_ceiling: F32,
    radius: F32,
)
    requires
        is_assembled(b, curves, bounds, fill_offset, units_per_em, ppem_ceiling, radius),
        b.descriptor.grid_offset <= 0xffff,
        forall|i: int| 0 <= i < curves.len() ==> fits_texels(#[trigger] curves[i]),
    ensures
        exists|places: Seq<int>| #[trigger]
            border_curves_stand_at(places, b.data@, curves, bounds, band_count(curves.len() as int)),
{
    lemma_where(b, curves, bounds, fill_offset, units_per_em, ppem_ceiling, radius);
    lemma_named_offsets(b, curves, bounds, fill_offset, units_per_em, ppem_ceiling, radius);
    let count = band_count(curves.len() as int);
    lemma_whole_texels(curves, bounds, count);
    let e = border_band_lanes(curves, bounds, count);
    assert(e == entries_for(curves, bounds, paired_locations(curves.len()), count, count, true)) by {
        reveal(border_band_lanes);
    }
    lemma_packed_lanes_stand(b.data@, 8, e);
    lemma_winding_region(b.data@, curves, bounds, count);
}

proof fn lemma_winding_region(w: Seq<i32>, curves: Seq<QuadCurve>, bounds: [F32; 4], count: u32)
    requires
        word_at(w, 1) == 8,
        ({
            let e = entries_for(curves, bounds, paired_locations(curves.len()), count, count, true);
            let elements = elements_for(curves, bounds, count, count, true);
            let base = 8 + elements;
            &&& lanes_stand_at(w, 8, e)
            &&& base + 2 * curves.len() <= 0xffff
            &&& 2 * base + 4 * curves.len() <= w.len()
            &&& w.subrange(2 * base, 2 * base + 4 * curves.len()) == curves_words(curves, curves.len())
        }),
        forall|i: int| 0 <= i < curves.len() ==> fits_texels(#[trigger] curves[i]),
    ensures
        exists|places: Seq<int>| #[trigger] border_curves_stand_at(places, w, curves, bounds, count),
{
    let elements = elements_for(curves, bounds, count, count, true);
    let places = Seq::new(curves.len(), |i: int| elements + 2 * i);
    assert forall|i: int| 0 <= i < curves.len() implies reads_curve(w, 8 + #[trigger] places[i], curves[i]) by {
        lemma_winding_curve(w, 8 + elements, curves, i);
    }
    assert forall|i: int, horizontal: bool, band: int| 0 <= i < curves.len() && 0 <= band < count implies
        #[trigger] border_names_as_reached(w, places[i], curves[i], bounds, count, horizontal, band) by {
        lemma_border_names(w, curves, bounds, count, horizontal, band, i);
    }
    assert(border_curves_stand_at(places, w, curves, bounds, count));
}

proof fn lemma_border_names(
    w: Seq<i32>,
    curves: Seq<QuadCurve>,
    bounds: [F32; 4],
    count: u32,
    horizontal: bool,
    band: int,
    i: int,
)
    requires
        word_at(w, 1) == 8,
        lanes_stand_at(w, 8, entries_for(curves, bounds, paired_locations(curves.len()), count, count, true)),
        elements_for(curves, bounds, count, count, true) + 2 * curves.len() <= 0xffff,
        0 <= i < curves.len(),
        0 <= band < count,
    ensures
        border_names_as_reached(
            w,
            elements_for(curves, bounds, count, count, true) + 2 * i,
            curves[i],
            bounds,
            count,
            horizontal,
            band,
        ),
{
    let locations = paired_locations(curves.len());
    let elements = elements_for(curves, bounds, count, count, true);
    let e = entries_for(curves, bounds, locations, count, count, true);
    assert(located_apart(locations, curves.len() as int, elements));
    lemma_entries_name_curves_once(curves, bounds, locations, count, count, true, horizontal, band, i);
    let name = wrap16(locations[i].offset + elements) as i16;
    lemma_lane_reads_back(locations[i].offset + elements);
    lemma_region_list(w, 8, e, count as int, horizontal, band, 1, name);
    lemma_region_list(w, 8, e, count as int, horizontal, band, 2, name);
}

proof fn lemma_winding_curve(w: Seq<i32>, base: int, curves: Seq<QuadCurve>, i: int)
    requires
        0 <= base,
        0 <= i < curves.len(),
        2 * base + 4 * curves.len() <= w.len(),
        w.subrange(2 * base, 2 * base + 4 * curves.len()) == curves_words(curves, curves.len()),
        fits_texels(curves[i]),
    ensures
        reads_curve(w, base + 2 * i, curves[i]),
{
    let c = curves[i];
    lemma_curves_words_len(curves, curves.len());
    lemma_curve_words_at(curves, curves.len(), i);
    let all = curves_words(curves, curves.len());
    let four = curve_words(c);
    assert forall|k: int| 0 <= k < 4 implies w[2 * (base + 2 * i) + k] == #[trigger] four[k] by {
        assert(all.subrange(4 * i, 4 * i + 4)[k] == all[4 * i + k]);
        assert(w.subrange(2 * base, 2 * base + 4 * curves.len())[4 * i + k] == w[2 * base + 4 * i + k]);
    }
    assert(four[0] == w[2 * (base + 2 * i) + 0]);
    assert(four[1] == w[2 * (base + 2 * i) + 1]);
    assert(four[2] == w[2 * (base + 2 * i) + 2]);
    lemma_pair_word(split_lane(c.p1[0]), split_lane(c.p1[1]));
    lemma_pair_word(split_lane(c.p2[0]), split_lane(c.p2[1]));
    lemma_pair_word(split_lane(c.p3[0]), split_lane(c.p3[1]));
    lemma_lane_holds(c.p1[0]);
    lemma_lane_holds(c.p1[1]);
    lemma_lane_holds(c.p2[0]);
    lemma_lane_holds(c.p2[1]);
    lemma_lane_holds(c.p3[0]);
    lemma_lane_holds(c.p3[1]);
}

}
