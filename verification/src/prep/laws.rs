//! A glyph's blob, read as the shader reads it.
use vstd::prelude::*;
use crate::band::law_entries_are_whole_texels;
use crate::band::laws::{
    elements_for, entries_for, lemma_entries_name_curves_once, lemma_lane_reads_back, lemma_start_is_zero, located_apart,
    reaches_band, transform_for, transformed, unsigned_lane,
};
use crate::float32::{F32, f_mul};
use crate::outline::{GlyphOutline, QuadCurve};
use crate::packing::{packed_words, wrap16};
use crate::prep::{
    PreparedMono, curve_lanes, curve_locations, curve_offset, h_axis, is_mono_of, law_curve_texels_hold_points,
    lemma_curve_lanes_grow, lemma_curve_lanes_len, lemma_curve_offset_bounds, outline_band_lanes, outline_transform,
    outline_words, texels_hold, v_axis,
};
use crate::readback::{
    lane_bits, lanes_stand_at, lemma_lane_holds, lemma_packed_lanes_stand, lemma_region_list, reads_curve, region_list,
};

verus! {

/// The coordinates of a curve fit the lanes of a texel.
pub open spec fn fits_texels(c: QuadCurve) -> bool {
    &&& c.p1[0].unsigned() < 0x45ff_ff00 && c.p1[1].unsigned() < 0x45ff_ff00
    &&& c.p2[0].unsigned() < 0x45ff_ff00 && c.p2[1].unsigned() < 0x45ff_ff00
    &&& c.p3[0].unsigned() < 0x45ff_ff00 && c.p3[1].unsigned() < 0x45ff_ff00
}

/// Both lists of a band name a place once if the curve reaches the band by the transform,
/// else not. The bands start at texel `base`, and places are counted from there.
pub open spec fn named_as_reached(
    words: Seq<i32>,
    base: int,
    transform: Seq<F32>,
    columns: u32,
    rows: u32,
    place: int,
    c: QuadCurve,
    horizontal: bool,
    band: int,
) -> bool {
    let count = if horizontal { rows as int } else { columns as int };
    let times = if reaches_band(transform, c, horizontal, count, false, band) { 1nat } else { 0 };
    &&& region_list(words, base, rows as int, horizontal, band, 1, 0).to_multiset().count(place) == times
    &&& region_list(words, base, rows as int, horizontal, band, 2, 0).to_multiset().count(place) == times
}

/// Each curve stands at a place of its own, by which the bands name it.
pub open spec fn curves_stand_at(
    places: Seq<int>,
    words: Seq<i32>,
    base: int,
    transform: Seq<F32>,
    columns: u32,
    rows: u32,
    curves: Seq<QuadCurve>,
) -> bool {
    &&& places.len() == curves.len()
    &&& forall|i: int| 0 <= i < curves.len() ==> reads_curve(words, base + #[trigger] places[i], curves[i])
    &&& forall|i: int, j: int| 0 <= i < j < curves.len() ==> #[trigger] places[i] != #[trigger] places[j]
    &&& forall|i: int, horizontal: bool, band: int|
        0 <= i < curves.len() && 0 <= band < (if horizontal { rows } else { columns }) ==> #[trigger] named_as_reached(
            words,
            base,
            transform,
            columns,
            rows,
            places[i],
            curves[i],
            horizontal,
            band,
        )
}

/// A glyph's curves can be read back from a blob: see [`curves_stand_at`].
pub open spec fn glyph_reads_back(
    words: Seq<i32>,
    base: int,
    transform: Seq<F32>,
    columns: u32,
    rows: u32,
    curves: Seq<QuadCurve>,
) -> bool {
    exists|places: Seq<int>| #[trigger] curves_stand_at(places, words, base, transform, columns, rows, curves)
}

/// What is asked of an outline for its places and coordinates to fit their lanes.
pub open spec fn fits_lanes_of_blob(outline: GlyphOutline, columns: u32, rows: u32) -> bool {
    &&& outline_words(outline, columns, rows).len() <= 0x1_fffe
    &&& outline.curves@.len() <= usize::MAX
    &&& forall|i: int| 0 <= i < outline.curves@.len() ==> fits_texels(#[trigger] outline.curves@[i])
}

/// The words of an outline stand from a texel on.
pub open spec fn outline_stands_at(words: Seq<i32>, base: int, outline: GlyphOutline, columns: u32, rows: u32) -> bool {
    let part = outline_words(outline, columns, rows);
    &&& 0 <= base
    &&& 2 * base + part.len() <= words.len()
    &&& words.subrange(2 * base, 2 * base + part.len()) == part
}

/// Wherever the words of an outline stand, the outline's curves can be read back.
pub proof fn lemma_outline_reads_back(words: Seq<i32>, base: int, outline: GlyphOutline, columns: u32, rows: u32)
    requires
        outline_stands_at(words, base, outline, columns, rows),
        fits_lanes_of_blob(outline, columns, rows),
    ensures
        glyph_reads_back(words, base, outline_transform(outline, columns, rows), columns, rows, outline.curves@),
{
    let curves = outline.curves@;
    let locations = curve_locations(curves);
    let elements = elements_for(curves, outline.bounds, columns, rows, false);
    let places = Seq::new(curves.len(), |i: int| elements + curve_offset(curves, i));
    let transform = outline_transform(outline, columns, rows);
    lemma_where_lanes_stand(words, base, outline, columns, rows);
    lemma_locations_apart(curves, elements);
    let lanes = curve_lanes(curves, curves.len());
    assert forall|i: int| 0 <= i < curves.len() implies reads_curve(words, base + #[trigger] places[i], curves[i]) by {
        law_curve_texels_hold_points(curves, curves.len(), i);
        lemma_curve_offset_bounds(curves, i);
        lemma_curve_lanes_grow(curves, (i + 1) as nat, curves.len());
        lemma_points_read(words, base + elements, lanes, curve_offset(curves, i), curves[i]);
    }
    assert forall|i: int, j: int| 0 <= i < j < curves.len() implies #[trigger] places[i] != #[trigger] places[j] by {
        lemma_offsets_grow(curves, i, j);
    }
    assert forall|i: int, horizontal: bool, band: int|
        0 <= i < curves.len() && 0 <= band < (if horizontal { rows } else { columns }) implies #[trigger] named_as_reached(
        words,
        base,
        transform,
        columns,
        rows,
        places[i],
        curves[i],
        horizontal,
        band,
    ) by {
        lemma_named_as_reached(words, base, outline, columns, rows, horizontal, band, i);
    }
    assert(curves_stand_at(places, words, base, transform, columns, rows, curves));
}

/// A glyph's blob gives its curves back, each at a place of its own: there stand the
/// curve's start, control point and end, to the nearest quarter unit. And it is by these
/// places that the bands name the curves: either list of a band names a curve exactly
/// once if the curve reaches the band by the transform that is stored with the blob, and
/// else not at all. This is stated where places and coordinates fit their lanes.
pub proof fn law_glyph_blobs_read_back(outline: GlyphOutline, columns: u32, rows: u32, units_per_em: F32, p: PreparedMono)
    requires
        is_mono_of(p, outline, columns, rows, units_per_em),
        fits_lanes_of_blob(outline, columns, rows),
    ensures
        glyph_reads_back(p.blob_data@, 0, p.band_transform@, p.band_count_x, p.band_count_y, outline.curves@),
{
    let words = p.blob_data@;
    assert(words.subrange(0, words.len() as int) =~= words);
    lemma_outline_reads_back(words, 0, outline, columns, rows);
}

proof fn lemma_points_read(words: Seq<i32>, base: int, lanes: Seq<i16>, at: int, c: QuadCurve)
    requires
        lanes_stand_at(words, base, lanes),
        texels_hold(lanes, at, c),
        4 * at + 8 <= lanes.len(),
        0 <= at,
        fits_texels(c),
    ensures
        reads_curve(words, base + at, c),
{
    assert forall|l: int| 0 <= l < 8 implies lane_bits(words, base + at + l / 4, l % 4) == unsigned_lane(
        #[trigger] lanes[4 * at + l],
    ) by {
        let j = 4 * at + l;
        assert(j / 4 == at + l / 4 && j % 4 == l % 4);
    }
    assert(lane_bits(words, base + at, 0) == unsigned_lane(lanes[4 * at + 0]));
    assert(lane_bits(words, base + at, 1) == unsigned_lane(lanes[4 * at + 1]));
    assert(lane_bits(words, base + at, 2) == unsigned_lane(lanes[4 * at + 2]));
    assert(lane_bits(words, base + at, 3) == unsigned_lane(lanes[4 * at + 3]));
    assert(lane_bits(words, base + at + 1, 0) == unsigned_lane(lanes[4 * at + 4]));
    assert(lane_bits(words, base + at + 1, 1) == unsigned_lane(lanes[4 * at + 5]));
    lemma_lane_holds(c.p1[0]);
    lemma_lane_holds(c.p1[1]);
    lemma_lane_holds(c.p2[0]);
    lemma_lane_holds(c.p2[1]);
    lemma_lane_holds(c.p3[0]);
    lemma_lane_holds(c.p3[1]);
}

/// The bands stand at the start of an outline's words, and the curves behind them.
proof fn lemma_where_lanes_stand(words: Seq<i32>, base: int, outline: GlyphOutline, columns: u32, rows: u32)
    requires
        outline_stands_at(words, base, outline, columns, rows),
    ensures
        ({
            let curves = outline.curves@;
            let elements = elements_for(curves, outline.bounds, columns, rows, false);
            let e = entries_for(curves, outline.bounds, curve_locations(curves), columns, rows, false);
            let lanes = curve_lanes(curves, curves.len());
            &&& 0 <= elements
            &&& e.len() == 4 * elements
            &&& lanes_stand_at(words, base, e)
            &&& lanes_stand_at(words, base + elements, lanes)
            &&& 2 * outline_words(outline, columns, rows).len() == e.len() + lanes.len()
        }),
{
    reveal(outline_words);
    let curves = outline.curves@;
    let locations = curve_locations(curves);
    let h = h_axis(outline, rows);
    let v = v_axis(outline, columns);
    let e = entries_for(curves, outline.bounds, locations, columns, rows, false);
    assert(e == outline_band_lanes(outline, columns, rows));
    law_entries_are_whole_texels(curves, outline.bounds, locations, h, v);
    lemma_curve_lanes_len(curves, curves.len());
    let lanes = curve_lanes(curves, curves.len());
    let part = outline_words(outline, columns, rows);
    let elements = e.len() as int / 4;
    let inner = words.subrange(2 * base, 2 * base + part.len());
    assert(part == packed_words(e) + packed_words(lanes));
    assert forall|i: int| 0 <= i < part.len() implies words[2 * base + i] == #[trigger] part[i] by {
        assert(inner[i] == part[i]);
    }
    assert(words.subrange(2 * base, 2 * base + e.len() as int / 2) =~= packed_words(e)) by {
        assert forall|i: int| 0 <= i < e.len() as int / 2 implies words[2 * base + i] == packed_words(e)[i] by {
            assert(part[i] == packed_words(e)[i]);
        }
    }
    let next = base + elements;
    assert(words.subrange(2 * next, 2 * next + lanes.len() as int / 2) =~= packed_words(lanes)) by {
        assert forall|i: int| 0 <= i < lanes.len() as int / 2 implies words[2 * next + i] == packed_words(lanes)[i] by {
            assert(part[2 * elements + i] == packed_words(lanes)[i]);
        }
    }
    lemma_packed_lanes_stand(words, base, e);
    lemma_packed_lanes_stand(words, next, lanes);
}

proof fn lemma_offset_fits(curves: Seq<QuadCurve>, i: int, elements: int)
    requires
        0 <= i < curves.len(),
        0 <= elements,
        4 * elements + curve_lanes(curves, curves.len()).len() <= 4 * 0xffff,
    ensures
        curve_locations(curves)[i].offset == curve_offset(curves, i),
        0 <= curve_offset(curves, i),
        curve_offset(curves, i) + elements <= 0xffff,
{
    lemma_curve_offset_bounds(curves, i);
    lemma_curve_lanes_grow(curves, (i + 1) as nat, curves.len());
}

proof fn lemma_offsets_grow(curves: Seq<QuadCurve>, i: int, j: int)
    requires
        0 <= i < j < curves.len(),
    ensures
        curve_offset(curves, i) < curve_offset(curves, j),
{
    lemma_curve_offset_bounds(curves, i);
    lemma_curve_offset_bounds(curves, j);
    lemma_curve_lanes_grow(curves, (i + 1) as nat, j as nat);
    lemma_curve_lanes_len(curves, (j + 1) as nat);
}

proof fn lemma_locations_apart(curves: Seq<QuadCurve>, elements: int)
    requires
        0 <= elements,
        4 * elements + curve_lanes(curves, curves.len()).len() <= 4 * 0xffff,
    ensures
        located_apart(curve_locations(curves), curves.len() as int, elements),
{
    let locations = curve_locations(curves);
    assert forall|i: int| 0 <= i < curves.len() implies (#[trigger] locations[i]).offset + elements <= 0xffff by {
        lemma_offset_fits(curves, i, elements);
    }
    assert forall|i: int, j: int| 0 <= i < j < curves.len() implies (#[trigger] locations[i]).offset != (
    #[trigger] locations[j]).offset by {
        lemma_offset_fits(curves, i, elements);
        lemma_offset_fits(curves, j, elements);
        lemma_offsets_grow(curves, i, j);
    }
}

proof fn lemma_named_as_reached(
    words: Seq<i32>,
    base: int,
    outline: GlyphOutline,
    columns: u32,
    rows: u32,
    horizontal: bool,
    band: int,
    i: int,
)
    requires
        outline_stands_at(words, base, outline, columns, rows),
        fits_lanes_of_blob(outline, columns, rows),
        0 <= i < outline.curves@.len(),
        0 <= band < (if horizontal { rows } else { columns }),
    ensures
        named_as_reached(
            words,
            base,
            outline_transform(outline, columns, rows),
            columns,
            rows,
            elements_for(outline.curves@, outline.bounds, columns, rows, false) + curve_offset(outline.curves@, i),
            outline.curves@[i],
            horizontal,
            band,
        ),
{
    let curves = outline.curves@;
    let locations = curve_locations(curves);
    let elements = elements_for(curves, outline.bounds, columns, rows, false);
    let e = entries_for(curves, outline.bounds, locations, columns, rows, false);
    lemma_where_lanes_stand(words, base, outline, columns, rows);
    lemma_locations_apart(curves, elements);
    lemma_offset_fits(curves, i, elements);
    lemma_entries_name_curves_once(curves, outline.bounds, locations, columns, rows, false, horizontal, band, i);
    let name = wrap16(locations[i].offset + elements) as i16;
    lemma_lane_reads_back(locations[i].offset + elements);
    lemma_region_list(words, base, e, rows as int, horizontal, band, 1, name);
    lemma_region_list(words, base, e, rows as int, horizontal, band, 2, name);
    assert(outline_transform(outline, columns, rows) == transform_for(outline.bounds, columns, rows, false)) by {
        reveal(outline_transform);
    }
}

/// The transform that is stored with a glyph puts the lower bound of each axis at the
/// start of its bands: there a position is exactly zero.
pub proof fn law_stored_transform_starts_at_the_bounds(
    outline: GlyphOutline,
    columns: u32,
    rows: u32,
    units_per_em: F32,
    p: PreparedMono,
    axis: int,
)
    requires
        is_mono_of(p, outline, columns, rows, units_per_em),
        axis == 0 || axis == 1,
        f_mul(p.bounds[axis], p.band_transform@[axis]).finite(),
    ensures
        transformed(p.band_transform@, axis, p.bounds[axis]).zero(),
{
    reveal(outline_transform);
    lemma_start_is_zero(p.bounds[axis], p.band_transform@[axis]);
}

}
