//! What holds of every packed band region.
use vstd::prelude::*;
use vstd::arithmetic::power2::{lemma_pow2_pos, pow2};
use crate::band::{
    BAND_EPSILON_BITS, BandAxis, BandData, CurveLocation, asc_keys, band_entries, bands_of, desc_keys, element_count,
    grid_step, lane, law_entries_are_whole_texels, lemma_headers_len, lemma_list_references_len, lemma_members,
    lemma_references_len, lemma_refs_monotone, list_references, reference, safe_extent,
};
use crate::float32::{
    F32, cell_of, f_add, f_div, f_eq, f_from_int, f_le, f_mul, f_neg, f_sub, law_products_are_monotone,
    law_sums_are_monotone, lemma_lane_steps, lemma_magnitude_monotone, lemma_magnitude_nonneg,
    lemma_order_is_value_order, lemma_rounding_passes_no_pattern, lemma_zero_is_neutral, magnitude,
};
use crate::ordering::{lemma_ordered, precedes};
use crate::outline::{GlyphOutline, QuadCurve};
use crate::packing::wrap16;
use crate::symmetry::{lemma_negation_is_opposite, lemma_products_match};

verus! {

/// The buffers that a build reuses never show in its result: two builds for the
/// same glyph give the same bands.
pub proof fn law_bands_do_not_depend_on_scratch(
    outline: GlyphOutline,
    locations: Seq<CurveLocation>,
    a: BandData,
    b: BandData,
    band_count_x: u32,
    band_count_y: u32,
    include_upper_boundary: bool,
)
    requires
        bands_of(outline, locations, a, band_count_x, band_count_y, include_upper_boundary),
        bands_of(outline, locations, b, band_count_x, band_count_y, include_upper_boundary),
    ensures
        a.entries@ == b.entries@,
        a.band_count_x == b.band_count_x,
        a.band_count_y == b.band_count_y,
        a.band_transform@ == b.band_transform@,
{
}

/// A lane read back without its sign.
pub open spec fn unsigned_lane(x: i16) -> int {
    x as int % 0x1_0000
}

/// Lane `k` of a texel.
pub open spec fn lane_at(entries: Seq<i16>, texel: int, k: int) -> i16 {
    entries[4 * texel + k]
}

/// The header texel of a band: the horizontal bands come first.
pub open spec fn header_texel(h: BandAxis, horizontal: bool, band: int) -> int {
    if horizontal { band } else { h.count + band }
}

proof fn lemma_header_at(lay: BandAxis, curves: Seq<QuadCurve>, bounds: [F32; 4], base: int, bands: nat, band: int)
    requires
        0 <= band < bands,
    ensures
        ({
            let e = lay.headers(curves, bounds, base, bands);
            let count = lay.members(curves, band, curves.len()).len();
            let start = base + 2 * lay.refs_before(curves, band as nat);
            &&& e.len() == 4 * bands
            &&& e[4 * band] == wrap16(count as int) as i16
            &&& e[4 * band + 1] == wrap16(start) as i16
            &&& e[4 * band + 2] == wrap16(start + count) as i16
        }),
    decreases bands,
{
    lemma_headers_len(lay, curves, bounds, base, bands);
    lemma_headers_len(lay, curves, bounds, base, (bands - 1) as nat);
    if band < bands - 1 {
        lemma_header_at(lay, curves, bounds, base, (bands - 1) as nat, band);
    }
}

proof fn lemma_list_reference_at(
    curves: Seq<QuadCurve>,
    locations: Seq<CurveLocation>,
    list: Seq<usize>,
    axis: int,
    elements: int,
    descending: bool,
    n: nat,
    k: int,
    l: int,
)
    requires
        0 <= k < n,
        0 <= l < 4,
    ensures
        ({
            let i = list[k] as int;
            list_references(curves, locations, list, axis, elements, descending, n)[4 * k + l] == reference(
                curves[i],
                locations[i],
                axis,
                elements,
                descending,
            )[l]
        }),
    decreases n,
{
    lemma_list_references_len(curves, locations, list, axis, elements, descending, n);
    lemma_list_references_len(curves, locations, list, axis, elements, descending, (n - 1) as nat);
    if k < n - 1 {
        lemma_list_reference_at(curves, locations, list, axis, elements, descending, (n - 1) as nat, k, l);
    }
}

/// Where a curve of a band stands among the references of an axis.
proof fn lemma_reference_at(
    lay: BandAxis,
    curves: Seq<QuadCurve>,
    locations: Seq<CurveLocation>,
    elements: int,
    bands: nat,
    band: int,
    k: int,
    l: int,
)
    requires
        0 <= band < bands,
        0 <= k < lay.members(curves, band, curves.len()).len(),
        0 <= l < 4,
    ensures
        ({
            let e = lay.references(curves, locations, elements, bands);
            let count = lay.members(curves, band, curves.len()).len();
            let start = 2 * lay.refs_before(curves, band as nat);
            let d = lay.desc(curves, band)[k] as int;
            let a = lay.asc(curves, band)[k] as int;
            &&& 4 * (start + 2 * count) <= e.len()
            &&& e[4 * (start + k) + l] == reference(curves[d], locations[d], lay.axis as int, elements, true)[l]
            &&& e[4 * (start + count + k) + l] == reference(curves[a], locations[a], lay.axis as int, elements, false)[l]
        }),
    decreases bands,
{
    let last = bands - 1;
    let before = lay.references(curves, locations, elements, last as nat);
    let e = lay.references(curves, locations, elements, bands);
    lemma_references_len(lay, curves, locations, elements, bands);
    lemma_references_len(lay, curves, locations, elements, last as nat);
    if band < last {
        lemma_reference_at(lay, curves, locations, elements, last as nat, band, k, l);
        assert(e.take(before.len() as int) =~= before);
        let count = lay.members(curves, band, curves.len()).len();
        let start = 2 * lay.refs_before(curves, band as nat);
        assert(e[4 * (start + k) + l] == before[4 * (start + k) + l]);
        assert(e[4 * (start + count + k) + l] == before[4 * (start + count + k) + l]);
    } else {
        let desc = lay.desc(curves, band);
        let asc = lay.asc(curves, band);
        let members = lay.members(curves, band, curves.len());
        lemma_ordered(desc_keys(curves, lay.cross_axis()), members);
        lemma_ordered(asc_keys(curves, lay.cross_axis()), members);
        lemma_list_references_len(curves, locations, desc, lay.axis as int, elements, true, desc.len());
        lemma_list_references_len(curves, locations, asc, lay.axis as int, elements, false, asc.len());
        lemma_list_reference_at(curves, locations, desc, lay.axis as int, elements, true, desc.len(), k, l);
        lemma_list_reference_at(curves, locations, asc, lay.axis as int, elements, false, asc.len(), k, l);
        let first = list_references(curves, locations, desc, lay.axis as int, elements, true, desc.len());
        let second = list_references(curves, locations, asc, lay.axis as int, elements, false, asc.len());
        assert(e == before + first + second);
        let start = 2 * lay.refs_before(curves, band as nat);
        let count = members.len();
        assert(e[4 * (start + k) + l] == first[4 * k + l]);
        assert(e[4 * (start + count + k) + l] == second[4 * k + l]);
    }
}

/// A list of references stands at a texel of a region.
#[verifier::opaque]
pub open spec fn list_stands_at(
    e: Seq<i16>,
    start: int,
    curves: Seq<QuadCurve>,
    locations: Seq<CurveLocation>,
    list: Seq<usize>,
    axis: int,
    elements: int,
    descending: bool,
) -> bool {
    forall|k: int, l: int|
        0 <= k < list.len() && 0 <= l < 4 ==> #[trigger] lane_at(e, start + k, l) == reference(
            curves[list[k] as int],
            locations[list[k] as int],
            axis,
            elements,
            descending,
        )[l]
}

/// The header at texel `at` leads to the two lists of a band.
pub open spec fn header_leads(
    e: Seq<i16>,
    at: int,
    lay: BandAxis,
    curves: Seq<QuadCurve>,
    locations: Seq<CurveLocation>,
    elements: int,
    band: int,
) -> bool {
    let count = unsigned_lane(lane_at(e, at, 0));
    let desc = unsigned_lane(lane_at(e, at, 1));
    let asc = unsigned_lane(lane_at(e, at, 2));
    &&& count == lay.desc(curves, band).len()
    &&& count == lay.asc(curves, band).len()
    &&& asc == desc + count
    &&& asc + count <= elements
    &&& list_stands_at(e, desc, curves, locations, lay.desc(curves, band), lay.axis as int, elements, true)
    &&& list_stands_at(e, asc, curves, locations, lay.asc(curves, band), lay.axis as int, elements, false)
}

/// The headers and references of an axis inside a region.
proof fn lemma_header_leads(
    e: Seq<i16>,
    at: int,
    base: int,
    lay: BandAxis,
    curves: Seq<QuadCurve>,
    bounds: [F32; 4],
    locations: Seq<CurveLocation>,
    elements: int,
    band: int,
)
    requires
        0 <= band < lay.count,
        0 <= base,
        base + 2 * lay.refs_before(curves, lay.count as nat) <= elements <= 0xffff,
        forall|i: int|
            0 <= i < 4 * lay.count ==> e[4 * (at - band) + i] == #[trigger] lay.headers(
                curves,
                bounds,
                base,
                lay.count as nat,
            )[i],
        forall|i: int|
            0 <= i < lay.references(curves, locations, elements, lay.count as nat).len() ==> e[4 * base + i]
                == #[trigger] lay.references(curves, locations, elements, lay.count as nat)[i],
    ensures
        header_leads(e, at, lay, curves, locations, elements, band),
{
    let members = lay.members(curves, band, curves.len());
    let n = members.len() as int;
    let bands = lay.count as nat;
    let headers = lay.headers(curves, bounds, base, bands);
    let refs = lay.references(curves, locations, elements, bands);
    let start = base + 2 * lay.refs_before(curves, band as nat);
    let desc = lay.desc(curves, band);
    let asc = lay.asc(curves, band);
    lemma_ordered(desc_keys(curves, lay.cross_axis()), members);
    lemma_ordered(asc_keys(curves, lay.cross_axis()), members);
    lemma_refs_monotone(lay, curves, (band + 1) as nat, bands);
    lemma_header_at(lay, curves, bounds, base, bands, band);
    assert(lane_at(e, at, 0) == headers[4 * band]);
    assert(lane_at(e, at, 1) == headers[4 * band + 1]);
    assert(lane_at(e, at, 2) == headers[4 * band + 2]);
    lemma_lane_reads_back(n);
    lemma_lane_reads_back(start);
    lemma_lane_reads_back(start + n);
    assert(list_stands_at(e, start, curves, locations, desc, lay.axis as int, elements, true)) by {
        reveal(list_stands_at);
        assert forall|k: int, l: int| 0 <= k < n && 0 <= l < 4 implies #[trigger] lane_at(e, start + k, l) == reference(
            curves[desc[k] as int],
            locations[desc[k] as int],
            lay.axis as int,
            elements,
            true,
        )[l] by {
            lemma_reference_at(lay, curves, locations, elements, bands, band, k, l);
            let i = 4 * (start - base + k) + l;
            assert(e[4 * base + i] == refs[i]);
        }
    }
    assert(list_stands_at(e, start + n, curves, locations, asc, lay.axis as int, elements, false)) by {
        reveal(list_stands_at);
        assert forall|k: int, l: int| 0 <= k < n && 0 <= l < 4 implies #[trigger] lane_at(e, start + n + k, l)
            == reference(curves[asc[k] as int], locations[asc[k] as int], lay.axis as int, elements, false)[l] by {
            lemma_reference_at(lay, curves, locations, elements, bands, band, k, l);
            let i = 4 * (start - base + n + k) + l;
            assert(e[4 * base + i] == refs[i]);
        }
    }
}

pub proof fn lemma_lane_reads_back(x: int)
    requires
        0 <= x <= 0xffff,
    ensures
        unsigned_lane(wrap16(x) as i16) == x,
{
}

/// What the packed region says of a band: its header gives the length of its
/// two lists and where they are, the ascending list directly behind the
/// descending one, and each list is the references of the band's curves. This
/// is stated where the texel offsets fit the lanes that hold them.
pub proof fn law_headers_lead_to_their_lists(
    curves: Seq<QuadCurve>,
    bounds: [F32; 4],
    locations: Seq<CurveLocation>,
    h: BandAxis,
    v: BandAxis,
    horizontal: bool,
    band: int,
)
    requires
        0 <= band < (if horizontal { h } else { v }).count,
        element_count(curves, h, v) <= 0xffff,
    ensures
        header_leads(
            band_entries(curves, bounds, locations, h, v),
            header_texel(h, horizontal, band),
            if horizontal { h } else { v },
            curves,
            locations,
            element_count(curves, h, v),
            band,
        ),
{
    reveal(band_entries);
    let e = band_entries(curves, bounds, locations, h, v);
    let elements = element_count(curves, h, v);
    let base = h.count + v.count;
    let vbase = base + 2 * h.refs_before(curves, h.count as nat);
    lemma_headers_len(h, curves, bounds, base, h.count as nat);
    lemma_headers_len(v, curves, bounds, vbase, v.count as nat);
    lemma_references_len(h, curves, locations, elements, h.count as nat);
    lemma_references_len(v, curves, locations, elements, v.count as nat);
    let hh = h.headers(curves, bounds, base, h.count as nat);
    let vh = v.headers(curves, bounds, vbase, v.count as nat);
    let hr = h.references(curves, locations, elements, h.count as nat);
    let vr = v.references(curves, locations, elements, v.count as nat);
    let at = header_texel(h, horizontal, band);
    lemma_joined(hh, vh, hr, vr);
    if horizontal {
        lemma_header_leads(e, at, base, h, curves, bounds, locations, elements, band);
    } else {
        lemma_header_leads(e, at, vbase, v, curves, bounds, locations, elements, band);
    }
}

proof fn lemma_joined(a: Seq<i16>, b: Seq<i16>, c: Seq<i16>, d: Seq<i16>)
    ensures
        ({
            let e = a + b + c + d;
            &&& forall|i: int| 0 <= i < a.len() ==> e[i] == #[trigger] a[i]
            &&& forall|i: int| 0 <= i < b.len() ==> e[a.len() + i] == #[trigger] b[i]
            &&& forall|i: int| 0 <= i < c.len() ==> e[a.len() + b.len() + i] == #[trigger] c[i]
            &&& forall|i: int| 0 <= i < d.len() ==> e[a.len() + b.len() + c.len() + i] == #[trigger] d[i]
        }),
{
}

/// Two lists of the same indices have the same values.
proof fn lemma_mapped_multisets(a: Seq<usize>, b: Seq<usize>, f: spec_fn(usize) -> i16)
    requires
        a.to_multiset() == b.to_multiset(),
    ensures
        a.map_values(f).to_multiset() == b.map_values(f).to_multiset(),
    decreases a.len(),
{
    a.to_multiset_ensures();
    b.to_multiset_ensures();
    if a.len() == 0 {
        assert(a.map_values(f) =~= b.map_values(f));
    } else {
        let x = a.last();
        let n = a.len() - 1;
        assert(a.contains(x));
        assert(a.to_multiset().count(x) > 0);
        assert(b.contains(x));
        let k = choose|k: int| 0 <= k < b.len() && b[k] == x;
        let p = a.remove(n);
        let q = b.remove(k);
        vstd::seq_lib::to_multiset_remove(a, n);
        vstd::seq_lib::to_multiset_remove(b, k);
        lemma_mapped_multisets(p, q, f);
        assert(a.map_values(f) =~= p.map_values(f).insert(n, f(x)));
        assert(b.map_values(f) =~= q.map_values(f).insert(k, f(x)));
        vstd::seq_lib::to_multiset_insert(p.map_values(f), n, f(x));
        vstd::seq_lib::to_multiset_insert(q.map_values(f), k, f(x));
    }
}

/// The coordinates of a curve that fit the lanes of a texel.
pub open spec fn fits_lanes(c: QuadCurve, axis: int) -> bool {
    c.p1[axis].unsigned() < 0x45ff_ff00 && c.p2[axis].unsigned() < 0x45ff_ff00 && c.p3[axis].unsigned() < 0x45ff_ff00
}

proof fn lemma_lane_order(v: F32, w: F32)
    requires
        v.unsigned() < 0x45ff_ff00,
        w.unsigned() < 0x45ff_ff00,
        f_le(v, w),
    ensures
        lane(v) <= lane(w),
{
    reveal(lane);
    reveal(grid_step);
    lemma_lane_steps(v, w);
}

proof fn lemma_lanes_of_extremes(c: QuadCurve, axis: int)
    requires
        fits_lanes(c, axis),
    ensures
        c.low(axis).unsigned() < 0x45ff_ff00,
        c.high(axis).unsigned() < 0x45ff_ff00,
        c.low_lane(axis) == lane(c.low(axis)),
        c.high_lane(axis) == lane(c.high(axis)),
{
    let a = c.p1[axis];
    let b = c.p2[axis];
    let d = c.p3[axis];
    lemma_lane_pair(a, b);
    lemma_lane_pair(b, d);
    lemma_lane_pair(a, d);
}

proof fn lemma_lane_pair(a: F32, b: F32)
    requires
        a.unsigned() < 0x45ff_ff00,
        b.unsigned() < 0x45ff_ff00,
    ensures
        f_le(a, b) ==> lane(a) <= lane(b),
        f_le(b, a) ==> lane(b) <= lane(a),
{
    if f_le(a, b) {
        lemma_lane_order(a, b);
    }
    if f_le(b, a) {
        lemma_lane_order(b, a);
    }
}

/// Every curve's coordinates along an axis fit the lanes.
pub open spec fn all_fit_lanes(curves: Seq<QuadCurve>, axis: int) -> bool {
    forall|i: int| 0 <= i < curves.len() ==> fits_lanes(#[trigger] curves[i], axis)
}

proof fn lemma_same_offsets(
    e: Seq<i16>,
    desc: int,
    asc: int,
    lay: BandAxis,
    curves: Seq<QuadCurve>,
    locations: Seq<CurveLocation>,
    elements: int,
    band: int,
    count: nat,
)
    requires
        count == lay.desc(curves, band).len(),
        list_stands_at(e, desc, curves, locations, lay.desc(curves, band), lay.axis as int, elements, true),
        list_stands_at(e, asc, curves, locations, lay.asc(curves, band), lay.axis as int, elements, false),
    ensures
        Seq::new(count, |k: int| lane_at(e, desc + k, 0)).to_multiset() == Seq::new(
            count,
            |k: int| lane_at(e, asc + k, 0),
        ).to_multiset(),
{
    reveal(list_stands_at);
    let dl = lay.desc(curves, band);
    let al = lay.asc(curves, band);
    let members = lay.members(curves, band, curves.len());
    lemma_ordered(desc_keys(curves, lay.cross_axis()), members);
    lemma_ordered(asc_keys(curves, lay.cross_axis()), members);
    let f = |i: usize| wrap16(locations[i as int].offset + elements) as i16;
    lemma_mapped_multisets(dl, al, f);
    let dx = Seq::new(count, |k: int| lane_at(e, desc + k, 0));
    let ax = Seq::new(count, |k: int| lane_at(e, asc + k, 0));
    assert(dx =~= dl.map_values(f));
    assert(ax =~= al.map_values(f));
}

proof fn lemma_descending(
    e: Seq<i16>,
    desc: int,
    lay: BandAxis,
    curves: Seq<QuadCurve>,
    locations: Seq<CurveLocation>,
    elements: int,
    band: int,
    i: int,
    j: int,
)
    requires
        curves.len() <= usize::MAX,
        lay.axis < 2,
        all_fit_lanes(curves, lay.cross_axis()),
        list_stands_at(e, desc, curves, locations, lay.desc(curves, band), lay.axis as int, elements, true),
        0 <= i < j < lay.desc(curves, band).len(),
    ensures
        lane_at(e, desc + i, 3) >= lane_at(e, desc + j, 3),
{
    reveal(list_stands_at);
    let cross = lay.cross_axis();
    let list = lay.desc(curves, band);
    let keys = desc_keys(curves, cross);
    let members = lay.members(curves, band, curves.len());
    lemma_members(lay, curves, band, curves.len());
    lemma_ordered(keys, members);
    assert(precedes(keys, list[i], list[j]));
    assert(members.contains(list[i]) && members.contains(list[j]));
    let c = curves[list[i] as int];
    let d = curves[list[j] as int];
    lemma_lanes_of_extremes(c, cross);
    lemma_lanes_of_extremes(d, cross);
    lemma_lane_order(d.high(cross), c.high(cross));
    assert(lane_at(e, desc + i, 3) == c.high_lane(cross));
    assert(lane_at(e, desc + j, 3) == d.high_lane(cross));
}

proof fn lemma_ascending(
    e: Seq<i16>,
    asc: int,
    lay: BandAxis,
    curves: Seq<QuadCurve>,
    locations: Seq<CurveLocation>,
    elements: int,
    band: int,
    i: int,
    j: int,
)
    requires
        curves.len() <= usize::MAX,
        lay.axis < 2,
        all_fit_lanes(curves, lay.cross_axis()),
        list_stands_at(e, asc, curves, locations, lay.asc(curves, band), lay.axis as int, elements, false),
        0 <= i < j < lay.asc(curves, band).len(),
    ensures
        lane_at(e, asc + i, 3) <= lane_at(e, asc + j, 3),
{
    reveal(list_stands_at);
    let cross = lay.cross_axis();
    let list = lay.asc(curves, band);
    let keys = asc_keys(curves, cross);
    let members = lay.members(curves, band, curves.len());
    lemma_members(lay, curves, band, curves.len());
    lemma_ordered(keys, members);
    assert(precedes(keys, list[i], list[j]));
    assert(members.contains(list[i]) && members.contains(list[j]));
    let c = curves[list[i] as int];
    let d = curves[list[j] as int];
    lemma_lanes_of_extremes(c, cross);
    lemma_lanes_of_extremes(d, cross);
    lemma_lane_order(c.low(cross), d.low(cross));
    assert(lane_at(e, asc + i, 3) == c.low_lane(cross));
    assert(lane_at(e, asc + j, 3) == d.low_lane(cross));
}

/// The two lists of a band name the same curve offsets, as often, and the
/// coordinate at which a walk may stop never grows along the descending list
/// and never falls along the ascending one. This is stated where offsets and
/// coordinates fit the lanes that hold them.
pub proof fn law_packed_lists_are_sorted(
    curves: Seq<QuadCurve>,
    bounds: [F32; 4],
    locations: Seq<CurveLocation>,
    h: BandAxis,
    v: BandAxis,
    horizontal: bool,
    band: int,
)
    requires
        curves.len() <= usize::MAX,
        h.axis == 1,
        v.axis == 0,
        0 <= band < (if horizontal { h } else { v }).count,
        element_count(curves, h, v) <= 0xffff,
        all_fit_lanes(curves, (if horizontal { h } else { v }).cross_axis()),
    ensures
        ({
            let e = band_entries(curves, bounds, locations, h, v);
            let at = header_texel(h, horizontal, band);
            let count = unsigned_lane(lane_at(e, at, 0));
            let desc = unsigned_lane(lane_at(e, at, 1));
            let asc = unsigned_lane(lane_at(e, at, 2));
            &&& asc == desc + count
            &&& Seq::new(count as nat, |k: int| lane_at(e, desc + k, 0)).to_multiset() == Seq::new(
                count as nat,
                |k: int| lane_at(e, asc + k, 0),
            ).to_multiset()
            &&& forall|i: int, j: int|
                0 <= i < j < count ==> #[trigger] lane_at(e, desc + i, 3) >= #[trigger] lane_at(e, desc + j, 3)
            &&& forall|i: int, j: int|
                0 <= i < j < count ==> #[trigger] lane_at(e, asc + i, 3) <= #[trigger] lane_at(e, asc + j, 3)
        }),
{
    law_headers_lead_to_their_lists(curves, bounds, locations, h, v, horizontal, band);
    let lay = if horizontal { h } else { v };
    let e = band_entries(curves, bounds, locations, h, v);
    let elements = element_count(curves, h, v);
    let at = header_texel(h, horizontal, band);
    let count = unsigned_lane(lane_at(e, at, 0));
    let desc = unsigned_lane(lane_at(e, at, 1));
    let asc = unsigned_lane(lane_at(e, at, 2));
    lemma_same_offsets(e, desc, asc, lay, curves, locations, elements, band, count as nat);
    assert forall|i: int, j: int| 0 <= i < j < count implies #[trigger] lane_at(e, desc + i, 3) >= #[trigger] lane_at(
        e,
        desc + j,
        3,
    ) by {
        lemma_descending(e, desc, lay, curves, locations, elements, band, i, j);
    }
    assert forall|i: int, j: int| 0 <= i < j < count implies #[trigger] lane_at(e, asc + i, 3) <= #[trigger] lane_at(
        e,
        asc + j,
        3,
    ) by {
        lemma_ascending(e, asc, lay, curves, locations, elements, band, i, j);
    }
}

proof fn lemma_cell_less_zero(x: F32, count: int)
    ensures
        cell_of(f_sub(x, F32 { bits: 0 }), count) == cell_of(x, count),
{
    reveal(cell_of);
    reveal(f_sub);
    let z = f_neg(F32 { bits: 0 });
    if x.finite() {
        lemma_zero_is_neutral(x, z);
        lemma_order_is_value_order(x, f_add(x, z));
    } else {
        reveal(f_add);
    }
}

proof fn lemma_members_once(lay: BandAxis, curves: Seq<QuadCurve>, band: int, n: nat, i: int)
    requires
        n <= curves.len() <= usize::MAX,
        0 <= i < curves.len(),
    ensures
        lay.members(curves, band, n).to_multiset().count(i as usize) == (if i < n && lay.crosses(curves[i], band) {
            1nat
        } else {
            0
        }),
    decreases n,
{
    let all = lay.members(curves, band, n);
    all.to_multiset_ensures();
    if n > 0 {
        let before = lay.members(curves, band, (n - 1) as nat);
        lemma_members_once(lay, curves, band, (n - 1) as nat, i);
        before.to_multiset_ensures();
    }
}

/// Positions in order fall into bands in order.
proof fn lemma_cells_in_order(x: F32, y: F32, offset: F32, count: int)
    requires
        f_le(x, y),
        count >= 1,
    ensures
        cell_of(f_add(x, offset), count) <= cell_of(f_add(y, offset), count),
{
    reveal(cell_of);
    if x.finite() && y.finite() && offset.finite() {
        law_sums_are_monotone(x, y, offset);
        lemma_cell_is_monotone(f_add(x, offset), f_add(y, offset), count);
    } else {
        reveal(f_add);
    }
}

proof fn lemma_cell_is_monotone(a: F32, b: F32, count: int)
    requires
        f_le(a, b),
        count >= 1,
    ensures
        cell_of(a, count) <= cell_of(b, count),
{
    reveal(cell_of);
    if a.finite() && b.finite() {
        lemma_order_is_value_order(a, b);
        lemma_pow2_pos(149);
        vstd::arithmetic::div_mod::lemma_div_is_ordered(a.value(), b.value(), pow2(149) as int);
    }
}

/// The bands of an axis are counted upwards.
proof fn lemma_scale_is_no_negative(bounds: [F32; 4], axis: int, count: u32)
    requires
        count >= 1,
    ensures
        ({
            let scale = BandAxis::of(bounds, axis, count, true).scale;
            scale.nan() || !scale.negative()
        }),
{
    reveal(f_div);
    reveal(f_from_int);
    let extent = safe_extent(bounds[axis], bounds[axis + 2]);
    let n = f_from_int(count as int);
    lemma_pow2_pos(149);
    assert(count * pow2(149) >= 0) by (nonlinear_arith);
    lemma_rounding_passes_no_pattern(count * pow2(149), 1, 0);
    lemma_magnitude_nonneg(n.unsigned());
    if extent.finite() && !extent.zero() {
        lemma_magnitude_nonneg(extent.unsigned());
        lemma_magnitude_monotone(0, extent.unsigned());
        assert(magnitude(0) == 0);
        let m = magnitude(n.unsigned()) * pow2(149);
        assert(m >= 0) by (nonlinear_arith)
            requires
                m == magnitude(n.unsigned()) * pow2(149),
                magnitude(n.unsigned()) >= 0,
        ;
        lemma_rounding_passes_no_pattern(m, magnitude(extent.unsigned()), 0);
    }
}

/// A curve with finite coordinates reaches at least one band of a border: the band of
/// its lower end is not above that of its upper end, and both are among the bands.
pub proof fn law_border_bands_reach_every_curve(bounds: [F32; 4], axis: int, count: u32, curve: QuadCurve)
    requires
        axis == 0 || axis == 1,
        count >= 1,
        curve.p1[axis].finite(),
        curve.p2[axis].finite(),
        curve.p3[axis].finite(),
    ensures
        ({
            let lay = BandAxis::of(bounds, axis, count, true);
            0 <= lay.first(curve) <= lay.last(curve) < count
        }),
{
    let lay = BandAxis::of(bounds, axis, count, true);
    let low = curve.low(axis);
    let high = curve.high(axis);
    lemma_cell_less_zero(lay.position(high), count as int);
    lemma_scale_is_no_negative(bounds, axis, count);
    let x = f_mul(low, lay.scale);
    let y = f_mul(high, lay.scale);
    if lay.scale.finite() {
        law_products_are_monotone(low, high, lay.scale);
        lemma_cells_in_order(x, y, lay.offset, count as int);
    } else {
        reveal(f_mul);
        if f_le(x, y) {
            lemma_cells_in_order(x, y, lay.offset, count as int);
        } else {
            reveal(f_add);
            reveal(cell_of);
        }
    }
    assert(0 <= lay.first(curve) && lay.last(curve) < count) by {
        reveal(cell_of);
    }
}

/// Which bands of a border list a curve. A curve that is flat along the axis is
/// in none; any other is listed once in every band from that of its lower end
/// to that of its upper end, edges included, and in no other.
pub proof fn law_border_bands_list_curves_once(
    bounds: [F32; 4],
    axis: int,
    count: u32,
    curves: Seq<QuadCurve>,
    band: int,
    i: int,
)
    requires
        curves.len() <= usize::MAX,
        0 <= i < curves.len(),
        axis == 0 || axis == 1,
    ensures
        ({
            let lay = BandAxis::of(bounds, axis, count, true);
            let low = curves[i].low(axis);
            let high = curves[i].high(axis);
            let listed = !f_eq(low, high) && cell_of(lay.position(low), count as int) <= band <= cell_of(
                lay.position(high),
                count as int,
            );
            &&& lay.desc(curves, band).to_multiset().count(i as usize) == (if listed { 1nat } else { 0 })
            &&& lay.asc(curves, band).to_multiset().count(i as usize) == (if listed { 1nat } else { 0 })
        }),
{
    let lay = BandAxis::of(bounds, axis, count, true);
    let members = lay.members(curves, band, curves.len());
    lemma_members_once(lay, curves, band, curves.len(), i);
    lemma_ordered(desc_keys(curves, lay.cross_axis()), members);
    lemma_ordered(asc_keys(curves, lay.cross_axis()), members);
    lemma_cell_less_zero(lay.position(curves[i].high(axis)), count as int);
}

/// The bands of a box along an axis.
pub open spec fn lay_for(bounds: [F32; 4], band_count_x: u32, band_count_y: u32, upper: bool, horizontal: bool) -> BandAxis {
    if horizontal {
        BandAxis::of(bounds, 1, band_count_y, upper)
    } else {
        BandAxis::of(bounds, 0, band_count_x, upper)
    }
}

/// The bands of an outline along an axis.
pub open spec fn lay_of(outline: GlyphOutline, band_count_x: u32, band_count_y: u32, upper: bool, horizontal: bool) -> BandAxis {
    lay_for(outline.bounds, band_count_x, band_count_y, upper, horizontal)
}

/// Texels of the band region of curves in a box.
pub open spec fn elements_for(
    curves: Seq<QuadCurve>,
    bounds: [F32; 4],
    band_count_x: u32,
    band_count_y: u32,
    upper: bool,
) -> int {
    element_count(
        curves,
        lay_for(bounds, band_count_x, band_count_y, upper, true),
        lay_for(bounds, band_count_x, band_count_y, upper, false),
    )
}

/// Texels of the band region of an outline.
pub open spec fn built_elements(outline: GlyphOutline, band_count_x: u32, band_count_y: u32, upper: bool) -> int {
    elements_for(outline.curves@, outline.bounds, band_count_x, band_count_y, upper)
}

/// A band's list in a band region, given by which header lane names its start.
pub open spec fn entries_list(entries: Seq<i16>, rows: int, horizontal: bool, band: int, start_lane: int, lane: int) -> Seq<i16> {
    let at = if horizontal { band } else { rows + band };
    let count = unsigned_lane(lane_at(entries, at, 0));
    let start = unsigned_lane(lane_at(entries, at, start_lane));
    Seq::new(count as nat, |k: int| lane_at(entries, start + k, lane))
}

/// A band's list in built data.
pub open spec fn built_list(data: BandData, horizontal: bool, band: int, start_lane: int, lane: int) -> Seq<i16> {
    entries_list(data.entries@, data.band_count_y as int, horizontal, band, start_lane, lane)
}

/// Built bands, as they are uploaded: in every band the ascending list follows the
/// descending one, both name the same curve offsets as often, and the coordinate at
/// which a walk may stop never grows along the one and never falls along the other.
pub proof fn law_built_lists_are_sorted(
    outline: GlyphOutline,
    locations: Seq<CurveLocation>,
    data: BandData,
    band_count_x: u32,
    band_count_y: u32,
    upper: bool,
    horizontal: bool,
    band: int,
)
    requires
        bands_of(outline, locations, data, band_count_x, band_count_y, upper),
        0 <= band < (if horizontal { band_count_y } else { band_count_x }),
        built_elements(outline, band_count_x, band_count_y, upper) <= 0xffff,
        all_fit_lanes(outline.curves@, 0),
        all_fit_lanes(outline.curves@, 1),
        outline.curves@.len() <= usize::MAX,
    ensures
        ({
            let at = if horizontal { band } else { band_count_y + band };
            let e = data.entries@;
            let desc = built_list(data, horizontal, band, 1, 3);
            let asc = built_list(data, horizontal, band, 2, 3);
            &&& unsigned_lane(lane_at(e, at, 2)) == unsigned_lane(lane_at(e, at, 1)) + unsigned_lane(lane_at(e, at, 0))
            &&& built_list(data, horizontal, band, 1, 0).to_multiset() == built_list(
                data,
                horizontal,
                band,
                2,
                0,
            ).to_multiset()
            &&& forall|i: int, j: int| 0 <= i < j < desc.len() ==> #[trigger] desc[i] >= #[trigger] desc[j]
            &&& forall|i: int, j: int| 0 <= i < j < asc.len() ==> #[trigger] asc[i] <= #[trigger] asc[j]
        }),
{
    let h = lay_of(outline, band_count_x, band_count_y, upper, true);
    let v = lay_of(outline, band_count_x, band_count_y, upper, false);
    law_packed_lists_are_sorted(outline.curves@, outline.bounds, locations, h, v, horizontal, band);
    let e = data.entries@;
    let at = header_texel(h, horizontal, band);
    let start = unsigned_lane(lane_at(e, at, 1));
    let second = unsigned_lane(lane_at(e, at, 2));
    let desc = built_list(data, horizontal, band, 1, 3);
    let asc = built_list(data, horizontal, band, 2, 3);
    assert forall|i: int, j: int| 0 <= i < j < desc.len() implies #[trigger] desc[i] >= #[trigger] desc[j] by {
        assert(lane_at(e, start + i, 3) >= lane_at(e, start + j, 3));
    }
    assert forall|i: int, j: int| 0 <= i < j < asc.len() implies #[trigger] asc[i] <= #[trigger] asc[j] by {
        assert(lane_at(e, second + i, 3) <= lane_at(e, second + j, 3));
    }
}

/// A value that only one index has is as often among the values as the index.
proof fn lemma_mapped_count(list: Seq<usize>, f: spec_fn(usize) -> i16, x: usize)
    requires
        forall|k: int| 0 <= k < list.len() && f(#[trigger] list[k]) == f(x) ==> list[k] == x,
    ensures
        list.map_values(f).to_multiset().count(f(x)) == list.to_multiset().count(x),
    decreases list.len(),
{
    let values = list.map_values(f);
    list.to_multiset_ensures();
    values.to_multiset_ensures();
    if list.len() > 0 {
        let rest = list.drop_last();
        let y = list.last();
        assert forall|k: int| 0 <= k < rest.len() && f(#[trigger] rest[k]) == f(x) implies rest[k] == x by {
            assert(rest[k] == list[k]);
        }
        lemma_mapped_count(rest, f, x);
        rest.to_multiset_ensures();
        rest.map_values(f).to_multiset_ensures();
        assert(list =~= rest.push(y));
        assert(values =~= rest.map_values(f).push(f(y)));
        assert(f(list[list.len() - 1]) == f(x) ==> y == x);
    }
}

/// The curves have locations of their own, within what a lane names.
pub open spec fn located_apart(locations: Seq<CurveLocation>, n: int, elements: int) -> bool {
    &&& forall|i: int| 0 <= i < n ==> (#[trigger] locations[i]).offset + elements <= 0xffff
    &&& forall|i: int, j: int|
        0 <= i < j < n ==> (#[trigger] locations[i]).offset != (#[trigger] locations[j]).offset
}

/// Built border bands, as they are uploaded. A curve that is flat along an axis is
/// named by no band along it. Any other is named exactly once by the descending list of
/// every band from that of its lower end to that of its upper end, found with the
/// uploaded transform, edges included, and by no other band.
pub proof fn law_built_border_bands_name_curves_once(
    outline: GlyphOutline,
    locations: Seq<CurveLocation>,
    data: BandData,
    band_count_x: u32,
    band_count_y: u32,
    horizontal: bool,
    band: int,
    i: int,
)
    requires
        bands_of(outline, locations, data, band_count_x, band_count_y, true),
        0 <= band < (if horizontal { band_count_y } else { band_count_x }),
        built_elements(outline, band_count_x, band_count_y, true) <= 0xffff,
        located_apart(
            locations,
            outline.curves@.len() as int,
            built_elements(outline, band_count_x, band_count_y, true),
        ),
        0 <= i < outline.curves@.len() <= usize::MAX,
    ensures
        ({
            let axis: int = if horizontal { 1 } else { 0 };
            let count = if horizontal { band_count_y as int } else { band_count_x as int };
            let scale = data.band_transform@[axis];
            let offset = data.band_transform@[2 + axis];
            let low = outline.curves@[i].low(axis);
            let high = outline.curves@[i].high(axis);
            let first = cell_of(f_add(f_mul(low, scale), offset), count);
            let last = cell_of(f_add(f_mul(high, scale), offset), count);
            let elements = built_elements(outline, band_count_x, band_count_y, true);
            let name = wrap16(locations[i].offset + elements) as i16;
            built_list(data, horizontal, band, 1, 0).to_multiset().count(name) == (if !f_eq(low, high) && first <= band
                <= last {
                1nat
            } else {
                0
            })
        }),
{
    let h = lay_of(outline, band_count_x, band_count_y, true, true);
    let v = lay_of(outline, band_count_x, band_count_y, true, false);
    let lay = if horizontal { h } else { v };
    let axis: int = if horizontal { 1 } else { 0 };
    let count = if horizontal { band_count_y } else { band_count_x };
    let curves = outline.curves@;
    let elements = element_count(curves, h, v);
    law_headers_lead_to_their_lists(curves, outline.bounds, locations, h, v, horizontal, band);
    law_border_bands_list_curves_once(outline.bounds, axis, count, curves, band, i);
    let list = lay.desc(curves, band);
    let members = lay.members(curves, band, curves.len());
    lemma_members(lay, curves, band, curves.len());
    lemma_ordered(desc_keys(curves, lay.cross_axis()), members);
    let f = |k: usize| wrap16(locations[k as int].offset + elements) as i16;
    assert forall|k: int| 0 <= k < list.len() && f(#[trigger] list[k]) == f(i as usize) implies list[k] == i as usize by {
        assert(members.contains(list[k]));
        let j = list[k] as int;
        assert(0 <= j < curves.len());
        lemma_lane_reads_back(locations[j].offset + elements);
        lemma_lane_reads_back(locations[i].offset + elements);
        if j < i {
            assert(locations[j].offset != locations[i].offset);
        } else if i < j {
            assert(locations[i].offset != locations[j].offset);
        }
    }
    lemma_mapped_count(list, f, i as usize);
    reveal(list_stands_at);
    assert(built_list(data, horizontal, band, 1, 0) =~= list.map_values(f));
}

/// A position on the bands of an axis, by an uploaded transform.
pub open spec fn transformed(transform: Seq<F32>, axis: int, v: F32) -> F32 {
    f_add(f_mul(v, transform[axis]), transform[2 + axis])
}

/// Where a curve reaches along an axis, by an uploaded transform: from the band of its
/// lower end to that of its upper end. A fill leaves a band out that a curve only just
/// touches from below.
pub open spec fn reaches_band(
    transform: Seq<F32>,
    c: QuadCurve,
    horizontal: bool,
    count: int,
    upper: bool,
    band: int,
) -> bool {
    let axis: int = if horizontal { 1 } else { 0 };
    let low = c.low(axis);
    let high = c.high(axis);
    let top = transformed(transform, axis, high);
    &&& !f_eq(low, high)
    &&& cell_of(transformed(transform, axis, low), count) <= band
    &&& band <= cell_of(if upper { top } else { f_sub(top, F32 { bits: BAND_EPSILON_BITS }) }, count)
}

/// The transform of the bands of a box.
pub open spec fn transform_for(bounds: [F32; 4], band_count_x: u32, band_count_y: u32, upper: bool) -> Seq<F32> {
    let h = lay_for(bounds, band_count_x, band_count_y, upper, true);
    let v = lay_for(bounds, band_count_x, band_count_y, upper, false);
    seq![v.scale, h.scale, v.offset, h.offset]
}

/// The band region of curves in a box.
pub open spec fn entries_for(
    curves: Seq<QuadCurve>,
    bounds: [F32; 4],
    locations: Seq<CurveLocation>,
    band_count_x: u32,
    band_count_y: u32,
    upper: bool,
) -> Seq<i16> {
    band_entries(
        curves,
        bounds,
        locations,
        lay_for(bounds, band_count_x, band_count_y, upper, true),
        lay_for(bounds, band_count_x, band_count_y, upper, false),
    )
}

pub proof fn lemma_entries_name_curves_once(
    curves: Seq<QuadCurve>,
    bounds: [F32; 4],
    locations: Seq<CurveLocation>,
    band_count_x: u32,
    band_count_y: u32,
    upper: bool,
    horizontal: bool,
    band: int,
    i: int,
)
    requires
        0 <= band < (if horizontal { band_count_y } else { band_count_x }),
        elements_for(curves, bounds, band_count_x, band_count_y, upper) <= 0xffff,
        located_apart(
            locations,
            curves.len() as int,
            elements_for(curves, bounds, band_count_x, band_count_y, upper),
        ),
        0 <= i < curves.len() <= usize::MAX,
    ensures
        ({
            let e = entries_for(curves, bounds, locations, band_count_x, band_count_y, upper);
            let t = transform_for(bounds, band_count_x, band_count_y, upper);
            let count = if horizontal { band_count_y as int } else { band_count_x as int };
            let elements = elements_for(curves, bounds, band_count_x, band_count_y, upper);
            let at = if horizontal { band } else { band_count_y + band };
            let n = unsigned_lane(lane_at(e, at, 0));
            let name = wrap16(locations[i].offset + elements) as i16;
            let times = if reaches_band(t, curves[i], horizontal, count, upper, band) {
                1nat
            } else {
                0
            };
            &&& e.len() == 4 * elements
            &&& unsigned_lane(lane_at(e, at, 2)) == unsigned_lane(lane_at(e, at, 1)) + n
            &&& unsigned_lane(lane_at(e, at, 2)) + n <= elements
            &&& entries_list(e, band_count_y as int, horizontal, band, 1, 0).to_multiset().count(name) == times
            &&& entries_list(e, band_count_y as int, horizontal, band, 2, 0).to_multiset().count(name) == times
        }),
{
    let h = lay_for(bounds, band_count_x, band_count_y, upper, true);
    let v = lay_for(bounds, band_count_x, band_count_y, upper, false);
    let lay = if horizontal { h } else { v };
    let axis: int = if horizontal { 1 } else { 0 };
    let count = if horizontal { band_count_y } else { band_count_x };
    let elements = element_count(curves, h, v);
    let e = entries_for(curves, bounds, locations, band_count_x, band_count_y, upper);
    let t = transform_for(bounds, band_count_x, band_count_y, upper);
    law_headers_lead_to_their_lists(curves, bounds, locations, h, v, horizontal, band);
    law_entries_are_whole_texels(curves, bounds, locations, h, v);
    lemma_members_once(lay, curves, band, curves.len(), i);
    lemma_members(lay, curves, band, curves.len());
    let members = lay.members(curves, band, curves.len());
    lemma_ordered(desc_keys(curves, lay.cross_axis()), members);
    lemma_ordered(asc_keys(curves, lay.cross_axis()), members);
    lemma_cell_less_zero(lay.position(curves[i].high(axis)), count as int);
    assert(t[axis] == lay.scale && t[2 + axis] == lay.offset);
    let f = |k: usize| wrap16(locations[k as int].offset + elements) as i16;
    lemma_names_are_apart(lay.desc(curves, band), members, locations, elements, curves.len() as int, i);
    lemma_names_are_apart(lay.asc(curves, band), members, locations, elements, curves.len() as int, i);
    lemma_mapped_count(lay.desc(curves, band), f, i as usize);
    lemma_mapped_count(lay.asc(curves, band), f, i as usize);
    reveal(list_stands_at);
    assert(entries_list(e, band_count_y as int, horizontal, band, 1, 0) =~= lay.desc(curves, band).map_values(f));
    assert(entries_list(e, band_count_y as int, horizontal, band, 2, 0) =~= lay.asc(curves, band).map_values(f));
}

/// Built bands name every curve exactly once in each band that it reaches by the
/// uploaded transform, in both lists, and in no other.
pub proof fn law_built_bands_name_curves_once(
    outline: GlyphOutline,
    locations: Seq<CurveLocation>,
    data: BandData,
    band_count_x: u32,
    band_count_y: u32,
    upper: bool,
    horizontal: bool,
    band: int,
    i: int,
)
    requires
        bands_of(outline, locations, data, band_count_x, band_count_y, upper),
        0 <= band < (if horizontal { band_count_y } else { band_count_x }),
        built_elements(outline, band_count_x, band_count_y, upper) <= 0xffff,
        located_apart(
            locations,
            outline.curves@.len() as int,
            built_elements(outline, band_count_x, band_count_y, upper),
        ),
        0 <= i < outline.curves@.len() <= usize::MAX,
    ensures
        ({
            let count = if horizontal { band_count_y as int } else { band_count_x as int };
            let elements = built_elements(outline, band_count_x, band_count_y, upper);
            let name = wrap16(locations[i].offset + elements) as i16;
            let times = if reaches_band(data.band_transform@, outline.curves@[i], horizontal, count, upper, band) {
                1nat
            } else {
                0
            };
            &&& built_list(data, horizontal, band, 1, 0).to_multiset().count(name) == times
            &&& built_list(data, horizontal, band, 2, 0).to_multiset().count(name) == times
        }),
{
    lemma_entries_name_curves_once(
        outline.curves@,
        outline.bounds,
        locations,
        band_count_x,
        band_count_y,
        upper,
        horizontal,
        band,
        i,
    );
    assert(data.band_transform@ =~= transform_for(outline.bounds, band_count_x, band_count_y, upper));
}

proof fn lemma_names_are_apart(
    list: Seq<usize>,
    members: Seq<usize>,
    locations: Seq<CurveLocation>,
    elements: int,
    n: int,
    i: int,
)
    requires
        located_apart(locations, n, elements),
        0 <= elements,
        0 <= i < n <= usize::MAX,
        forall|k: int| 0 <= k < list.len() ==> members.contains(#[trigger] list[k]),
        forall|k: int| 0 <= k < members.len() ==> #[trigger] members[k] < n,
    ensures
        ({
            let f = |k: usize| wrap16(locations[k as int].offset + elements) as i16;
            forall|k: int| 0 <= k < list.len() && f(#[trigger] list[k]) == f(i as usize) ==> list[k] == i as usize
        }),
{
    let f = |k: usize| wrap16(locations[k as int].offset + elements) as i16;
    assert forall|k: int| 0 <= k < list.len() && f(#[trigger] list[k]) == f(i as usize) implies list[k] == i as usize by {
        assert(members.contains(list[k]));
        let j = list[k] as int;
        assert(0 <= j < n);
        lemma_lane_reads_back(locations[j].offset + elements);
        lemma_lane_reads_back(locations[i].offset + elements);
        if j < i {
            assert(locations[j].offset != locations[i].offset);
        } else if i < j {
            assert(locations[i].offset != locations[j].offset);
        }
    }
}

/// The transform puts the lower bound of an axis at the start of its bands: there a
/// position is exactly zero.
pub proof fn law_transform_starts_at_the_bounds(
    outline: GlyphOutline,
    locations: Seq<CurveLocation>,
    data: BandData,
    band_count_x: u32,
    band_count_y: u32,
    upper: bool,
    axis: int,
)
    requires
        bands_of(outline, locations, data, band_count_x, band_count_y, upper),
        axis == 0 || axis == 1,
        f_mul(outline.bounds[axis], data.band_transform@[axis]).finite(),
    ensures
        transformed(data.band_transform@, axis, outline.bounds[axis]).zero(),
{
    let scale = data.band_transform@[axis];
    let low = outline.bounds[axis];
    lemma_start_is_zero(low, scale);
}

pub proof fn lemma_start_is_zero(low: F32, scale: F32)
    requires
        f_mul(low, scale).finite(),
    ensures
        f_add(f_mul(low, scale), f_mul(f_neg(low), scale)).zero(),
{
    let x = f_mul(low, scale);
    lemma_negation_is_opposite(low);
    lemma_negation_is_opposite(scale);
    lemma_products_match(f_neg(low), scale, low, scale, true, false);
    reveal(f_add);
    let y = f_mul(f_neg(low), scale);
    assert(magnitude(0) == 0);
    assert(x.value() + y.value() == 0);
}

/// Positions grow with coordinates, so whatever band a fragment at `v` reads, it finds
/// every curve there that passes its level: a border's bands name each curve in the band
/// of every coordinate between the curve's ends.
pub proof fn law_fragments_find_their_curves(
    outline: GlyphOutline,
    locations: Seq<CurveLocation>,
    data: BandData,
    band_count_x: u32,
    band_count_y: u32,
    horizontal: bool,
    i: int,
    v: F32,
)
    requires
        bands_of(outline, locations, data, band_count_x, band_count_y, true),
        band_count_x > 0,
        band_count_y > 0,
        0 <= i < outline.curves@.len(),
        ({
            let axis: int = if horizontal { 1 } else { 0 };
            let c = outline.curves@[i];
            &&& c.p1[axis].finite() && c.p2[axis].finite() && c.p3[axis].finite() && v.finite()
            &&& f_le(c.low(axis), v)
            &&& f_le(v, c.high(axis))
            &&& !f_eq(c.low(axis), c.high(axis))
            &&& data.band_transform@[axis].finite()
        }),
    ensures
        ({
            let axis: int = if horizontal { 1 } else { 0 };
            let count = if horizontal { band_count_y as int } else { band_count_x as int };
            let band = cell_of(transformed(data.band_transform@, axis, v), count);
            reaches_band(data.band_transform@, outline.curves@[i], horizontal, count, true, band)
        }),
{
    let axis: int = if horizontal { 1 } else { 0 };
    let count = if horizontal { band_count_y } else { band_count_x };
    let c = outline.curves@[i];
    let scale = data.band_transform@[axis];
    let offset = data.band_transform@[2 + axis];
    lemma_scale_is_no_negative(outline.bounds, axis, count);
    assert(!scale.negative());
    law_products_are_monotone(c.low(axis), v, scale);
    law_products_are_monotone(v, c.high(axis), scale);
    lemma_cells_in_order(f_mul(c.low(axis), scale), f_mul(v, scale), offset, count as int);
    lemma_cells_in_order(f_mul(v, scale), f_mul(c.high(axis), scale), offset, count as int);
}

}
