//! Turning an outline into the words of a glyph blob.
use vstd::prelude::*;
use crate::band::{
    BandAxis, BandData, BandScratch, CurveLocation, band_entries, bands_fit, build_bands, count_elements,
    element_count, grid_step, lane, law_entries_are_whole_texels, lemma_refs_bound, quantize_i16,
};
use crate::float32::{F32, FOUR_BITS, f_eq, f_mul};
use crate::outline::{GlyphOutline, QuadCurve};
use crate::packing::{append_packed, packed_words};

pub mod laws;

verus! {

/// A glyph's band and curve data, ready to be appended to the atlas.
pub struct PreparedMono {
    /// Two words per texel: the bands, then the curves.
    pub blob_data: Vec<i32>,
    /// Texels in `blob_data`.
    pub blob_size: u32,
    pub bounds: [F32; 4],
    pub band_transform: [F32; 4],
    pub band_count_x: u32,
    pub band_count_y: u32,
    pub units_per_em: F32,
}

impl PreparedMono {
    pub open spec fn wf(self) -> bool {
        self.blob_data@.len() == 2 * self.blob_size
    }
}

/// Buffers that are reused from glyph to glyph.
pub struct PrepScratch {
    bands: BandScratch,
    entries: Vec<i16>,
}

impl Default for PrepScratch {
    fn default() -> (r: Self)
        ensures
            r.is_empty(),
    {
        PrepScratch { bands: BandScratch::default(), entries: Vec::new() }
    }
}

impl PrepScratch {
    /// Nothing is held over from an earlier glyph.
    pub closed spec fn is_empty(self) -> bool {
        self.bands.is_empty() && self.entries@.len() == 0
    }
}

/// A curve starts where the one before it ends.
pub open spec fn continues(before: QuadCurve, c: QuadCurve) -> bool {
    f_eq(c.p1[0], before.p3[0]) && f_eq(c.p1[1], before.p3[1])
}

/// The curve texels of the first `n` curves, four lanes each. A curve takes a
/// texel for its start and control point and one for its end point; a curve
/// that continues the one before it puts its control point beside that one's
/// end point instead.
pub open spec fn curve_lanes(curves: Seq<QuadCurve>, n: nat) -> Seq<i16>
    decreases n,
{
    if n == 0 {
        Seq::empty()
    } else {
        let before = curve_lanes(curves, (n - 1) as nat);
        let c = curves[n - 1];
        let head = if n > 1 && continues(curves[n - 2], c) {
            before.update(before.len() - 2, lane(c.p2[0])).update(before.len() - 1, lane(c.p2[1]))
        } else {
            before + seq![lane(c.p1[0]), lane(c.p1[1]), lane(c.p2[0]), lane(c.p2[1])]
        };
        head + seq![lane(c.p3[0]), lane(c.p3[1]), 0i16, 0i16]
    }
}

/// The texel, within the curve texels, that a curve starts at.
pub open spec fn curve_offset(curves: Seq<QuadCurve>, i: int) -> int {
    curve_lanes(curves, (i + 1) as nat).len() / 4 - 2
}

pub open spec fn curve_locations(curves: Seq<QuadCurve>) -> Seq<CurveLocation> {
    Seq::new(curves.len(), |i: int| CurveLocation { offset: curve_offset(curves, i) as u32 })
}

proof fn lemma_curve_lanes_len(curves: Seq<QuadCurve>, n: nat)
    ensures
        curve_lanes(curves, n).len() % 4 == 0,
        curve_lanes(curves, n).len() <= 8 * n,
        n > 0 ==> curve_lanes(curves, n).len() >= 4 * n + 4,
        n > 0 ==> curve_lanes(curves, n).len() >= curve_lanes(curves, (n - 1) as nat).len() + 4,
    decreases n,
{
    if n > 0 {
        lemma_curve_lanes_len(curves, (n - 1) as nat);
    }
}

proof fn lemma_curve_offset_bounds(curves: Seq<QuadCurve>, i: int)
    requires
        0 <= i < curves.len(),
    ensures
        0 <= curve_offset(curves, i) <= 2 * i,
        4 * curve_offset(curves, i) + 8 == curve_lanes(curves, (i + 1) as nat).len(),
{
    lemma_curve_lanes_len(curves, (i + 1) as nat);
}

/// Packs the curves of an outline, and says where each of them starts.
pub fn pack_curves(curves: &Vec<QuadCurve>) -> (r: (Vec<i16>, Vec<CurveLocation>))
    requires
        curve_texels(curves@, curves@.len()) <= u32::MAX,
    ensures
        r.0@ == curve_lanes(curves@, curves@.len()),
        r.1@ == curve_locations(curves@),
{
    let n: usize = curves.len();
    let mut lanes: Vec<i16> = Vec::new();
    let mut locations: Vec<CurveLocation> = Vec::new();
    let mut i: usize = 0;
    while i < n
        invariant
            i <= n,
            n == curves.len(),
            curve_texels(curves@, n as nat) <= u32::MAX,
            lanes@ == curve_lanes(curves@, i as nat),
            locations.len() == i,
            forall|j: int| 0 <= j < i ==> #[trigger] locations@[j].offset == curve_offset(curves@, j),
        decreases n - i,
    {
        let c: &QuadCurve = &curves[i];
        proof {
            lemma_curve_lanes_len(curves@, i as nat);
            lemma_curve_offset_bounds(curves@, i as int);
            lemma_curve_lanes_grow(curves@, (i + 1) as nat, n as nat);
        }
        let ghost before = lanes@;
        let continuation: bool = i > 0 && c.p1[0].eq_value(curves[i - 1].p3[0]) && c.p1[1].eq_value(
            curves[i - 1].p3[1],
        );
        let x2: i16 = quantize_i16(c.p2[0]);
        let y2: i16 = quantize_i16(c.p2[1]);
        if continuation {
            let end: usize = lanes.len();
            lanes.set(end - 2, x2);
            lanes.set(end - 1, y2);
        } else {
            lanes.push(quantize_i16(c.p1[0]));
            lanes.push(quantize_i16(c.p1[1]));
            lanes.push(x2);
            lanes.push(y2);
            assert(lanes@ =~= before + seq![lane(c.p1[0]), lane(c.p1[1]), lane(c.p2[0]), lane(c.p2[1])]);
        }
        let ghost head = lanes@;
        let offset: u32 = (lanes.len() / 4 - 1) as u32;
        lanes.push(quantize_i16(c.p3[0]));
        lanes.push(quantize_i16(c.p3[1]));
        lanes.push(0);
        lanes.push(0);
        proof {
            assert(lanes@ =~= head + seq![lane(c.p3[0]), lane(c.p3[1]), 0i16, 0i16]);
            assert(lanes@ == curve_lanes(curves@, (i + 1) as nat));
        }
        locations.push(CurveLocation { offset });
        i = i + 1;
    }
    proof {
        assert forall|j: int| 0 <= j < n implies #[trigger] locations@[j] == curve_locations(curves@)[j] by {
            lemma_curve_offset_bounds(curves@, j);
            lemma_curve_lanes_grow(curves@, (j + 1) as nat, n as nat);
            assert(locations@[j].offset == curve_offset(curves@, j));
        }
        assert(locations@ =~= curve_locations(curves@));
    }
    (lanes, locations)
}

/// Numerically equal coordinates have the same lane.
proof fn lemma_equal_lanes(a: F32, b: F32)
    requires
        f_eq(a, b),
    ensures
        lane(a) == lane(b),
{
    if a != b {
        assert(a.zero() && b.zero());
        lemma_zero_lane(a);
        lemma_zero_lane(b);
    }
}

proof fn lemma_zero_lane(a: F32)
    requires
        a.zero(),
    ensures
        lane(a) == 0,
{
    reveal(lane);
    reveal(grid_step);
    crate::float32::lemma_zero_product(a, F32 { bits: FOUR_BITS });
    crate::float32::lemma_zero_rounds(f_mul(a, F32 { bits: FOUR_BITS }));
}

/// The points of a curve, read back from the curve texels at its offset.
pub open spec fn texels_hold(lanes: Seq<i16>, at: int, c: QuadCurve) -> bool {
    &&& 0 <= 4 * at
    &&& 4 * at + 6 <= lanes.len()
    &&& lanes[4 * at] == lane(c.p1[0])
    &&& lanes[4 * at + 1] == lane(c.p1[1])
    &&& lanes[4 * at + 2] == lane(c.p2[0])
    &&& lanes[4 * at + 3] == lane(c.p2[1])
    &&& lanes[4 * at + 4] == lane(c.p3[0])
    &&& lanes[4 * at + 5] == lane(c.p3[1])
}

/// Sharing texels between continued curves loses nothing: every curve's start,
/// control and end point can be read at its offset.
pub proof fn law_curve_texels_hold_points(curves: Seq<QuadCurve>, n: nat, i: int)
    requires
        0 <= i < n <= curves.len(),
    ensures
        texels_hold(curve_lanes(curves, n), curve_offset(curves, i), curves[i]),
    decreases n,
{
    lemma_curve_lanes_len(curves, n);
    lemma_curve_lanes_len(curves, (n - 1) as nat);
    let before = curve_lanes(curves, (n - 1) as nat);
    let c = curves[n - 1];
    lemma_curve_offset_bounds(curves, n - 1);
    if i < n - 1 {
        law_curve_texels_hold_points(curves, (n - 1) as nat, i);
        lemma_curve_lanes_grow(curves, (i + 1) as nat, (n - 1) as nat);
        lemma_curve_offset_bounds(curves, i);
    } else if n > 1 && continues(curves[n - 2], c) {
        law_curve_texels_hold_points(curves, (n - 1) as nat, n - 2);
        lemma_curve_offset_bounds(curves, n - 2);
        lemma_equal_lanes(c.p1[0], curves[n - 2].p3[0]);
        lemma_equal_lanes(c.p1[1], curves[n - 2].p3[1]);
    }
}

proof fn lemma_curve_lanes_grow(curves: Seq<QuadCurve>, a: nat, b: nat)
    requires
        a <= b,
    ensures
        curve_lanes(curves, a).len() <= curve_lanes(curves, b).len(),
    decreases b - a,
{
    if a < b {
        lemma_curve_lanes_grow(curves, a, (b - 1) as nat);
        lemma_curve_lanes_len(curves, b);
    }
}

/// Texels that the first `n` curves take.
pub open spec fn curve_texels(curves: Seq<QuadCurve>, n: nat) -> int {
    curve_lanes(curves, n).len() as int / 4
}

/// An outline's counters fit 32 bits: the words of its bands, and the texels of its
/// bands and curves together.
#[verifier::opaque]
pub open spec fn counters_fit(outline: GlyphOutline, band_count_x: u32, band_count_y: u32) -> bool {
    let elements = element_count(outline.curves@, h_axis(outline, band_count_y), v_axis(outline, band_count_x));
    2 * elements <= u32::MAX && elements + curve_texels(outline.curves@, outline.curves@.len()) <= u32::MAX
}

fn count_curve_texels(curves: &Vec<QuadCurve>) -> (r: u128)
    ensures
        r == curve_texels(curves@, curves@.len()),
        r <= 2 * curves@.len() <= 0x2_0000_0000_0000_0000,
{
    let mut total: u128 = 0;
    for i in 0..curves.len()
        invariant
            total == curve_texels(curves@, i as nat),
            total <= 2 * i,
    {
        proof {
            lemma_curve_lanes_len(curves@, i as nat);
        }
        let c: &QuadCurve = &curves[i];
        if i > 0 && c.p1[0].eq_value(curves[i - 1].p3[0]) && c.p1[1].eq_value(curves[i - 1].p3[1]) {
            total = total + 1;
        } else {
            total = total + 2;
        }
    }
    total
}

fn check_counters(outline: &GlyphOutline, band_count_x: u32, band_count_y: u32) -> (r: bool)
    requires
        band_count_x > 0,
        band_count_y > 0,
    ensures
        r == counters_fit(*outline, band_count_x, band_count_y),
{
    reveal(counters_fit);
    let elements: u128 = count_elements(outline, band_count_x, band_count_y);
    let texels: u128 = count_curve_texels(&outline.curves);
    elements <= 0x7fff_ffff && elements + texels <= u32::MAX as u128
}

/// The bands of an outline.
pub open spec fn h_axis(outline: GlyphOutline, count: u32) -> BandAxis {
    BandAxis::of(outline.bounds, 1, count, false)
}

pub open spec fn v_axis(outline: GlyphOutline, count: u32) -> BandAxis {
    BandAxis::of(outline.bounds, 0, count, false)
}

/// The band lanes of an outline.
pub open spec fn outline_band_lanes(outline: GlyphOutline, band_count_x: u32, band_count_y: u32) -> Seq<i16> {
    band_entries(
        outline.curves@,
        outline.bounds,
        curve_locations(outline.curves@),
        h_axis(outline, band_count_y),
        v_axis(outline, band_count_x),
    )
}

#[verifier::opaque]
pub open spec fn outline_transform(outline: GlyphOutline, band_count_x: u32, band_count_y: u32) -> Seq<F32> {
    let h = h_axis(outline, band_count_y);
    let v = v_axis(outline, band_count_x);
    seq![v.scale, h.scale, v.offset, h.offset]
}

/// The words of an outline's blob: its bands, then its curves.
#[verifier::opaque]
pub open spec fn outline_words(outline: GlyphOutline, band_count_x: u32, band_count_y: u32) -> Seq<i32> {
    packed_words(outline_band_lanes(outline, band_count_x, band_count_y)) + packed_words(
        curve_lanes(outline.curves@, outline.curves@.len()),
    )
}

pub proof fn lemma_counters_fit(outline: GlyphOutline, band_count_x: u32, band_count_y: u32)
    requires
        counters_fit(outline, band_count_x, band_count_y),
        outline.curves@.len() > 0 ==> band_count_x > 0 && band_count_y > 0,
        band_count_x <= 0x100_0000,
        band_count_y <= 0x100_0000,
    ensures
        bands_fit(outline, curve_locations(outline.curves@), band_count_x, band_count_y, false),
        element_count(outline.curves@, h_axis(outline, band_count_y), v_axis(outline, band_count_x)) + curve_lanes(
            outline.curves@,
            outline.curves@.len(),
        ).len() / 4 <= u32::MAX,
        outline_band_lanes(outline, band_count_x, band_count_y).len() == 4 * element_count(
            outline.curves@,
            h_axis(outline, band_count_y),
            v_axis(outline, band_count_x),
        ),
        curve_lanes(outline.curves@, outline.curves@.len()).len() % 4 == 0,
        outline_words(outline, band_count_x, band_count_y).len() == 2 * (element_count(
            outline.curves@,
            h_axis(outline, band_count_y),
            v_axis(outline, band_count_x),
        ) + curve_lanes(outline.curves@, outline.curves@.len()).len() / 4),
{
    reveal(counters_fit);
    reveal(outline_words);
    let curves = outline.curves@;
    let h = h_axis(outline, band_count_y);
    let v = v_axis(outline, band_count_x);
    lemma_curve_lanes_len(curves, curves.len());
    law_entries_are_whole_texels(curves, outline.bounds, curve_locations(curves), h, v);
    lemma_locations_fit(curves, element_count(curves, h, v));
}

/// A band region is never longer than all curves in all bands, twice.
pub proof fn lemma_elements_bound(curves: Seq<QuadCurve>, h: BandAxis, v: BandAxis)
    requires
        curves.len() <= usize::MAX,
    ensures
        0 <= element_count(curves, h, v) <= (v.count + h.count) * (2 * curves.len() + 1),
{
    let n = curves.len() as int;
    let x = v.count as int;
    let y = h.count as int;
    lemma_refs_bound(h, curves, h.count as nat);
    lemma_refs_bound(v, curves, v.count as nat);
    assert((x + y) * (2 * n + 1) == 2 * (y * n + x * n) + (x + y)) by (nonlinear_arith);
}

proof fn lemma_locations_fit(curves: Seq<QuadCurve>, elements: int)
    requires
        elements + curve_texels(curves, curves.len()) <= u32::MAX,
        elements >= 0,
    ensures
        forall|i: int| 0 <= i < curves.len() ==> #[trigger] curve_locations(curves)[i].offset + elements <= u32::MAX,
{
    assert forall|i: int| 0 <= i < curves.len() implies #[trigger] curve_locations(curves)[i].offset + elements
        <= u32::MAX by {
        lemma_curve_offset_bounds(curves, i);
        lemma_curve_lanes_grow(curves, (i + 1) as nat, curves.len());
    }
}

/// A blob is that of an outline, with what goes into its header.
pub open spec fn is_mono_of(
    p: PreparedMono,
    outline: GlyphOutline,
    band_count_x: u32,
    band_count_y: u32,
    units_per_em: F32,
) -> bool {
    &&& p.wf()
    &&& p.blob_data@ == outline_words(outline, band_count_x, band_count_y)
    &&& p.bounds == outline.bounds
    &&& p.band_transform@ == outline_transform(outline, band_count_x, band_count_y)
    &&& p.band_count_x == band_count_x
    &&& p.band_count_y == band_count_y
    &&& p.units_per_em == units_per_em
}

/// Prepares an outline's blob.
///
/// Returns nothing for an outline so large that its texel counters do not fit 32
/// bits.
pub fn prepare_mono(
    outline: &GlyphOutline,
    band_count_x: u32,
    band_count_y: u32,
    units_per_em: F32,
    scratch: &mut PrepScratch,
) -> (r: Option<PreparedMono>)
    requires
        0 < band_count_x <= 0x100_0000,
        0 < band_count_y <= 0x100_0000,
    ensures
        r is Some <==> counters_fit(*outline, band_count_x, band_count_y),
        r matches Some(p) ==> is_mono_of(p, *outline, band_count_x, band_count_y, units_per_em),
{
    if !check_counters(outline, band_count_x, band_count_y) {
        return None;
    }
    proof {
        reveal(counters_fit);
        reveal(outline_words);
        reveal(outline_transform);
        lemma_counters_fit(*outline, band_count_x, band_count_y);
    }
    let (lanes, locations) = pack_curves(&outline.curves);
    let mut entries: Vec<i16> = Vec::new();
    std::mem::swap(&mut entries, &mut scratch.entries);
    let data: BandData = build_bands(outline, locations.as_slice(), band_count_x, band_count_y, entries, &mut scratch.bands);
    let mut blob_data: Vec<i32> = Vec::new();
    append_packed(&mut blob_data, &data.entries);
    append_packed(&mut blob_data, &lanes);
    assert(blob_data@ =~= outline_words(*outline, band_count_x, band_count_y));
    let blob_size: u32 = (blob_data.len() / 2) as u32;
    let band_transform: [F32; 4] = data.band_transform;
    scratch.entries = data.entries;
    Some(
        PreparedMono {
            blob_data,
            blob_size,
            bounds: outline.bounds,
            band_transform,
            band_count_x,
            band_count_y,
            units_per_em,
        },
    )
}

/// An outline's blob is whole texels.
pub proof fn lemma_outline_words_even(outline: GlyphOutline, band_count_x: u32, band_count_y: u32)
    ensures
        outline_words(outline, band_count_x, band_count_y).len() % 2 == 0,
{
    reveal(outline_words);
    law_entries_are_whole_texels(
        outline.curves@,
        outline.bounds,
        curve_locations(outline.curves@),
        h_axis(outline, band_count_y),
        v_axis(outline, band_count_x),
    );
    lemma_curve_lanes_len(outline.curves@, outline.curves@.len());
}

}
