//! Band acceleration structure of a glyph.
//!
//! The bounding box of a glyph is divided into horizontal and vertical bands,
//! and every band lists the curves that can affect a fragment inside it, once
//! by descending maximum and once by ascending minimum of the other coordinate.
use vstd::prelude::*;
use crate::float32::{
    F32, FOUR_BITS, HALF_BITS, ONE_BITS, cell_of, f_add, f_div, f_eq, f_from_int, f_lt, f_mul, f_neg, f_sub,
    round_int, saturate,
};
use crate::ordering::{lemma_ordered, ordered, precedes, sort_by_key};
use crate::outline::{GlyphOutline, QuadCurve};
use crate::packing::{wrap16, wrap_i16};

pub mod laws;
pub mod transform;

verus! {

/// 1e-6: smaller extents count as empty.
pub const MIN_EXTENT_BITS: u32 = 0x3586_37bd;

/// 1e-5: how far below a band's upper edge a curve must end to stay out of the
/// next band.
pub const BAND_EPSILON_BITS: u32 = 0x3727_c5ac;

/// Curve location as a linear offset in the glyph blob.
#[derive(Debug, Clone, Copy)]
pub struct CurveLocation {
    pub offset: u32,
}

/// Band data ready for GPU upload.
pub struct BandData {
    /// Band texels, four lanes each: headers followed by curve references.
    pub entries: Vec<i16>,
    /// Number of vertical bands, side by side along x.
    pub band_count_x: u32,
    /// Number of horizontal bands, stacked along y.
    pub band_count_y: u32,
    /// Em-space to band index: scale x, scale y, offset x, offset y.
    pub band_transform: [F32; 4],
}

/// What the band builder knows of a curve, per axis.
#[derive(Clone, Copy)]
struct CurveMeta {
    first: [u32; 2],
    last: [u32; 2],
    flat: [bool; 2],
    low: [i16; 2],
    high: [i16; 2],
}

/// The two orders of one band's curves.
struct BandLists {
    desc: Vec<usize>,
    asc: Vec<usize>,
}

/// Buffers that are reused from glyph to glyph.
pub struct BandScratch {
    curve_meta: Vec<CurveMeta>,
    desc_keys_x: Vec<i128>,
    desc_keys_y: Vec<i128>,
    asc_keys_x: Vec<i128>,
    asc_keys_y: Vec<i128>,
    hbands: Vec<BandLists>,
    vbands: Vec<BandLists>,
}

/// The bands along one axis: how many there are and where a coordinate falls.
#[derive(Clone, Copy)]
pub struct BandAxis {
    /// 0 for vertical bands (along x), 1 for horizontal bands (along y).
    pub axis: usize,
    pub count: u32,
    pub scale: F32,
    pub offset: F32,
    /// Taken off a curve's upper end before it is assigned to a band.
    pub bias: F32,
}

/// Nearest grid step to a coordinate.
#[verifier::opaque]
pub open spec fn grid_step(v: F32) -> int {
    let x = f_mul(v, F32 { bits: FOUR_BITS });
    saturate(x, round_int(x), i32::MIN as int, i32::MAX as int)
}

/// A coordinate as the 16-bit lane that the curve texels hold.
#[verifier::opaque]
pub open spec fn lane(v: F32) -> i16 {
    wrap16(grid_step(v)) as i16
}

/// A split coordinate as a 16-bit lane; coordinates off the lane's range go to
/// its ends.
#[verifier::opaque]
pub open spec fn split_lane(v: F32) -> i16 {
    let x = f_mul(v, F32 { bits: FOUR_BITS });
    saturate(x, round_int(x), -0x8000, 0x7fff) as i16
}

pub open spec fn min16(a: i16, b: i16) -> i16 {
    if b < a { b } else { a }
}

pub open spec fn max16(a: i16, b: i16) -> i16 {
    if a < b { b } else { a }
}

impl QuadCurve {
    pub open spec fn low_lane(self, axis: int) -> i16 {
        min16(min16(lane(self.p1[axis]), lane(self.p2[axis])), lane(self.p3[axis]))
    }

    pub open spec fn high_lane(self, axis: int) -> i16 {
        max16(max16(lane(self.p1[axis]), lane(self.p2[axis])), lane(self.p3[axis]))
    }
}

/// The extent that bands divide; a degenerate one is replaced by 1.
pub open spec fn safe_extent(low: F32, high: F32) -> F32 {
    let extent = f_sub(high, low);
    if f_lt(extent, F32 { bits: MIN_EXTENT_BITS }) { F32 { bits: ONE_BITS } } else { extent }
}

impl BandAxis {
    /// The bands of an outline along an axis.
    pub open spec fn of(bounds: [F32; 4], axis: int, count: u32, include_upper_boundary: bool) -> BandAxis {
        let scale = f_div(f_from_int(count as int), safe_extent(bounds[axis], bounds[axis + 2]));
        BandAxis {
            axis: axis as usize,
            count,
            scale,
            offset: f_mul(f_neg(bounds[axis]), scale),
            bias: if include_upper_boundary { F32 { bits: 0 } } else { F32 { bits: BAND_EPSILON_BITS } },
        }
    }

    pub open spec fn position(self, v: F32) -> F32 {
        f_add(f_mul(v, self.scale), self.offset)
    }

    /// The first band that a curve reaches into.
    pub open spec fn first(self, c: QuadCurve) -> int {
        cell_of(self.position(c.low(self.axis as int)), self.count as int)
    }

    /// The last band that a curve reaches into.
    pub open spec fn last(self, c: QuadCurve) -> int {
        cell_of(f_sub(self.position(c.high(self.axis as int)), self.bias), self.count as int)
    }

    /// A curve that is flat along the axis crosses no ray of these bands.
    pub open spec fn crosses(self, c: QuadCurve, band: int) -> bool {
        !f_eq(c.low(self.axis as int), c.high(self.axis as int)) && self.first(c) <= band <= self.last(c)
    }

    /// The other axis, along which a band's curves are ordered.
    pub open spec fn cross_axis(self) -> int {
        1 - self.axis
    }

    /// The curves of a band among the first `n`, in outline order.
    pub open spec fn members(self, curves: Seq<QuadCurve>, band: int, n: nat) -> Seq<usize>
        decreases n,
    {
        if n == 0 {
            Seq::empty()
        } else {
            let before = self.members(curves, band, (n - 1) as nat);
            if self.crosses(curves[n - 1], band) {
                before.push((n - 1) as usize)
            } else {
                before
            }
        }
    }

    /// A band's curves by descending maximum.
    pub open spec fn desc(self, curves: Seq<QuadCurve>, band: int) -> Seq<usize> {
        ordered(desc_keys(curves, self.cross_axis()), self.members(curves, band, curves.len()))
    }

    /// A band's curves by ascending minimum.
    pub open spec fn asc(self, curves: Seq<QuadCurve>, band: int) -> Seq<usize> {
        ordered(asc_keys(curves, self.cross_axis()), self.members(curves, band, curves.len()))
    }

    /// Number of curve references in the first `bands` bands, each list once.
    pub open spec fn refs_before(self, curves: Seq<QuadCurve>, bands: nat) -> nat
        decreases bands,
    {
        if bands == 0 {
            0
        } else {
            self.refs_before(curves, (bands - 1) as nat) + self.members(
                curves,
                bands - 1,
                curves.len(),
            ).len()
        }
    }

    /// The split coordinate of a band.
    pub open spec fn split(self, curves: Seq<QuadCurve>, bounds: [F32; 4], band: int) -> F32 {
        let cross = self.cross_axis();
        let desc = self.desc(curves, band);
        match best_split(curves, cross, desc, self.asc(curves, band), desc.len()).1 {
            None => midpoint(bounds[cross], bounds[cross + 2]),
            Some(at) => curves[desc[at] as int].high(cross),
        }
    }

    /// The header texels of the first `bands` bands; the curve lists of the
    /// first band start at texel `base`.
    pub open spec fn headers(self, curves: Seq<QuadCurve>, bounds: [F32; 4], base: int, bands: nat) -> Seq<i16>
        decreases bands,
    {
        if bands == 0 {
            Seq::empty()
        } else {
            let band = bands - 1;
            let count = self.members(curves, band, curves.len()).len();
            let start = base + 2 * self.refs_before(curves, band as nat);
            self.headers(curves, bounds, base, band as nat) + seq![
                wrap16(count as int) as i16,
                wrap16(start) as i16,
                wrap16(start + count) as i16,
                split_lane(self.split(curves, bounds, band)),
            ]
        }
    }

    /// The reference texels of the first `bands` bands.
    pub open spec fn references(
        self,
        curves: Seq<QuadCurve>,
        locations: Seq<CurveLocation>,
        elements: int,
        bands: nat,
    ) -> Seq<i16>
        decreases bands,
    {
        if bands == 0 {
            Seq::empty()
        } else {
            let band = bands - 1;
            let desc = self.desc(curves, band);
            let asc = self.asc(curves, band);
            self.references(curves, locations, elements, band as nat) + list_references(
                curves,
                locations,
                desc,
                self.axis as int,
                elements,
                true,
                desc.len(),
            ) + list_references(curves, locations, asc, self.axis as int, elements, false, asc.len())
        }
    }
}

/// Keys that put larger maxima first.
pub open spec fn desc_keys(curves: Seq<QuadCurve>, axis: int) -> Seq<i128> {
    Seq::new(curves.len(), |i: int| (-curves[i].high(axis).order()) as i128)
}

/// Keys that put smaller minima first.
pub open spec fn asc_keys(curves: Seq<QuadCurve>, axis: int) -> Seq<i128> {
    Seq::new(curves.len(), |i: int| curves[i].low(axis).order() as i128)
}

pub open spec fn midpoint(low: F32, high: F32) -> F32 {
    f_mul(f_add(low, high), F32 { bits: HALF_BITS })
}

/// How many curves of an ascending list remain once the ones at its end that
/// start beyond `split` are dropped.
pub open spec fn left_count(curves: Seq<QuadCurve>, axis: int, asc: Seq<usize>, split: int) -> nat
    decreases asc.len(),
{
    if asc.len() == 0 {
        0
    } else if curves[asc.last() as int].low(axis).order() > split {
        left_count(curves, axis, asc.drop_last(), split)
    } else {
        asc.len()
    }
}

/// The longer of the two lists that a fragment may have to walk when the band
/// is split at the maximum of the `at`-th curve of its descending list.
pub open spec fn split_cost(curves: Seq<QuadCurve>, axis: int, desc: Seq<usize>, asc: Seq<usize>, at: int) -> nat {
    let left = left_count(curves, axis, asc, curves[desc[at] as int].high(axis).order());
    if left > at + 1 { left } else { (at + 1) as nat }
}

/// The cheapest split among the first `n` candidates, the earliest of equals,
/// with its cost; no candidate when none beats walking the whole band.
pub open spec fn best_split(
    curves: Seq<QuadCurve>,
    axis: int,
    desc: Seq<usize>,
    asc: Seq<usize>,
    n: nat,
) -> (nat, Option<int>)
    decreases n,
{
    if n == 0 {
        (desc.len(), None)
    } else {
        let best = best_split(curves, axis, desc, asc, (n - 1) as nat);
        let cost = split_cost(curves, axis, desc, asc, n - 1);
        if cost < best.0 {
            (cost, Some(n - 1))
        } else {
            best
        }
    }
}

/// One curve reference: where the curve is, its bounds across the band, and the
/// coordinate at which a walk along the ray may stop.
pub open spec fn reference(curve: QuadCurve, location: CurveLocation, axis: int, elements: int, descending: bool) -> Seq<i16> {
    seq![
        wrap16(location.offset + elements) as i16,
        curve.low_lane(axis),
        curve.high_lane(axis),
        if descending { curve.high_lane(1 - axis) } else { curve.low_lane(1 - axis) },
    ]
}

/// The references of the first `n` curves of a list.
pub open spec fn list_references(
    curves: Seq<QuadCurve>,
    locations: Seq<CurveLocation>,
    list: Seq<usize>,
    axis: int,
    elements: int,
    descending: bool,
    n: nat,
) -> Seq<i16>
    decreases n,
{
    if n == 0 {
        Seq::empty()
    } else {
        let i = list[n - 1] as int;
        list_references(curves, locations, list, axis, elements, descending, (n - 1) as nat) + reference(
            curves[i],
            locations[i],
            axis,
            elements,
            descending,
        )
    }
}

/// Number of texels in the band region of a glyph: one per band and two per
/// curve of a band.
pub open spec fn element_count(curves: Seq<QuadCurve>, h: BandAxis, v: BandAxis) -> int {
    h.count + v.count + 2 * (h.refs_before(curves, h.count as nat) + v.refs_before(curves, v.count as nat))
}

/// The whole band region.
#[verifier::opaque]
pub open spec fn band_entries(
    curves: Seq<QuadCurve>,
    bounds: [F32; 4],
    locations: Seq<CurveLocation>,
    h: BandAxis,
    v: BandAxis,
) -> Seq<i16> {
    let base = h.count + v.count;
    let vbase = base + 2 * h.refs_before(curves, h.count as nat);
    let elements = element_count(curves, h, v);
    h.headers(curves, bounds, base, h.count as nat)
        + v.headers(curves, bounds, vbase, v.count as nat)
        + h.references(curves, locations, elements, h.count as nat)
        + v.references(curves, locations, elements, v.count as nat)
}

/// Encode a glyph-relative offset as i16: the low 16 bits, which the shader
/// reads back unsigned.
pub fn encode_offset(offset: u32) -> (r: i16)
    ensures
        r == wrap16(offset as int),
        offset <= 0xffff ==> r as int % 0x1_0000 == offset,
{
    wrap_i16(offset as i64)
}

/// Nearest grid step to a coordinate.
pub fn quantize_i32(v: F32) -> (r: i32)
    ensures
        r == grid_step(v),
{
    reveal(grid_step);
    let x: i64 = v.times(F32 { bits: FOUR_BITS }).round_i64();
    if x < i32::MIN as i64 {
        i32::MIN
    } else if x > i32::MAX as i64 {
        i32::MAX
    } else {
        x as i32
    }
}

/// Quantize coordinates exactly as the curve packing pipeline does.
pub fn quantize_i16(v: F32) -> (r: i16)
    ensures
        r == lane(v),
{
    reveal(lane);
    wrap_i16(quantize_i32(v) as i64)
}

pub(crate) fn quantize_split(v: F32) -> (r: i16)
    ensures
        r == split_lane(v),
{
    reveal(split_lane);
    let x: i64 = v.times(F32 { bits: FOUR_BITS }).round_i64();
    if x < -0x8000 {
        -0x8000
    } else if x > 0x7fff {
        0x7fff
    } else {
        x as i16
    }
}

impl Default for BandScratch {
    fn default() -> (r: Self)
        ensures
            r.is_empty(),
    {
        BandScratch {
            curve_meta: Vec::new(),
            desc_keys_x: Vec::new(),
            desc_keys_y: Vec::new(),
            asc_keys_x: Vec::new(),
            asc_keys_y: Vec::new(),
            hbands: Vec::new(),
            vbands: Vec::new(),
        }
    }
}

impl BandScratch {
    /// Nothing is held over from an earlier glyph.
    pub closed spec fn is_empty(self) -> bool {
        &&& self.curve_meta@.len() == 0
        &&& self.desc_keys_x@.len() == 0
        &&& self.desc_keys_y@.len() == 0
        &&& self.asc_keys_x@.len() == 0
        &&& self.asc_keys_y@.len() == 0
        &&& self.hbands@.len() == 0
        &&& self.vbands@.len() == 0
    }
}

spec fn meta_matches_axis(m: CurveMeta, c: QuadCurve, lay: BandAxis) -> bool {
    let a = lay.axis as int;
    &&& m.flat[a] == f_eq(c.low(a), c.high(a))
    &&& !m.flat[a] ==> m.first[a] == lay.first(c) && m.last[a] == lay.last(c)
}

spec fn meta_matches(m: CurveMeta, c: QuadCurve, h: BandAxis, v: BandAxis) -> bool {
    &&& meta_matches_axis(m, c, h)
    &&& meta_matches_axis(m, c, v)
    &&& m.low[0] == c.low_lane(0)
    &&& m.low[1] == c.low_lane(1)
    &&& m.high[0] == c.high_lane(0)
    &&& m.high[1] == c.high_lane(1)
}

spec fn metas_match(metas: Seq<CurveMeta>, curves: Seq<QuadCurve>, h: BandAxis, v: BandAxis) -> bool {
    &&& metas.len() == curves.len()
    &&& forall|i: int| 0 <= i < metas.len() ==> meta_matches(#[trigger] metas[i], curves[i], h, v)
}

spec fn lists_match(lists: BandLists, curves: Seq<QuadCurve>, lay: BandAxis, band: int) -> bool {
    &&& lists.desc@ == lay.desc(curves, band)
    &&& lists.asc@ == lay.asc(curves, band)
    &&& lists.desc@.len() == lay.members(curves, band, curves.len()).len()
    &&& lists.asc@.len() == lay.members(curves, band, curves.len()).len()
    &&& forall|i: int| 0 <= i < lists.desc@.len() ==> #[trigger] lists.desc@[i] < curves.len()
    &&& forall|i: int| 0 <= i < lists.asc@.len() ==> #[trigger] lists.asc@[i] < curves.len()
}

proof fn lemma_members(lay: BandAxis, curves: Seq<QuadCurve>, band: int, n: nat)
    requires
        n <= curves.len(),
        curves.len() <= usize::MAX,
    ensures
        lay.members(curves, band, n).len() <= n,
        forall|i: int|
            0 <= i < lay.members(curves, band, n).len() ==> #[trigger] lay.members(curves, band, n)[i] < n,
    decreases n,
{
    if n > 0 {
        lemma_members(lay, curves, band, (n - 1) as nat);
    }
}

/// A band region is never longer than every curve in every band, twice.
pub proof fn lemma_refs_bound(lay: BandAxis, curves: Seq<QuadCurve>, bands: nat)
    requires
        curves.len() <= usize::MAX,
    ensures
        lay.refs_before(curves, bands) <= bands * curves.len(),
    decreases bands,
{
    if bands > 0 {
        lemma_refs_bound(lay, curves, (bands - 1) as nat);
        lemma_members(lay, curves, bands - 1, curves.len());
        let n = curves.len() as int;
        assert((bands - 1) * n + n == bands * n) by (nonlinear_arith);
    } else {
        assert(0 * curves.len() == 0) by (nonlinear_arith);
    }
}

/// More bands hold at least as many references.
proof fn lemma_refs_monotone(lay: BandAxis, curves: Seq<QuadCurve>, a: nat, b: nat)
    requires
        a <= b,
    ensures
        lay.refs_before(curves, a) <= lay.refs_before(curves, b),
    decreases b - a,
{
    if a < b {
        lemma_refs_monotone(lay, curves, a, (b - 1) as nat);
    }
}

fn band_axis(bounds: &[F32; 4], axis: usize, count: u32, include_upper_boundary: bool) -> (r: BandAxis)
    requires
        axis < 2,
    ensures
        r == BandAxis::of(*bounds, axis as int, count, include_upper_boundary),
{
    let extent: F32 = bounds[axis + 2].minus(bounds[axis]);
    let safe: F32 = if extent.lt(F32 { bits: MIN_EXTENT_BITS }) { F32 { bits: ONE_BITS } } else { extent };
    let scale: F32 = F32::from_i64(count as i64).over(safe);
    let offset: F32 = bounds[axis].negate().times(scale);
    BandAxis {
        axis,
        count,
        scale,
        offset,
        bias: if include_upper_boundary { F32 { bits: 0 } } else { F32 { bits: BAND_EPSILON_BITS } },
    }
}

/// Whether the curve is flat along the axis of the bands, else the first and
/// last band it reaches into.
fn axis_span(c: &QuadCurve, lay: &BandAxis) -> (r: (bool, u32, u32))
    requires
        lay.axis < 2,
        lay.count > 0,
    ensures
        r.0 == f_eq(c.low(lay.axis as int), c.high(lay.axis as int)),
        !r.0 ==> r.1 == lay.first(*c) && r.2 == lay.last(*c),
{
    let low: F32 = c.axis_min(lay.axis);
    let high: F32 = c.axis_max(lay.axis);
    if low.eq_value(high) {
        (true, 0, 0)
    } else {
        let first: u32 = low.times(lay.scale).plus(lay.offset).cell(lay.count);
        let last: u32 = high.times(lay.scale).plus(lay.offset).minus(lay.bias).cell(lay.count);
        (false, first, last)
    }
}

/// How many bands list a curve.
pub open spec fn span_count(lay: BandAxis, c: QuadCurve) -> nat {
    if f_eq(c.low(lay.axis as int), c.high(lay.axis as int)) || lay.last(c) < lay.first(c) {
        0
    } else {
        (lay.last(c) - lay.first(c) + 1) as nat
    }
}

/// How often the first `n` curves are listed.
pub open spec fn spans_count(lay: BandAxis, curves: Seq<QuadCurve>, n: nat) -> nat
    decreases n,
{
    if n == 0 {
        0
    } else {
        spans_count(lay, curves, (n - 1) as nat) + span_count(lay, curves[n - 1])
    }
}

/// How many of the first `bands` bands list a curve.
spec fn bands_listing(lay: BandAxis, c: QuadCurve, bands: nat) -> nat
    decreases bands,
{
    if bands == 0 {
        0
    } else {
        bands_listing(lay, c, (bands - 1) as nat) + if lay.crosses(c, bands - 1) { 1nat } else { 0 }
    }
}

/// How often the first `bands` bands list the first `n` curves.
spec fn listings(lay: BandAxis, curves: Seq<QuadCurve>, bands: nat, n: nat) -> nat
    decreases bands,
{
    if bands == 0 {
        0
    } else {
        listings(lay, curves, (bands - 1) as nat, n) + lay.members(curves, bands - 1, n).len()
    }
}

proof fn lemma_listings_by_curve(lay: BandAxis, curves: Seq<QuadCurve>, bands: nat, n: nat)
    ensures
        n == 0 ==> listings(lay, curves, bands, n) == 0,
        n > 0 ==> listings(lay, curves, bands, n) == listings(lay, curves, bands, (n - 1) as nat) + bands_listing(
            lay,
            curves[n - 1],
            bands,
        ),
        n == curves.len() ==> listings(lay, curves, bands, n) == lay.refs_before(curves, bands),
    decreases bands,
{
    if bands > 0 {
        lemma_listings_by_curve(lay, curves, (bands - 1) as nat, n);
    }
}

proof fn lemma_bands_listing(lay: BandAxis, c: QuadCurve, bands: nat)
    requires
        0 <= lay.first(c),
    ensures
        bands_listing(lay, c, bands) == if f_eq(c.low(lay.axis as int), c.high(lay.axis as int)) {
            0int
        } else {
            let end = if lay.last(c) < bands { lay.last(c) + 1 } else { bands as int };
            if end < lay.first(c) { 0 } else { end - lay.first(c) }
        },
    decreases bands,
{
    if bands > 0 {
        lemma_bands_listing(lay, c, (bands - 1) as nat);
    }
}

proof fn lemma_listings_are_spans(lay: BandAxis, curves: Seq<QuadCurve>, n: nat)
    requires
        lay.count > 0,
    ensures
        listings(lay, curves, lay.count as nat, n) == spans_count(lay, curves, n),
    decreases n,
{
    lemma_listings_by_curve(lay, curves, lay.count as nat, n);
    if n > 0 {
        lemma_listings_are_spans(lay, curves, (n - 1) as nat);
        let c = curves[n - 1];
        reveal(cell_of);
        lemma_bands_listing(lay, c, lay.count as nat);
    }
}

/// Counting the references band by band or curve by curve is the same.
proof fn lemma_refs_are_spans(lay: BandAxis, curves: Seq<QuadCurve>)
    requires
        lay.count > 0,
    ensures
        lay.refs_before(curves, lay.count as nat) == spans_count(lay, curves, curves.len()),
{
    lemma_listings_are_spans(lay, curves, curves.len());
    lemma_listings_by_curve(lay, curves, lay.count as nat, curves.len());
}

fn count_spans(curves: &Vec<QuadCurve>, lay: &BandAxis) -> (r: u128)
    requires
        lay.axis < 2,
        lay.count > 0,
    ensures
        r == lay.refs_before(curves@, lay.count as nat),
        r <= 0x1_0000_0000 * curves@.len() <= 0x1_0000_0000_0000_0000_0000_0000,
{
    let mut total: u128 = 0;
    for i in 0..curves.len()
        invariant
            lay.axis < 2,
            lay.count > 0,
            total == spans_count(*lay, curves@, i as nat),
            total <= 0x1_0000_0000 * i,
    {
        let (flat, first, last) = axis_span(&curves[i], lay);
        if !flat && first <= last {
            total = total + (last - first) as u128 + 1;
        }
    }
    proof {
        lemma_refs_are_spans(*lay, curves@);
    }
    total
}

/// Number of texels that the band region of an outline takes.
pub fn count_elements(outline: &GlyphOutline, band_count_x: u32, band_count_y: u32) -> (r: u128)
    requires
        band_count_x > 0,
        band_count_y > 0,
    ensures
        r == element_count(
            outline.curves@,
            BandAxis::of(outline.bounds, 1, band_count_y, false),
            BandAxis::of(outline.bounds, 0, band_count_x, false),
        ),
{
    let h: BandAxis = band_axis(&outline.bounds, 1, band_count_y, false);
    let v: BandAxis = band_axis(&outline.bounds, 0, band_count_x, false);
    let rows: u128 = count_spans(&outline.curves, &h);
    let columns: u128 = count_spans(&outline.curves, &v);
    band_count_y as u128 + band_count_x as u128 + 2 * (rows + columns)
}

fn lane_bounds(c: &QuadCurve, axis: usize) -> (r: (i16, i16))
    requires
        axis < 2,
    ensures
        r.0 == c.low_lane(axis as int),
        r.1 == c.high_lane(axis as int),
{
    let a: i16 = quantize_i16(c.p1[axis]);
    let b: i16 = quantize_i16(c.p2[axis]);
    let d: i16 = quantize_i16(c.p3[axis]);
    let low_ab: i16 = if b < a { b } else { a };
    let high_ab: i16 = if a < b { b } else { a };
    (if d < low_ab { d } else { low_ab }, if high_ab < d { d } else { high_ab })
}

fn curve_meta(c: &QuadCurve, h: &BandAxis, v: &BandAxis) -> (r: CurveMeta)
    requires
        h.axis == 1,
        v.axis == 0,
        h.count > 0,
        v.count > 0,
    ensures
        meta_matches(r, *c, *h, *v),
{
    let (hflat, hfirst, hlast) = axis_span(c, h);
    let (vflat, vfirst, vlast) = axis_span(c, v);
    let (xlow, xhigh) = lane_bounds(c, 0);
    let (ylow, yhigh) = lane_bounds(c, 1);
    CurveMeta {
        first: [vfirst, hfirst],
        last: [vlast, hlast],
        flat: [vflat, hflat],
        low: [xlow, ylow],
        high: [xhigh, yhigh],
    }
}

/// The curves of a band, in outline order.
fn band_members(metas: &Vec<CurveMeta>, axis: usize, band: u32, Ghost(curves): Ghost<Seq<QuadCurve>>, Ghost(h): Ghost<BandAxis>, Ghost(v): Ghost<BandAxis>) -> (r: Vec<usize>)
    requires
        axis < 2,
        h.axis == 1,
        v.axis == 0,
        metas_match(metas@, curves, h, v),
    ensures
        r@ == (if axis == 1 { h } else { v }).members(curves, band as int, curves.len()),
{
    let ghost lay = if axis == 1 { h } else { v };
    let n: usize = metas.len();
    let mut out: Vec<usize> = Vec::new();
    let mut i: usize = 0;
    while i < n
        invariant
            axis < 2,
            lay == (if axis == 1 { h } else { v }),
            h.axis == 1,
            v.axis == 0,
            i <= n,
            n == metas.len(),
            metas_match(metas@, curves, h, v),
            out@ == lay.members(curves, band as int, i as nat),
        decreases n - i,
    {
        let m: CurveMeta = metas[i];
        proof {
            assert(meta_matches(metas@[i as int], curves[i as int], h, v));
            assert(meta_matches_axis(m, curves[i as int], lay));
        }
        if !m.flat[axis] && m.first[axis] <= band && band <= m.last[axis] {
            out.push(i);
        }
        i = i + 1;
    }
    out
}

/// Both orders of the curves of every band along an axis.
fn all_lists(
    metas: &Vec<CurveMeta>,
    axis: usize,
    count: u32,
    desc_keys_exec: &Vec<i128>,
    asc_keys_exec: &Vec<i128>,
    Ghost(curves): Ghost<Seq<QuadCurve>>,
    Ghost(h): Ghost<BandAxis>,
    Ghost(v): Ghost<BandAxis>,
) -> (r: Vec<BandLists>)
    requires
        axis < 2,
        h.axis == 1,
        v.axis == 0,
        metas_match(metas@, curves, h, v),
        desc_keys_exec@ == desc_keys(curves, 1 - axis),
        asc_keys_exec@ == asc_keys(curves, 1 - axis),
    ensures
        r.len() == count,
        forall|b: int|
            0 <= b < count ==> lists_match(
                #[trigger] r@[b],
                curves,
                if axis == 1 { h } else { v },
                b,
            ),
{
    let ghost lay = if axis == 1 { h } else { v };
    let mut out: Vec<BandLists> = Vec::new();
    let mut b: u32 = 0;
    while b < count
        invariant
            axis < 2,
            b <= count,
            h.axis == 1,
            v.axis == 0,
            lay == (if axis == 1 { h } else { v }),
            metas_match(metas@, curves, h, v),
            desc_keys_exec@ == desc_keys(curves, 1 - axis),
            asc_keys_exec@ == asc_keys(curves, 1 - axis),
            out.len() == b,
            forall|j: int| 0 <= j < b ==> lists_match(#[trigger] out@[j], curves, lay, j),
        decreases count - b,
    {
        let members: Vec<usize> = band_members(metas, axis, b, Ghost(curves), Ghost(h), Ghost(v));
        proof {
            assert(metas.len() == curves.len());
            lemma_members(lay, curves, b as int, curves.len());
        }
        let desc: Vec<usize> = sort_by_key(desc_keys_exec, &members);
        let asc: Vec<usize> = sort_by_key(asc_keys_exec, &members);
        out.push(BandLists { desc, asc });
        b = b + 1;
    }
    out
}

proof fn lemma_left_count_prefix(curves: Seq<QuadCurve>, axis: int, asc: Seq<usize>, split: int, p: int)
    requires
        0 <= p <= asc.len(),
        forall|j: int| p <= j < asc.len() ==> curves[#[trigger] asc[j] as int].low(axis).order() > split,
    ensures
        left_count(curves, axis, asc, split) == left_count(curves, axis, asc.take(p), split),
    decreases asc.len(),
{
    if p < asc.len() {
        let rest = asc.drop_last();
        assert(curves[asc[asc.len() - 1] as int].low(axis).order() > split);
        assert forall|j: int| p <= j < rest.len() implies curves[#[trigger] rest[j] as int].low(axis).order() > split by {
            assert(rest[j] == asc[j]);
        }
        lemma_left_count_prefix(curves, axis, rest, split, p);
        assert(rest.take(p) =~= asc.take(p));
    } else {
        assert(asc.take(p) =~= asc);
    }
}

/// Find the optimal split coordinate for a band's dual sorted lists.
///
/// Walks the descending list with a monotone pointer into the ascending list,
/// and picks the split that minimizes the longer of the two walks.
fn find_split(
    curves: &Vec<QuadCurve>,
    bounds: &[F32; 4],
    lists: &BandLists,
    cross: usize,
    Ghost(lay): Ghost<BandAxis>,
    Ghost(band): Ghost<int>,
) -> (r: F32)
    requires
        cross < 2,
        lay.axis < 2,
        lay.cross_axis() == cross,
        lists_match(*lists, curves@, lay, band),
    ensures
        r == lay.split(curves@, *bounds, band),
{
    let n: usize = lists.desc.len();
    let ghost a = cross as int;
    let ghost desc = lists.desc@;
    let ghost asc = lists.asc@;
    let mut best_worst: usize = n;
    let mut best_split_value: F32 = bounds[cross].plus(bounds[cross + 2]).times(F32 { bits: HALF_BITS });
    let mut left_ptr: usize = n;
    let mut ci: usize = 0;
    proof {
        lemma_ordered(desc_keys(curves@, a), lay.members(curves@, band, curves@.len()));
        lemma_ordered(asc_keys(curves@, a), lay.members(curves@, band, curves@.len()));
    }
    while ci < n
        invariant
            ci <= n,
            cross < 2,
            a == cross,
            n == desc.len(),
            n == asc.len(),
            desc == lists.desc@,
            asc == lists.asc@,
            left_ptr <= n,
            forall|i: int| 0 <= i < desc.len() ==> #[trigger] desc[i] < curves.len(),
            forall|i: int| 0 <= i < asc.len() ==> #[trigger] asc[i] < curves.len(),
            forall|i: int, j: int|
                0 <= i < j < n ==> precedes(desc_keys(curves@, a), #[trigger] desc[i], #[trigger] desc[j]),
            forall|j: int|
                ci > 0 && left_ptr <= j < n ==> curves[#[trigger] asc[j] as int].low(a).order()
                    > curves[desc[ci - 1] as int].high(a).order(),
            ci == 0 ==> left_ptr == n,
            best_worst == best_split(curves@, a, desc, asc, ci as nat).0,
            best_split_value == (match best_split(curves@, a, desc, asc, ci as nat).1 {
                None => midpoint(bounds[a], bounds[a + 2]),
                Some(at) => curves@[desc[at] as int].high(a),
            }),
        decreases n - ci,
    {
        let split: F32 = curves[lists.desc[ci]].axis_max(cross);
        let ghost so = split.order();
        proof {
            if ci > 0 {
                assert(precedes(desc_keys(curves@, a), desc[ci - 1], desc[ci as int]));
            }
        }
        while left_ptr > 0 && split.order_key() < curves[lists.asc[left_ptr - 1]].axis_min(cross).order_key()
            invariant
                cross < 2,
                a == cross,
                asc == lists.asc@,
                n == asc.len(),
                left_ptr <= n,
                so == split.order(),
                forall|i: int| 0 <= i < asc.len() ==> #[trigger] asc[i] < curves.len(),
                forall|j: int| left_ptr <= j < n ==> curves[#[trigger] asc[j] as int].low(a).order() > so,
            decreases left_ptr,
        {
            left_ptr = left_ptr - 1;
        }
        proof {
            lemma_left_count_prefix(curves@, a, asc, so, left_ptr as int);
            let t = asc.take(left_ptr as int);
            if left_ptr > 0 {
                assert(t.last() == asc[left_ptr - 1]);
            }
            assert(left_count(curves@, a, t, so) == left_ptr);
        }
        let right_count: usize = ci + 1;
        let worst: usize = if left_ptr > right_count { left_ptr } else { right_count };
        if worst < best_worst {
            best_worst = worst;
            best_split_value = split;
        }
        ci = ci + 1;
    }
    best_split_value
}

/// Appends one texel.
fn push_texel(entries: &mut Vec<i16>, x: i16, y: i16, z: i16, w: i16)
    ensures
        final(entries)@ == old(entries)@ + seq![x, y, z, w],
{
    entries.push(x);
    entries.push(y);
    entries.push(z);
    entries.push(w);
    assert(entries@ =~= old(entries)@ + seq![x, y, z, w]);
}

/// Appends the header texels of all bands along an axis.
fn push_headers(
    entries: &mut Vec<i16>,
    curves: &Vec<QuadCurve>,
    bounds: &[F32; 4],
    lists: &Vec<BandLists>,
    cross: usize,
    base: u32,
    Ghost(lay): Ghost<BandAxis>,
) -> (end: u32)
    requires
        cross < 2,
        lay.axis < 2,
        lay.cross_axis() == cross,
        lists.len() == lay.count,
        forall|b: int| 0 <= b < lay.count ==> lists_match(#[trigger] lists@[b], curves@, lay, b),
        base + 2 * lay.refs_before(curves@, lay.count as nat) <= u32::MAX,
    ensures
        final(entries)@ == old(entries)@ + lay.headers(curves@, *bounds, base as int, lay.count as nat),
        end == base + 2 * lay.refs_before(curves@, lay.count as nat),
{
    let ghost start_entries = entries@;
    let mut texel_offset: u32 = base;
    let mut b: usize = 0;
    let bands: usize = lists.len();
    assert(entries@ =~= start_entries + lay.headers(curves@, *bounds, base as int, 0));
    while b < bands
        invariant
            b <= bands,
            bands == lay.count,
            bands == lists.len(),
            cross < 2,
            lay.axis < 2,
            lay.cross_axis() == cross,
            forall|b: int| 0 <= b < lay.count ==> lists_match(#[trigger] lists@[b], curves@, lay, b),
            base + 2 * lay.refs_before(curves@, lay.count as nat) <= u32::MAX,
            texel_offset == base + 2 * lay.refs_before(curves@, b as nat),
            entries@ == start_entries + lay.headers(curves@, *bounds, base as int, b as nat),
        decreases bands - b,
    {
        proof {
            assert(lists_match(lists@[b as int], curves@, lay, b as int));
            lemma_refs_monotone(lay, curves@, (b + 1) as nat, lay.count as nat);
        }
        let split: F32 = find_split(curves, bounds, &lists[b], cross, Ghost(lay), Ghost(b as int));
        let count: usize = lists[b].desc.len();
        let ghost before = entries@;
        push_texel(
            entries,
            wrap_i16(count as i64),
            encode_offset(texel_offset),
            encode_offset(texel_offset + count as u32),
            quantize_split(split),
        );
        texel_offset = texel_offset + count as u32 * 2;
        proof {
            let n = lay.members(curves@, b as int, curves@.len()).len();
            assert(count == n);
            let start = base + 2 * lay.refs_before(curves@, b as nat);
            assert(entries@ =~= before + seq![
                wrap16(n as int) as i16,
                wrap16(start) as i16,
                wrap16(start + n) as i16,
                split_lane(lay.split(curves@, *bounds, b as int)),
            ]);
            assert(entries@ =~= start_entries + lay.headers(curves@, *bounds, base as int, (b + 1) as nat));
        }
        b = b + 1;
    }
    texel_offset
}

/// Appends one curve reference.
fn push_reference(
    entries: &mut Vec<i16>,
    m: &CurveMeta,
    location: CurveLocation,
    axis: usize,
    elements: u32,
    descending: bool,
    Ghost(c): Ghost<QuadCurve>,
)
    requires
        axis < 2,
        location.offset + elements <= u32::MAX,
        m.low[0] == c.low_lane(0),
        m.low[1] == c.low_lane(1),
        m.high[0] == c.high_lane(0),
        m.high[1] == c.high_lane(1),
    ensures
        final(entries)@ == old(entries)@ + reference(c, location, axis as int, elements as int, descending),
{
    let low: i16 = m.low[axis];
    let high: i16 = m.high[axis];
    let break_key: i16 = if descending { m.high[1 - axis] } else { m.low[1 - axis] };
    push_texel(entries, encode_offset(location.offset + elements), low, high, break_key);
}

/// Appends the references of one list.
fn push_list(
    entries: &mut Vec<i16>,
    metas: &Vec<CurveMeta>,
    locations: &[CurveLocation],
    list: &Vec<usize>,
    axis: usize,
    elements: u32,
    descending: bool,
    Ghost(curves): Ghost<Seq<QuadCurve>>,
    Ghost(h): Ghost<BandAxis>,
    Ghost(v): Ghost<BandAxis>,
)
    requires
        axis < 2,
        metas_match(metas@, curves, h, v),
        locations.len() >= curves.len(),
        forall|i: int| 0 <= i < list.len() ==> #[trigger] list[i] < curves.len(),
        forall|i: int| 0 <= i < curves.len() ==> #[trigger] locations@[i].offset + elements <= u32::MAX,
    ensures
        final(entries)@ == old(entries)@ + list_references(
            curves,
            locations@,
            list@,
            axis as int,
            elements as int,
            descending,
            list@.len(),
        ),
{
    let ghost start_entries = entries@;
    let n: usize = list.len();
    let mut k: usize = 0;
    assert(entries@ =~= start_entries + list_references(curves, locations@, list@, axis as int, elements as int, descending, 0));
    while k < n
        invariant
            axis < 2,
            k <= n,
            n == list.len(),
            metas_match(metas@, curves, h, v),
            locations.len() >= curves.len(),
            forall|i: int| 0 <= i < list.len() ==> #[trigger] list[i] < curves.len(),
            forall|i: int| 0 <= i < curves.len() ==> #[trigger] locations@[i].offset + elements <= u32::MAX,
            entries@ == start_entries + list_references(
                curves,
                locations@,
                list@,
                axis as int,
                elements as int,
                descending,
                k as nat,
            ),
        decreases n - k,
    {
        let i: usize = list[k];
        let m: CurveMeta = metas[i];
        let ghost before = entries@;
        assert(meta_matches(metas@[i as int], curves[i as int], h, v));
        assert(locations@[i as int].offset + elements <= u32::MAX);
        push_reference(entries, &m, locations[i], axis, elements, descending, Ghost(curves[i as int]));
        proof {
            let r = reference(curves[i as int], locations@[i as int], axis as int, elements as int, descending);
            let l = list_references(curves, locations@, list@, axis as int, elements as int, descending, k as nat);
            assert((start_entries + l) + r =~= start_entries + (l + r));
        }
        k = k + 1;
    }
}

/// Appends the references of all bands along an axis, each band's descending
/// list before its ascending one.
fn push_references(
    entries: &mut Vec<i16>,
    metas: &Vec<CurveMeta>,
    locations: &[CurveLocation],
    lists: &Vec<BandLists>,
    axis: usize,
    elements: u32,
    Ghost(curves): Ghost<Seq<QuadCurve>>,
    Ghost(h): Ghost<BandAxis>,
    Ghost(v): Ghost<BandAxis>,
)
    requires
        axis < 2,
        h.axis == 1,
        v.axis == 0,
        metas_match(metas@, curves, h, v),
        locations.len() >= curves.len(),
        lists.len() == (if axis == 1 { h } else { v }).count,
        forall|b: int|
            0 <= b < lists.len() ==> lists_match(#[trigger] lists@[b], curves, if axis == 1 { h } else { v }, b),
        forall|i: int| 0 <= i < curves.len() ==> #[trigger] locations@[i].offset + elements <= u32::MAX,
    ensures
        final(entries)@ == old(entries)@ + (if axis == 1 { h } else { v }).references(
            curves,
            locations@,
            elements as int,
            (if axis == 1 { h } else { v }).count as nat,
        ),
{
    let ghost lay = if axis == 1 { h } else { v };
    let ghost start_entries = entries@;
    let mut b: usize = 0;
    let bands: usize = lists.len();
    assert(entries@ =~= start_entries + lay.references(curves, locations@, elements as int, 0));
    while b < bands
        invariant
            axis < 2,
            b <= bands,
            bands == lay.count,
            bands == lists.len(),
            h.axis == 1,
            v.axis == 0,
            lay == (if axis == 1 { h } else { v }),
            metas_match(metas@, curves, h, v),
            locations.len() >= curves.len(),
            forall|b: int| 0 <= b < lists.len() ==> lists_match(#[trigger] lists@[b], curves, lay, b),
            forall|i: int| 0 <= i < curves.len() ==> #[trigger] locations@[i].offset + elements <= u32::MAX,
            entries@ == start_entries + lay.references(curves, locations@, elements as int, b as nat),
        decreases bands - b,
    {
        assert(lists_match(lists@[b as int], curves, lay, b as int));
        push_list(entries, metas, locations, &lists[b].desc, axis, elements, true, Ghost(curves), Ghost(h), Ghost(v));
        push_list(entries, metas, locations, &lists[b].asc, axis, elements, false, Ghost(curves), Ghost(h), Ghost(v));
        assert(entries@ =~= start_entries + lay.references(curves, locations@, elements as int, (b + 1) as nat));
        b = b + 1;
    }
}

/// Number of references in all the bands of an axis.
fn count_references(lists: &Vec<BandLists>, Ghost(curves): Ghost<Seq<QuadCurve>>, Ghost(lay): Ghost<BandAxis>) -> (r: u32)
    requires
        lists.len() == lay.count,
        forall|b: int| 0 <= b < lay.count ==> lists_match(#[trigger] lists@[b], curves, lay, b),
        lay.refs_before(curves, lay.count as nat) <= u32::MAX,
    ensures
        r == lay.refs_before(curves, lay.count as nat),
{
    let mut total: u32 = 0;
    let mut b: usize = 0;
    let bands: usize = lists.len();
    while b < bands
        invariant
            b <= bands,
            bands == lay.count,
            bands == lists.len(),
            forall|b: int| 0 <= b < lay.count ==> lists_match(#[trigger] lists@[b], curves, lay, b),
            lay.refs_before(curves, lay.count as nat) <= u32::MAX,
            total == lay.refs_before(curves, b as nat),
        decreases bands - b,
    {
        proof {
            assert(lists_match(lists@[b as int], curves, lay, b as int));
            lemma_refs_monotone(lay, curves, (b + 1) as nat, lay.count as nat);
        }
        total = total + lists[b].desc.len() as u32;
        b = b + 1;
    }
    total
}

/// What a glyph must satisfy for its bands to be built: every curve has a
/// location, the bands exist, and offsets fit their 32-bit counters.
pub open spec fn bands_fit(
    outline: GlyphOutline,
    locations: Seq<CurveLocation>,
    band_count_x: u32,
    band_count_y: u32,
    include_upper_boundary: bool,
) -> bool {
    let h = BandAxis::of(outline.bounds, 1, band_count_y, include_upper_boundary);
    let v = BandAxis::of(outline.bounds, 0, band_count_x, include_upper_boundary);
    let elements = element_count(outline.curves@, h, v);
    &&& outline.curves.len() > 0 ==> band_count_x > 0 && band_count_y > 0
    &&& band_count_x <= 0x100_0000
    &&& band_count_y <= 0x100_0000
    &&& locations.len() >= outline.curves.len()
    &&& elements <= u32::MAX
    &&& forall|i: int|
        0 <= i < outline.curves.len() ==> #[trigger] locations[i].offset + elements <= u32::MAX
}

/// The band region of an outline and its transform.
pub open spec fn bands_of(
    outline: GlyphOutline,
    locations: Seq<CurveLocation>,
    data: BandData,
    band_count_x: u32,
    band_count_y: u32,
    include_upper_boundary: bool,
) -> bool {
    let h = BandAxis::of(outline.bounds, 1, band_count_y, include_upper_boundary);
    let v = BandAxis::of(outline.bounds, 0, band_count_x, include_upper_boundary);
    &&& data.entries@ == band_entries(outline.curves@, outline.bounds, locations, h, v)
    &&& data.band_count_x == band_count_x
    &&& data.band_count_y == band_count_y
    &&& data.band_transform@ == seq![v.scale, h.scale, v.offset, h.offset]
}

/// Build the band acceleration structure for a glyph.
///
/// Produces dual sorted curve lists (descending by max, ascending by min)
/// with a split point per band for direction-aware shader early exit.
/// `curve_locations` gives each curve's offset in the curve data that follows
/// the bands. `scratch_entries` only lends its allocation.
pub fn build_bands(
    outline: &GlyphOutline,
    curve_locations: &[CurveLocation],
    band_count_x: u32,
    band_count_y: u32,
    scratch_entries: Vec<i16>,
    scratch: &mut BandScratch,
) -> (r: BandData)
    requires
        bands_fit(*outline, curve_locations@, band_count_x, band_count_y, false),
    ensures
        bands_of(*outline, curve_locations@, r, band_count_x, band_count_y, false),
{
    build_bands_impl(outline, curve_locations, band_count_x, band_count_y, scratch_entries, scratch, false)
}

/// Build winding bands for the border shader. Unlike the fill bands, curves
/// touching a band's upper edge are present in both adjacent bands. The
/// winding root test owns endpoints half-open, so the duplicate membership
/// cannot double count a crossing.
pub fn build_border_bands(
    outline: &GlyphOutline,
    curve_locations: &[CurveLocation],
    band_count_x: u32,
    band_count_y: u32,
    scratch_entries: Vec<i16>,
    scratch: &mut BandScratch,
) -> (r: BandData)
    requires
        bands_fit(*outline, curve_locations@, band_count_x, band_count_y, true),
    ensures
        bands_of(*outline, curve_locations@, r, band_count_x, band_count_y, true),
{
    build_bands_impl(outline, curve_locations, band_count_x, band_count_y, scratch_entries, scratch, true)
}

/// Builds the bands of a glyph, with or without the curves on a band's upper edge.
/// Neither the lent buffers nor what an earlier build left in them shows.
pub fn build_bands_impl(
    outline: &GlyphOutline,
    curve_locations: &[CurveLocation],
    band_count_x: u32,
    band_count_y: u32,
    scratch_entries: Vec<i16>,
    scratch: &mut BandScratch,
    include_upper_boundary: bool,
) -> (r: BandData)
    requires
        bands_fit(*outline, curve_locations@, band_count_x, band_count_y, include_upper_boundary),
    ensures
        bands_of(*outline, curve_locations@, r, band_count_x, band_count_y, include_upper_boundary),
{
    let h: BandAxis = band_axis(&outline.bounds, 1, band_count_y, include_upper_boundary);
    let v: BandAxis = band_axis(&outline.bounds, 0, band_count_x, include_upper_boundary);
    let ghost curves = outline.curves@;
    let n: usize = outline.curves.len();

    scratch.curve_meta.clear();
    scratch.desc_keys_x.clear();
    scratch.desc_keys_y.clear();
    scratch.asc_keys_x.clear();
    scratch.asc_keys_y.clear();

    // Per-curve metadata and sort keys.
    let mut i: usize = 0;
    while i < n
        invariant
            i <= n,
            n == curves.len(),
            curves == outline.curves@,
            h.axis == 1,
            v.axis == 0,
            n > 0 ==> h.count > 0 && v.count > 0,
            scratch.curve_meta.len() == i,
            scratch.desc_keys_x.len() == i,
            scratch.desc_keys_y.len() == i,
            scratch.asc_keys_x.len() == i,
            scratch.asc_keys_y.len() == i,
            forall|j: int| 0 <= j < i ==> meta_matches(#[trigger] scratch.curve_meta@[j], curves[j], h, v),
            forall|j: int| 0 <= j < i ==> #[trigger] scratch.desc_keys_x@[j] == -curves[j].high(0).order(),
            forall|j: int| 0 <= j < i ==> #[trigger] scratch.desc_keys_y@[j] == -curves[j].high(1).order(),
            forall|j: int| 0 <= j < i ==> #[trigger] scratch.asc_keys_x@[j] == curves[j].low(0).order(),
            forall|j: int| 0 <= j < i ==> #[trigger] scratch.asc_keys_y@[j] == curves[j].low(1).order(),
        decreases n - i,
    {
        let curve: &QuadCurve = &outline.curves[i];
        let meta: CurveMeta = curve_meta(curve, &h, &v);
        scratch.curve_meta.push(meta);
        scratch.desc_keys_x.push(-(curve.axis_max(0).order_key() as i128));
        scratch.desc_keys_y.push(-(curve.axis_max(1).order_key() as i128));
        scratch.asc_keys_x.push(curve.axis_min(0).order_key() as i128);
        scratch.asc_keys_y.push(curve.axis_min(1).order_key() as i128);
        i = i + 1;
    }
    proof {
        assert(scratch.desc_keys_x@ =~= desc_keys(curves, 0));
        assert(scratch.desc_keys_y@ =~= desc_keys(curves, 1));
        assert(scratch.asc_keys_x@ =~= asc_keys(curves, 0));
        assert(scratch.asc_keys_y@ =~= asc_keys(curves, 1));
    }

    // Dual sorted lists (desc by max, asc by min) for each band.
    scratch.hbands = all_lists(
        &scratch.curve_meta,
        1,
        band_count_y,
        &scratch.desc_keys_x,
        &scratch.asc_keys_x,
        Ghost(curves),
        Ghost(h),
        Ghost(v),
    );
    scratch.vbands = all_lists(
        &scratch.curve_meta,
        0,
        band_count_x,
        &scratch.desc_keys_y,
        &scratch.asc_keys_y,
        Ghost(curves),
        Ghost(h),
        Ghost(v),
    );
    let htotal: u32 = count_references(&scratch.hbands, Ghost(curves), Ghost(h));
    let vtotal: u32 = count_references(&scratch.vbands, Ghost(curves), Ghost(v));
    let num_headers: u32 = band_count_y + band_count_x;
    let elements: u32 = num_headers + (htotal + vtotal) * 2;

    // Layout: [headers...] [band0_desc, band0_asc, band1_desc, band1_asc, ...]
    let mut entries: Vec<i16> = scratch_entries;
    entries.clear();
    let ghost e0 = entries@;
    let lists_v: u32 = push_headers(&mut entries, &outline.curves, &outline.bounds, &scratch.hbands, 0, num_headers, Ghost(h));
    let ghost e1 = entries@;
    let _end: u32 = push_headers(&mut entries, &outline.curves, &outline.bounds, &scratch.vbands, 1, lists_v, Ghost(v));
    let ghost e2 = entries@;
    push_references(&mut entries, &scratch.curve_meta, curve_locations, &scratch.hbands, 1, elements, Ghost(curves), Ghost(h), Ghost(v));
    let ghost e3 = entries@;
    push_references(&mut entries, &scratch.curve_meta, curve_locations, &scratch.vbands, 0, elements, Ghost(curves), Ghost(h), Ghost(v));
    proof {
        reveal(band_entries);
        assert(e0 =~= Seq::<i16>::empty());
        assert(entries@ =~= band_entries(curves, outline.bounds, curve_locations@, h, v));
    }
    let data = BandData {
        entries,
        band_count_x,
        band_count_y,
        band_transform: [v.scale, h.scale, v.offset, h.offset],
    };
    assert(data.band_transform@ =~= seq![v.scale, h.scale, v.offset, h.offset]);
    data
}

proof fn lemma_list_references_len(
    curves: Seq<QuadCurve>,
    locations: Seq<CurveLocation>,
    list: Seq<usize>,
    axis: int,
    elements: int,
    descending: bool,
    n: nat,
)
    ensures
        list_references(curves, locations, list, axis, elements, descending, n).len() == 4 * n,
    decreases n,
{
    if n > 0 {
        lemma_list_references_len(curves, locations, list, axis, elements, descending, (n - 1) as nat);
    }
}

proof fn lemma_headers_len(lay: BandAxis, curves: Seq<QuadCurve>, bounds: [F32; 4], base: int, bands: nat)
    ensures
        lay.headers(curves, bounds, base, bands).len() == 4 * bands,
    decreases bands,
{
    if bands > 0 {
        lemma_headers_len(lay, curves, bounds, base, (bands - 1) as nat);
    }
}

proof fn lemma_references_len(
    lay: BandAxis,
    curves: Seq<QuadCurve>,
    locations: Seq<CurveLocation>,
    elements: int,
    bands: nat,
)
    ensures
        lay.references(curves, locations, elements, bands).len() == 8 * lay.refs_before(curves, bands),
    decreases bands,
{
    if bands > 0 {
        let band = bands - 1;
        lemma_references_len(lay, curves, locations, elements, band as nat);
        lemma_ordered(desc_keys(curves, lay.cross_axis()), lay.members(curves, band, curves.len()));
        lemma_ordered(asc_keys(curves, lay.cross_axis()), lay.members(curves, band, curves.len()));
        lemma_list_references_len(curves, locations, lay.desc(curves, band), lay.axis as int, elements, true, lay.desc(curves, band).len());
        lemma_list_references_len(curves, locations, lay.asc(curves, band), lay.axis as int, elements, false, lay.asc(curves, band).len());
    }
}

/// A band region is a whole number of four-lane texels: one per band and two
/// per curve of a band.
pub proof fn law_entries_are_whole_texels(
    curves: Seq<QuadCurve>,
    bounds: [F32; 4],
    locations: Seq<CurveLocation>,
    h: BandAxis,
    v: BandAxis,
)
    ensures
        band_entries(curves, bounds, locations, h, v).len() == 4 * element_count(curves, h, v),
{
    reveal(band_entries);
    let base = h.count + v.count;
    let vbase = base + 2 * h.refs_before(curves, h.count as nat);
    let elements = element_count(curves, h, v);
    lemma_headers_len(h, curves, bounds, base, h.count as nat);
    lemma_headers_len(v, curves, bounds, vbase, v.count as nat);
    lemma_references_len(h, curves, locations, elements, h.count as nat);
    lemma_references_len(v, curves, locations, elements, v.count as nat);
}

proof fn lemma_members_contains(lay: BandAxis, curves: Seq<QuadCurve>, band: int, n: nat, i: int)
    requires
        n <= curves.len() <= usize::MAX,
        0 <= i < curves.len(),
    ensures
        lay.members(curves, band, n).contains(i as usize) <==> i < n && lay.crosses(curves[i], band),
    decreases n,
{
    if n > 0 {
        let before = lay.members(curves, band, (n - 1) as nat);
        lemma_members_contains(lay, curves, band, (n - 1) as nat, i);
        let all = lay.members(curves, band, n);
        if lay.crosses(curves[n - 1], band) {
            assert(all == before.push((n - 1) as usize));
            assert(all[before.len() as int] == (n - 1) as usize);
            if before.contains(i as usize) {
                let k = choose|k: int| 0 <= k < before.len() && before[k] == i as usize;
                assert(all[k] == i as usize);
            }
            if all.contains(i as usize) {
                let k = choose|k: int| 0 <= k < all.len() && all[k] == i as usize;
                if k < before.len() {
                    assert(before[k] == i as usize);
                }
            }
        }
    }
}

/// Both lists of a band hold exactly the curves that cross it, one by
/// descending maximum and one by ascending minimum.
pub proof fn law_lists_hold_the_crossing_curves(lay: BandAxis, curves: Seq<QuadCurve>, band: int, i: int)
    requires
        curves.len() <= usize::MAX,
        0 <= i < curves.len(),
        lay.axis < 2,
    ensures
        lay.desc(curves, band).contains(i as usize) <==> lay.crosses(curves[i], band),
        lay.asc(curves, band).contains(i as usize) <==> lay.crosses(curves[i], band),
        lay.desc(curves, band).to_multiset() == lay.asc(curves, band).to_multiset(),
        forall|a: int, b: int|
            0 <= a < b < lay.desc(curves, band).len() ==> curves[#[trigger] lay.desc(curves, band)[a] as int].high(
                lay.cross_axis(),
            ).order() >= curves[#[trigger] lay.desc(curves, band)[b] as int].high(lay.cross_axis()).order(),
        forall|a: int, b: int|
            0 <= a < b < lay.asc(curves, band).len() ==> curves[#[trigger] lay.asc(curves, band)[a] as int].low(
                lay.cross_axis(),
            ).order() <= curves[#[trigger] lay.asc(curves, band)[b] as int].low(lay.cross_axis()).order(),
{
    let members = lay.members(curves, band, curves.len());
    let desc = lay.desc(curves, band);
    let asc = lay.asc(curves, band);
    let dk = desc_keys(curves, lay.cross_axis());
    let ak = asc_keys(curves, lay.cross_axis());
    lemma_members_contains(lay, curves, band, curves.len(), i);
    lemma_members(lay, curves, band, curves.len());
    lemma_ordered(dk, members);
    lemma_ordered(ak, members);
    members.to_multiset_ensures();
    desc.to_multiset_ensures();
    asc.to_multiset_ensures();
    let x = i as usize;
    assert(members.contains(x) <==> members.to_multiset().count(x) > 0);
    assert(desc.contains(x) <==> desc.to_multiset().count(x) > 0);
    assert(asc.contains(x) <==> asc.to_multiset().count(x) > 0);
    assert forall|a: int, b: int| 0 <= a < b < desc.len() implies curves[#[trigger] desc[a] as int].high(
        lay.cross_axis(),
    ).order() >= curves[#[trigger] desc[b] as int].high(lay.cross_axis()).order() by {
        assert(precedes(dk, desc[a], desc[b]));
        assert(members.contains(desc[a]) && members.contains(desc[b]));
    }
    assert forall|a: int, b: int| 0 <= a < b < asc.len() implies curves[#[trigger] asc[a] as int].low(
        lay.cross_axis(),
    ).order() <= curves[#[trigger] asc[b] as int].low(lay.cross_axis()).order() by {
        assert(precedes(ak, asc[a], asc[b]));
        assert(members.contains(asc[a]) && members.contains(asc[b]));
    }
}

/// The chosen split costs no more than any candidate, and beats walking the
/// whole band; without a choice no candidate does.
pub proof fn law_split_is_cheapest(
    curves: Seq<QuadCurve>,
    axis: int,
    desc: Seq<usize>,
    asc: Seq<usize>,
    n: nat,
    at: int,
)
    requires
        0 <= at < n,
    ensures
        best_split(curves, axis, desc, asc, n).0 <= split_cost(curves, axis, desc, asc, at),
        best_split(curves, axis, desc, asc, n).0 <= desc.len(),
        match best_split(curves, axis, desc, asc, n).1 {
            None => best_split(curves, axis, desc, asc, n).0 == desc.len(),
            Some(k) => 0 <= k < n && best_split(curves, axis, desc, asc, n).0 == split_cost(
                curves,
                axis,
                desc,
                asc,
                k,
            ) && split_cost(curves, axis, desc, asc, k) < desc.len(),
        },
    decreases n,
{
    if at < n - 1 {
        law_split_is_cheapest(curves, axis, desc, asc, (n - 1) as nat, at);
    } else if n > 1 {
        law_split_is_cheapest(curves, axis, desc, asc, (n - 1) as nat, n - 2);
    } else {
        assert(best_split(curves, axis, desc, asc, 0) == (desc.len(), None::<int>));
    }
}

}
