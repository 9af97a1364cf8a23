//! Packing a glyph's border blob.
use vstd::prelude::*;
use crate::band::{
    BandAxis, BandData, BandScratch, CurveLocation, band_entries, bands_fit, build_border_bands,
    law_entries_are_whole_texels, quantize_split, split_lane,
};
use crate::border::boundary::{
    MIN_POSITIVE_BITS, curve_in_range, curves_in_range, law_quantized_outline_is_stable, lemma_quantized_on_grid,
    points_box, quantized_curves, quantized_outline,
};
use crate::border::certify::{BoundaryPiece, MAX_BOUNDARY_PIECES};
use crate::border::curve::lit;
use crate::border::extract::{extract_boundary, extracted};
use crate::border::grid::{
    DistanceGrid, all_refined, build_distance_grid, is_grid_for, law_grids_hold_their_radii, refine_boundary,
};
use crate::float32::{
    F32, INFINITY_BITS, TWO_BITS, cell_of, f_div, f_eq, f_from_int, f_le, f_max, f_mul, f_next_power, f_sub,
    lemma_over_two, lemma_times_two,
};
use crate::outline::{GlyphOutline, QuadCurve};
use crate::packing::{append_packed, pack_i16_pair, packed_words, pair_word};
use crate::text_atlas::{band_count, band_count_for_curves, bits_word, to_word};
use crate::types::PrepareError;

verus! {

/// Texels of a border descriptor.
pub const DESCRIPTOR_TEXELS: u32 = 8;

/// Largest offset that 16 bits hold.
pub const MAX_OFFSET: u32 = 65535;

/// Where the parts of a border blob are, and what it can answer.
#[derive(Clone, Copy, Debug)]
pub struct BorderDescriptor {
    pub fill_offset: u32,
    pub winding_offset: u32,
    pub grid_offset: u32,
    pub boundary_offset: u32,
    pub boundary_count: u32,
    /// Distance-query capacity in font units. Infinite for a brute-force
    /// blob, which loops every boundary piece and so serves any radius.
    /// Font units, not pixels: the same pixel radius needs a larger unit
    /// radius at a smaller size, so a pixel capacity cannot be compared
    /// across the sizes one glyph is drawn at within a single frame.
    pub grid_radius_units: F32,
    pub ppem_ceiling: F32,
}

/// A border blob with what it was made of.
pub struct PreparedBorder {
    pub descriptor: BorderDescriptor,
    pub data: Vec<i32>,
    pub texel_len: u32,
    pub boundary: Vec<BoundaryPiece>,
    pub grid: DistanceGrid,
}

/// A curve that is not flat along an axis, and the bands it is counted in.
#[verifier::opaque]
pub open spec fn counted_bands(c: QuadCurve, bounds: [F32; 4], axis: int, count: u32) -> int {
    let low = c.low(axis);
    let high = c.high(axis);
    let extent = f_max(f_sub(bounds[axis + 2], bounds[axis]), lit(MIN_POSITIVE_BITS));
    let scale = f_from_int(count as int);
    let first = cell_of(f_div(f_mul(f_sub(low, bounds[axis]), scale), extent), count as int);
    let last = cell_of(f_div(f_mul(f_sub(high, bounds[axis]), scale), extent), count as int);
    if f_eq(low, high) || last < first {
        0
    } else {
        last - first + 1
    }
}

/// References that the first `n` curves need.
pub open spec fn counted_references(curves: Seq<QuadCurve>, bounds: [F32; 4], count: u32, n: nat) -> int
    decreases n,
{
    if n == 0 {
        0
    } else {
        counted_references(curves, bounds, count, (n - 1) as nat) + counted_bands(curves[n - 1], bounds, 1, count)
            + counted_bands(curves[n - 1], bounds, 0, count)
    }
}

/// The offsets of a border's band region fit 16 bits.
pub open spec fn offsets_fit(curves: Seq<QuadCurve>, bounds: [F32; 4], count: u32) -> bool {
    let texels = 2 * count + 2 * counted_references(curves, bounds, count, curves.len());
    let last_curve = if curves.len() == 0 { 0 } else { 2 * (curves.len() - 1) };
    texels + last_curve <= MAX_OFFSET
}

fn count_bands(c: &QuadCurve, bounds: &[F32; 4], axis: usize, count: u32) -> (r: u64)
    requires
        axis < 2,
        count > 0 || is_point(*c),
    ensures
        r == counted_bands(*c, *bounds, axis as int, count),
        r <= count,
{
    reveal(counted_bands);
    let low: F32 = c.axis_min(axis);
    let high: F32 = c.axis_max(axis);
    if low.eq_value(high) {
        return 0;
    }
    let extent: F32 = bounds[axis + 2].minus(bounds[axis]).max(F32 { bits: MIN_POSITIVE_BITS });
    let scale: F32 = F32::from_i64(count as i64);
    let first: u32 = low.minus(bounds[axis]).times(scale).over(extent).cell(count);
    let last: u32 = high.minus(bounds[axis]).times(scale).over(extent).cell(count);
    if last < first {
        0
    } else {
        (last - first + 1) as u64
    }
}

/// A curve is flat along both axes, so that it is in no band.
pub open spec fn is_point(c: QuadCurve) -> bool {
    f_eq(c.low(0), c.high(0)) && f_eq(c.low(1), c.high(1))
}

proof fn lemma_counts_are_counts(curves: Seq<QuadCurve>, bounds: [F32; 4], count: u32, n: nat)
    ensures
        counted_references(curves, bounds, count, n) >= 0,
    decreases n,
{
    reveal(counted_bands);
    if n > 0 {
        lemma_counts_are_counts(curves, bounds, count, (n - 1) as nat);
    }
}

/// Whether the offsets of a border's band region fit 16 bits. Without bands there
/// can be no curve to sort into them.
pub fn border_band_offsets_fit(outline: &GlyphOutline, band_count: u32) -> (r: bool)
    requires
        band_count == 0 ==> forall|i: int| 0 <= i < outline.curves@.len() ==> is_point(#[trigger] outline.curves@[i]),
    ensures
        r == offsets_fit(outline.curves@, outline.bounds, band_count),
{
    proof {
        lemma_counts_are_counts(outline.curves@, outline.bounds, band_count, outline.curves@.len());
    }
    // The headers alone, or the curves alone, may be too many.
    if band_count > 32767 || outline.curves.len() > 32768 {
        return false;
    }
    let mut references: u64 = 0;
    let mut i: usize = 0;
    while i < outline.curves.len()
        invariant
            i <= outline.curves.len() <= 32768,
            band_count <= 32767,
            band_count == 0 ==> forall|i: int| 0 <= i < outline.curves@.len() ==> is_point(#[trigger] outline.curves@[i]),
            references == counted_references(outline.curves@, outline.bounds, band_count, i as nat),
            references <= 65536 * i,
        decreases outline.curves.len() - i,
    {
        let c: &QuadCurve = &outline.curves[i];
        references = references + count_bands(c, &outline.bounds, 1, band_count) + count_bands(c, &outline.bounds, 0, band_count);
        i = i + 1;
    }
    let band_texels: u64 = band_count as u64 * 2 + references * 2;
    let last_curve: u64 = if outline.curves.len() == 0 { 0 } else { (outline.curves.len() as u64 - 1) * 2 };
    band_texels <= MAX_OFFSET as u64 && band_texels + last_curve <= MAX_OFFSET as u64
}

/// Curves at every other texel.
pub open spec fn paired_locations(n: nat) -> Seq<CurveLocation> {
    Seq::new(n, |i: int| CurveLocation { offset: (2 * i) as u32 })
}

/// The lanes of one curve: its three points and nothing.
pub open spec fn curve_words(c: QuadCurve) -> Seq<i32> {
    seq![
        pair_word(split_lane(c.p1[0]), split_lane(c.p1[1])),
        pair_word(split_lane(c.p2[0]), split_lane(c.p2[1])),
        pair_word(split_lane(c.p3[0]), split_lane(c.p3[1])),
        0i32,
    ]
}

/// The words of the first `n` curves.
pub open spec fn curves_words(curves: Seq<QuadCurve>, n: nat) -> Seq<i32>
    decreases n,
{
    if n == 0 {
        Seq::empty()
    } else {
        curves_words(curves, (n - 1) as nat) + curve_words(curves[n - 1])
    }
}

/// Numbers as the words of a texel each.
pub open spec fn padded_words(values: Seq<u32>) -> Seq<i32> {
    Seq::new(2 * values.len(), |i: int| if i % 2 == 0 { bits_word(values[i / 2]) } else { 0i32 })
}

pub open spec fn piece_words(p: BoundaryPiece) -> Seq<i32> {
    seq![
        bits_word(p.curve.p1[0].bits),
        bits_word(p.curve.p1[1].bits),
        bits_word(p.curve.p2[0].bits),
        bits_word(p.curve.p2[1].bits),
        bits_word(p.curve.p3[0].bits),
        bits_word(p.curve.p3[1].bits),
    ]
}

/// The words of the first `n` pieces.
pub open spec fn pieces_words(pieces: Seq<BoundaryPiece>, n: nat) -> Seq<i32>
    decreases n,
{
    if n == 0 {
        Seq::empty()
    } else {
        pieces_words(pieces, (n - 1) as nat) + piece_words(pieces[n - 1])
    }
}

/// The descriptor's words.
pub open spec fn descriptor_words(d: BorderDescriptor, grid: DistanceGrid, units_per_em: F32, bounds: [F32; 4], curves: int) -> Seq<
    i32,
> {
    seq![
        bits_word(d.fill_offset),
        bits_word(d.winding_offset),
        bits_word(d.grid_offset),
        bits_word(d.boundary_offset),
        bits_word(d.boundary_count),
        bits_word(grid.radius.bits),
        bits_word(units_per_em.bits),
        if grid.brute_force { 1i32 } else { 0i32 },
        bits_word(bounds[0].bits),
        bits_word(bounds[1].bits),
        bits_word(bounds[2].bits),
        bits_word(bounds[3].bits),
        grid.columns as i32,
        grid.rows as i32,
        bits_word(grid.radius.bits),
        curves as i32,
    ]
}

/// The band axes of a border.
pub open spec fn border_axis(bounds: [F32; 4], axis: int, count: u32) -> BandAxis {
    BandAxis::of(bounds, axis, count, true)
}

/// The band lanes of a border.
#[verifier::opaque]
pub open spec fn border_band_lanes(curves: Seq<QuadCurve>, bounds: [F32; 4], count: u32) -> Seq<i16> {
    band_entries(
        curves,
        bounds,
        paired_locations(curves.len()),
        border_axis(bounds, 1, count),
        border_axis(bounds, 0, count),
    )
}

pub open spec fn safe_ppem(ppem: F32) -> F32 {
    f_max(ppem, lit(MIN_POSITIVE_BITS))
}

/// The size that a blob made for a size serves: at least twice it.
pub open spec fn ceiling_for(ppem: F32) -> F32 {
    f_next_power(f_mul(safe_ppem(ppem), lit(TWO_BITS)))
}

/// The query radius, at least one pixel's worth of font units.
pub open spec fn floored_radius(radius_units: F32, units_per_em: F32, ppem: F32) -> F32 {
    f_max(radius_units, f_div(units_per_em, safe_ppem(ppem)))
}

/// The refined boundary of a border.
pub open spec fn border_boundary(curves: Seq<QuadCurve>, units_per_em: F32, ppem: F32) -> Option<Seq<BoundaryPiece>> {
    let ceiling = ceiling_for(ppem);
    match extracted(curves, ceiling, units_per_em) {
        None => None,
        Some(pieces) => all_refined(pieces, ceiling, units_per_em, pieces.len()),
    }
}

/// Texels of the winding region: bands and curves.
pub open spec fn winding_texels(curves: Seq<QuadCurve>, bounds: [F32; 4]) -> int {
    let count = band_count(curves.len() as int);
    border_band_lanes(curves, bounds, count).len() as int / 4 + 2 * curves.len()
}

fn append_curves(out: &mut Vec<i32>, curves: &Vec<QuadCurve>)
    ensures
        final(out)@ == old(out)@ + curves_words(curves@, curves@.len()),
{
    let ghost before = out@;
    let mut i: usize = 0;
    assert(before + curves_words(curves@, 0) =~= before);
    while i < curves.len()
        invariant
            i <= curves.len(),
            out@ == before + curves_words(curves@, i as nat),
        decreases curves.len() - i,
    {
        let c: &QuadCurve = &curves[i];
        let ghost so_far = out@;
        let a: i32 = pack_i16_pair(quantize_split(c.p1[0]), quantize_split(c.p1[1]));
        let b: i32 = pack_i16_pair(quantize_split(c.p2[0]), quantize_split(c.p2[1]));
        let d: i32 = pack_i16_pair(quantize_split(c.p3[0]), quantize_split(c.p3[1]));
        out.push(a);
        out.push(b);
        out.push(d);
        out.push(0);
        assert(out@ =~= so_far + curve_words(curves@[i as int]));
        assert(out@ =~= before + curves_words(curves@, (i + 1) as nat));
        i = i + 1;
    }
}

fn append_padded(out: &mut Vec<i32>, values: &Vec<u32>)
    ensures
        final(out)@ == old(out)@ + padded_words(values@),
{
    let ghost before = out@;
    let mut i: usize = 0;
    assert(before + padded_words(values@).take(0) =~= before);
    while i < values.len()
        invariant
            i <= values.len(),
            out@ == before + padded_words(values@).take(2 * i as int),
        decreases values.len() - i,
    {
        out.push(to_word(values[i]));
        out.push(0);
        assert(out@ =~= before + padded_words(values@).take(2 * (i + 1)));
        i = i + 1;
    }
    assert(padded_words(values@).take(2 * values@.len() as int) =~= padded_words(values@));
}

fn append_pieces(out: &mut Vec<i32>, pieces: &Vec<BoundaryPiece>)
    ensures
        final(out)@ == old(out)@ + pieces_words(pieces@, pieces@.len()),
{
    let ghost before = out@;
    let mut i: usize = 0;
    assert(before + pieces_words(pieces@, 0) =~= before);
    while i < pieces.len()
        invariant
            i <= pieces.len(),
            out@ == before + pieces_words(pieces@, i as nat),
        decreases pieces.len() - i,
    {
        let c: &QuadCurve = &pieces[i].curve;
        let ghost so_far = out@;
        out.push(to_word(c.p1[0].bits));
        out.push(to_word(c.p1[1].bits));
        out.push(to_word(c.p2[0].bits));
        out.push(to_word(c.p2[1].bits));
        out.push(to_word(c.p3[0].bits));
        out.push(to_word(c.p3[1].bits));
        assert(out@ =~= so_far + piece_words(pieces@[i as int]));
        assert(out@ =~= before + pieces_words(pieces@, (i + 1) as nat));
        i = i + 1;
    }
}

pub proof fn lemma_pieces_words_len(pieces: Seq<BoundaryPiece>, n: nat)
    ensures
        pieces_words(pieces, n).len() == 6 * n,
    decreases n,
{
    if n > 0 {
        lemma_pieces_words_len(pieces, (n - 1) as nat);
    }
}

pub proof fn lemma_curves_words_len(curves: Seq<QuadCurve>, n: nat)
    ensures
        curves_words(curves, n).len() == 4 * n,
    decreases n,
{
    if n > 0 {
        lemma_curves_words_len(curves, (n - 1) as nat);
    }
}

/// The descriptor's words.
fn descriptor_data(d: &BorderDescriptor, grid: &DistanceGrid, units_per_em: F32, bounds: &[F32; 4], curves: u32) -> (r: Vec<i32>)
    requires
        curves <= MAX_OFFSET,
    ensures
        r@ == descriptor_words(*d, *grid, units_per_em, *bounds, curves as int),
{
    let mut data: Vec<i32> = Vec::new();
    data.push(to_word(d.fill_offset));
    data.push(to_word(d.winding_offset));
    data.push(to_word(d.grid_offset));
    data.push(to_word(d.boundary_offset));
    data.push(to_word(d.boundary_count));
    data.push(to_word(grid.radius.bits));
    data.push(to_word(units_per_em.bits));
    data.push(if grid.brute_force { 1 } else { 0 });
    data.push(to_word(bounds[0].bits));
    data.push(to_word(bounds[1].bits));
    data.push(to_word(bounds[2].bits));
    data.push(to_word(bounds[3].bits));
    data.push(grid.columns as i32);
    data.push(grid.rows as i32);
    data.push(to_word(grid.radius.bits));
    data.push(curves as i32);
    assert(data@ =~= descriptor_words(*d, *grid, units_per_em, *bounds, curves as int));
    data
}

/// The descriptor, bands, curves, grid and boundary of a border, one after
/// another.
fn pack_border(
    descriptor: &BorderDescriptor,
    grid: &DistanceGrid,
    units_per_em: F32,
    quantized: &GlyphOutline,
    bands: &BandData,
    boundary: &Vec<BoundaryPiece>,
) -> (r: Vec<i32>)
    requires
        quantized.curves@.len() <= MAX_OFFSET,
        bands.entries@.len() % 2 == 0,
    ensures
        r@ == descriptor_words(*descriptor, *grid, units_per_em, quantized.bounds, quantized.curves@.len() as int)
            + packed_words(bands.entries@) + curves_words(quantized.curves@, quantized.curves@.len()) + padded_words(
            grid.offsets@,
        ) + padded_words(grid.candidates@) + pieces_words(boundary@, boundary@.len()),
        r@.len() == 16 + bands.entries@.len() / 2 + 4 * quantized.curves@.len() + 2 * grid.offsets@.len() + 2
            * grid.candidates@.len() + 6 * boundary@.len(),
{
    let mut data: Vec<i32> = descriptor_data(
        descriptor,
        grid,
        units_per_em,
        &quantized.bounds,
        quantized.curves.len() as u32,
    );
    append_packed(&mut data, &bands.entries);
    append_curves(&mut data, &quantized.curves);
    append_padded(&mut data, &grid.offsets);
    append_padded(&mut data, &grid.candidates);
    append_pieces(&mut data, boundary);
    proof {
        lemma_curves_words_len(quantized.curves@, quantized.curves@.len());
        lemma_pieces_words_len(boundary@, boundary@.len());
    }
    data
}

fn pair_locations(n: usize) -> (r: Vec<CurveLocation>)
    requires
        2 * n <= MAX_OFFSET,
    ensures
        r@ == paired_locations(n as nat),
{
    let mut out: Vec<CurveLocation> = Vec::new();
    let mut i: usize = 0;
    while i < n
        invariant
            i <= n,
            2 * n <= MAX_OFFSET,
            out@ == paired_locations(i as nat),
        decreases n - i,
    {
        out.push(CurveLocation { offset: (i * 2) as u32 });
        assert(out@ =~= paired_locations((i + 1) as nat));
        i = i + 1;
    }
    out
}

proof fn lemma_border_bands_fit(outline: GlyphOutline, count: u32)
    requires
        2 * outline.curves@.len() <= MAX_OFFSET,
        0 < count <= 16,
    ensures
        bands_fit(outline, paired_locations(outline.curves@.len()), count, count, true),
        border_band_lanes(outline.curves@, outline.bounds, count).len() % 4 == 0,
        border_band_lanes(outline.curves@, outline.bounds, count).len() <= 0x1000_0000,
{
    reveal(border_band_lanes);
    let curves = outline.curves@;
    let h = border_axis(outline.bounds, 1, count);
    let v = border_axis(outline.bounds, 0, count);
    crate::prep::lemma_elements_bound(curves, h, v);
    let n = curves.len() as int;
    assert((v.count + h.count) * (2 * n + 1) <= 32 * 65536) by (nonlinear_arith)
        requires
            0 <= v.count <= 16,
            0 <= h.count <= 16,
            0 <= n <= 32767,
    ;
    law_entries_are_whole_texels(curves, outline.bounds, paired_locations(curves.len()), h, v);
}

/// The winding region's offsets fit 16 bits.
pub open spec fn winding_fits(curves: Seq<QuadCurve>, bounds: [F32; 4]) -> bool {
    &&& offsets_fit(curves, bounds, band_count(curves.len() as int))
    &&& DESCRIPTOR_TEXELS + winding_texels(curves, bounds) <= MAX_OFFSET
}

/// A blob holds a boundary with its grid, and the winding region of an outline.
pub open spec fn is_assembled(
    b: PreparedBorder,
    curves: Seq<QuadCurve>,
    bounds: [F32; 4],
    fill_offset: u32,
    units_per_em: F32,
    ppem_ceiling: F32,
    radius: F32,
) -> bool {
    let count = band_count(curves.len() as int);
    let d = b.descriptor;
    &&& is_grid_for(b.grid, b.boundary@, bounds, radius, units_per_em)
    &&& d.fill_offset == fill_offset
    &&& d.winding_offset == DESCRIPTOR_TEXELS
    &&& d.grid_offset == DESCRIPTOR_TEXELS + winding_texels(curves, bounds)
    &&& d.boundary_offset == d.grid_offset + b.grid.offsets@.len() + b.grid.candidates@.len()
    &&& d.boundary_count == b.boundary@.len()
    &&& d.grid_radius_units == (if b.grid.brute_force { lit(INFINITY_BITS) } else { b.grid.radius })
    &&& d.ppem_ceiling == ppem_ceiling
    &&& b.data@ == descriptor_words(d, b.grid, units_per_em, bounds, curves.len() as int) + packed_words(
        border_band_lanes(curves, bounds, count),
    ) + curves_words(curves, curves.len()) + padded_words(b.grid.offsets@) + padded_words(b.grid.candidates@)
        + pieces_words(b.boundary@, b.boundary@.len())
    &&& b.texel_len == d.boundary_offset + 3 * b.boundary@.len()
    &&& b.data@.len() == 2 * b.texel_len
}

/// Builds the winding bands of a border.
fn border_bands(quantized: &GlyphOutline, count: u32) -> (r: BandData)
    requires
        2 * quantized.curves@.len() <= MAX_OFFSET,
        0 < count <= 16,
    ensures
        r.entries@ == border_band_lanes(quantized.curves@, quantized.bounds, count),
        r.entries@.len() % 4 == 0,
        r.entries@.len() <= 0x1000_0000,
{
    proof {
        lemma_border_bands_fit(*quantized, count);
        reveal(border_band_lanes);
    }
    let locations: Vec<CurveLocation> = pair_locations(quantized.curves.len());
    let mut scratch: BandScratch = BandScratch::default();
    build_border_bands(quantized, locations.as_slice(), count, count, Vec::new(), &mut scratch)
}

/// Puts a border blob together from a refined boundary.
fn assemble_border(
    quantized: &GlyphOutline,
    boundary: Vec<BoundaryPiece>,
    fill_offset: u32,
    units_per_em: F32,
    ppem_ceiling: F32,
    radius: F32,
) -> (r: Result<PreparedBorder, PrepareError>)
    requires
        2 * quantized.curves@.len() <= MAX_OFFSET,
        boundary@.len() <= MAX_BOUNDARY_PIECES,
    ensures
        r is Ok <==> winding_fits(quantized.curves@, quantized.bounds),
        r is Err ==> r == Err::<PreparedBorder, PrepareError>(PrepareError::AtlasFull),
        r matches Ok(b) ==> b.boundary@ == boundary@ && is_assembled(
            b,
            quantized.curves@,
            quantized.bounds,
            fill_offset,
            units_per_em,
            ppem_ceiling,
            radius,
        ),
{
    let n: usize = quantized.curves.len();
    let grid: DistanceGrid = build_distance_grid(boundary.as_slice(), quantized.bounds, radius, units_per_em);
    let count: u32 = band_count_for_curves(n);
    if !border_band_offsets_fit(quantized, count) {
        return Err(PrepareError::AtlasFull);
    }
    let bands: BandData = border_bands(quantized, count);
    let grid_offset: u32 = DESCRIPTOR_TEXELS + (bands.entries.len() / 4) as u32 + n as u32 * 2;
    if grid_offset > MAX_OFFSET {
        return Err(PrepareError::AtlasFull);
    }
    let boundary_offset: u32 = grid_offset + grid.offsets.len() as u32 + grid.candidates.len() as u32;
    let grid_radius_units: F32 = if grid.brute_force {
        F32 { bits: INFINITY_BITS }
    } else {
        grid.radius
    };
    let descriptor = BorderDescriptor {
        fill_offset,
        winding_offset: DESCRIPTOR_TEXELS,
        grid_offset,
        boundary_offset,
        boundary_count: boundary.len() as u32,
        grid_radius_units,
        ppem_ceiling,
    };
    let data: Vec<i32> = pack_border(&descriptor, &grid, units_per_em, quantized, &bands, &boundary);
    let texel_len: u32 = boundary_offset + 3 * boundary.len() as u32;
    Ok(PreparedBorder { descriptor, data, texel_len, boundary, grid })
}

/// A border can be prepared: the boundary is certified and all offsets fit.
pub open spec fn border_fits(outline: GlyphOutline, units_per_em: F32, ppem: F32) -> bool {
    let curves = quantized_curves(outline.curves@);
    let bounds = points_box(curves, curves.len());
    &&& 2 * curves.len() <= MAX_OFFSET
    &&& border_boundary(outline.curves@, units_per_em, ppem) is Some
    &&& winding_fits(curves, bounds)
}

/// A blob is the border of an outline.
pub open spec fn is_border_of(
    b: PreparedBorder,
    outline: GlyphOutline,
    fill_offset: u32,
    units_per_em: F32,
    ppem: F32,
    radius_units: F32,
) -> bool {
    let curves = quantized_curves(outline.curves@);
    &&& Some(b.boundary@) == border_boundary(outline.curves@, units_per_em, ppem)
    &&& is_assembled(
        b,
        curves,
        points_box(curves, curves.len()),
        fill_offset,
        units_per_em,
        ceiling_for(ppem),
        floored_radius(radius_units, units_per_em, ppem),
    )
}

/// Prepare and pack the CPU border blob.
///
/// `ppem` sizes the boundary approximation's error budget; `radius_units`
/// sizes the distance grid. They are independent capacities: deriving the unit
/// radius from a pixel radius at one size under-provisions every smaller size
/// the same glyph is drawn at.
pub fn prepare_border(outline: &GlyphOutline, fill_offset: u32, units_per_em: F32, ppem: F32, radius_units: F32) -> (r: Result<
    PreparedBorder,
    PrepareError,
>)
    requires
        curves_in_range(outline.curves@),
    ensures
        r is Ok <==> border_fits(*outline, units_per_em, ppem),
        r is Err ==> r == Err::<PreparedBorder, PrepareError>(PrepareError::AtlasFull),
        r matches Ok(b) ==> is_border_of(b, *outline, fill_offset, units_per_em, ppem, radius_units),
{
    let safe: F32 = ppem.max(F32 { bits: MIN_POSITIVE_BITS });
    let ppem_ceiling: F32 = safe.times(F32 { bits: TWO_BITS }).next_power_of_two();
    let radius: F32 = radius_units.max(units_per_em.over(safe));
    let quantized: GlyphOutline = quantized_outline(outline);
    let n: usize = quantized.curves.len();
    // Curve locations are every other texel, so a large-enough curve count alone
    // overflows the 16-bit offsets; reject before the expensive boundary pass.
    if n > 32767 {
        return Err(PrepareError::AtlasFull);
    }
    proof {
        lemma_quantized_on_grid(outline.curves@);
        law_quantized_outline_is_stable(outline.curves@);
        assert forall|i: int| 0 <= i < quantized.curves@.len() implies curve_in_range(#[trigger] quantized.curves@[i]) by {
            assert(crate::border::boundary::curve_on_grid(quantized.curves@[i]));
        }
    }
    let certified: Vec<BoundaryPiece> = match extract_boundary(&quantized, ppem_ceiling, units_per_em) {
        Ok(pieces) => pieces,
        Err(_) => {
            return Err(PrepareError::AtlasFull);
        },
    };
    let boundary: Vec<BoundaryPiece> = match refine_boundary(&certified, ppem_ceiling, units_per_em) {
        Ok(pieces) => pieces,
        Err(_) => {
            return Err(PrepareError::AtlasFull);
        },
    };
    assemble_border(&quantized, boundary, fill_offset, units_per_em, ppem_ceiling, radius)
}

/// The pattern of a ceiling: a power of two, at least twice the size.
proof fn lemma_ceiling_pattern(ppem: F32)
    ensures
        ({
            let safe = safe_ppem(ppem).unsigned();
            let c = ceiling_for(ppem);
            &&& 0x80_0000 <= safe <= INFINITY_BITS
            &&& !c.negative()
            &&& c.unsigned() % 0x80_0000 == 0
            &&& 0x100_0000 <= c.unsigned() <= INFINITY_BITS
            &&& c.unsigned() >= safe + 0x80_0000 || c.unsigned() == INFINITY_BITS
        }),
{
    let safe = safe_ppem(ppem);
    assert(!safe.negative());
    lemma_times_two(safe);
}

/// A border serves the size that it is built for.
pub proof fn law_ceiling_covers_its_size(ppem: F32)
    requires
        !ppem.nan(),
    ensures
        f_le(ppem, ceiling_for(ppem)),
{
    lemma_ceiling_pattern(ppem);
}

/// Half of a ceiling reproduces the ceiling, so building again for it does not
/// double it.
pub proof fn law_half_the_ceiling_reproduces_it(ppem: F32)
    requires
        ceiling_for(ppem).finite(),
    ensures
        ceiling_for(f_div(ceiling_for(ppem), lit(TWO_BITS))) == ceiling_for(ppem),
{
    let c = ceiling_for(ppem);
    lemma_ceiling_pattern(ppem);
    lemma_over_two(c);
    let half = f_div(c, lit(TWO_BITS));
    assert(safe_ppem(half) == half);
    lemma_times_two(half);
    assert(f_mul(half, lit(TWO_BITS)) == c);
}

/// Building a border again never lowers its ceiling.
pub proof fn law_ceilings_never_shrink(built: F32, ppem: F32)
    requires
        ceiling_for(built).finite(),
    ensures
        f_le(ceiling_for(built), ceiling_for(f_max(ppem, f_div(ceiling_for(built), lit(TWO_BITS))))),
{
    let c = ceiling_for(built);
    lemma_ceiling_pattern(built);
    lemma_over_two(c);
    let half = f_div(c, lit(TWO_BITS));
    let next = f_max(ppem, half);
    lemma_ceiling_pattern(next);
    assert(safe_ppem(next).unsigned() >= half.unsigned());
}

/// A border answers distance queries up to the radius that it is built for.
pub proof fn law_grid_covers_its_radius(
    b: PreparedBorder,
    outline: GlyphOutline,
    fill_offset: u32,
    units_per_em: F32,
    ppem: F32,
    radius_units: F32,
)
    requires
        is_border_of(b, outline, fill_offset, units_per_em, ppem, radius_units),
        !radius_units.nan(),
        units_per_em.finite(),
        !units_per_em.negative(),
    ensures
        f_le(radius_units, b.descriptor.grid_radius_units),
{
    let radius = floored_radius(radius_units, units_per_em, ppem);
    let curves = quantized_curves(outline.curves@);
    let bounds = points_box(curves, curves.len());
    lemma_floor(radius_units, f_div(units_per_em, safe_ppem(ppem)));
    law_grids_hold_their_radii(b.grid, b.boundary@, bounds, radius, units_per_em);
}

proof fn lemma_floor(a: F32, b: F32)
    requires
        !a.nan(),
    ensures
        !f_max(a, b).nan(),
        f_le(a, f_max(a, b)),
        f_le(f_max(a, b), F32 { bits: INFINITY_BITS }),
{
}

}
