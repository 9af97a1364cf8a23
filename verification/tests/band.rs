//! Band construction.
use sluggrs_skylines::band::{build_bands, build_bands_impl, build_border_bands, count_elements, encode_offset, quantize_i16, quantize_i32, BandScratch, CurveLocation};
use sluggrs_skylines::float32::F32;
use sluggrs_skylines::outline::{GlyphOutline, QuadCurve};
use sluggrs_skylines::prep::{prepare_mono, PrepScratch};

fn float(x: f32) -> F32 {
    F32 { bits: x.to_bits() }
}

fn native(x: F32) -> f32 {
    f32::from_bits(x.bits)
}

fn quad(p1: [f32; 2], p2: [f32; 2], p3: [f32; 2]) -> QuadCurve {
    QuadCurve { p1: p1.map(float), p2: p2.map(float), p3: p3.map(float) }
}

fn make_outline(curves: Vec<QuadCurve>) -> GlyphOutline {
    let mut min = [f32::MAX; 2];
    let mut max = [f32::MIN; 2];
    for c in &curves {
        for p in [c.p1, c.p2, c.p3] {
            min[0] = min[0].min(native(p[0]));
            min[1] = min[1].min(native(p[1]));
            max[0] = max[0].max(native(p[0]));
            max[1] = max[1].max(native(p[1]));
        }
    }
    GlyphOutline { curves, bounds: [min[0], min[1], max[0], max[1]].map(float) }
}

fn sequential_locations(n: usize) -> Vec<CurveLocation> {
    (0..n).map(|i| CurveLocation { offset: i as u32 * 2 }).collect()
}

#[test]
fn degenerate_glyph_zero_size() {
    // A glyph with zero width/height (all points at same location)
    let outline = make_outline(vec![quad([50.0, 50.0], [50.0, 50.0], [50.0, 50.0])]);
    let locs = sequential_locations(1);
    let data = build_bands(
        &outline,
        &locs,
        4,
        4,
        Vec::new(),
        &mut BandScratch::default(),
    );

    // Should not panic, should produce valid band data
    assert!(!data.entries.is_empty());
    assert!(data.band_transform[0].is_finite());
    assert!(data.band_transform[1].is_finite());
}

#[test]
fn single_curve_appears_in_all_1x1_bands() {
    let outline = make_outline(vec![quad([0.0, 0.0], [50.0, 100.0], [100.0, 0.0])]);
    let locs = sequential_locations(1);
    let data = build_bands(
        &outline,
        &locs,
        1,
        1,
        Vec::new(),
        &mut BandScratch::default(),
    );

    // 2 band headers (h + v) * 4 u32 each = 8
    // 1 curve * 2 bands * 2 lists (desc+asc) * 4 u32 each = 16
    assert_eq!(data.entries.len(), 24);
    // h-band should have count=1
    assert_eq!(data.entries[0], 1);
    // v-band should have count=1
    assert_eq!(data.entries[4], 1);
}

#[test]
fn curve_in_correct_horizontal_band() {
    // Two curves: one in bottom half, one in top half
    let outline = make_outline(vec![
        quad([0.0, 0.0], [50.0, 20.0], [100.0, 0.0]),
        quad([0.0, 80.0], [50.0, 100.0], [100.0, 80.0]),
    ]);
    let locs = sequential_locations(2);
    let data = build_bands(
        &outline,
        &locs,
        1,
        2,
        Vec::new(),
        &mut BandScratch::default(),
    );

    // 3 band headers (2 hbands + 1 vband) * 4 u32 = 12
    // h-band 0 (bottom) should contain curve 0
    // h-band 1 (top) should contain curve 1
    let hband0_count = data.entries[0];
    let hband1_count = data.entries[4];
    assert!(
        hband0_count >= 1,
        "bottom h-band should contain bottom curve"
    );
    assert!(hband1_count >= 1, "top h-band should contain top curve");
}

#[test]
fn band_transform_maps_bounds_to_band_range() {
    let outline = make_outline(vec![quad([10.0, 20.0], [50.0, 80.0], [90.0, 20.0])]);
    let locs = sequential_locations(1);
    let data = build_bands(
        &outline,
        &locs,
        4,
        4,
        Vec::new(),
        &mut BandScratch::default(),
    );

    let [scale_x, scale_y, offset_x, offset_y] = data.band_transform.map(native);

    // min_x mapped should give 0, max_x mapped should give band_count_x
    let mapped_min_x = native(outline.bounds[0]) * scale_x + offset_x;
    let mapped_max_x = native(outline.bounds[2]) * scale_x + offset_x;
    assert!(
        (mapped_min_x).abs() < 1e-4,
        "min_x should map to ~0, got {mapped_min_x}"
    );
    assert!(
        (mapped_max_x - 4.0).abs() < 1e-4,
        "max_x should map to ~4, got {mapped_max_x}"
    );

    let mapped_min_y = native(outline.bounds[1]) * scale_y + offset_y;
    let mapped_max_y = native(outline.bounds[3]) * scale_y + offset_y;
    assert!(
        (mapped_min_y).abs() < 1e-4,
        "min_y should map to ~0, got {mapped_min_y}"
    );
    assert!(
        (mapped_max_y - 4.0).abs() < 1e-4,
        "max_y should map to ~4, got {mapped_max_y}"
    );
}

#[test]
fn wide_curve_spans_multiple_vertical_bands() {
    // A curve spanning the full width should appear in all vertical bands
    let outline = make_outline(vec![quad([0.0, 0.0], [50.0, 50.0], [100.0, 0.0])]);
    let locs = sequential_locations(1);
    let data = build_bands(
        &outline,
        &locs,
        4,
        1,
        Vec::new(),
        &mut BandScratch::default(),
    );

    // 1 h-band header + 4 v-band headers = 5 * 4 = 20 u32s
    // The curve appears in hband (1 ref * 2 lists) + all 4 vbands (4 refs * 2 lists)
    // = 10 refs * 4 u32 = 40
    let total_expected = 20 + 40;
    assert_eq!(data.entries.len(), total_expected);
}

#[test]
fn entries_are_aligned_to_uint4() {
    // Every entry in the band data should be a multiple of 4 u32s
    let outline = make_outline(vec![
        quad([0.0, 0.0], [25.0, 50.0], [50.0, 0.0]),
        quad([50.0, 50.0], [75.0, 100.0], [100.0, 50.0]),
    ]);
    let locs = sequential_locations(2);
    let data = build_bands(
        &outline,
        &locs,
        3,
        3,
        Vec::new(),
        &mut BandScratch::default(),
    );
    assert_eq!(data.entries.len() % 4, 0, "entries must be uint4-aligned");
}

#[test]
fn curve_refs_encode_quantized_bounds_and_break_keys() {
    let outline = make_outline(vec![quad([0.13, 1.11], [2.37, 3.62], [-1.26, 2.88])]);
    let data = build_bands(
        &outline,
        &sequential_locations(1),
        1,
        1,
        Vec::new(),
        &mut BandScratch::default(),
    );

    // Two headers occupy eight lanes; the four refs follow in h-desc,
    // h-asc, v-desc, v-asc order. The curve data begins at texel 6.
    assert_eq!(&data.entries[8..12], &[6, 4, 14, 9]);
    assert_eq!(&data.entries[12..16], &[6, 4, 14, -5]);
    assert_eq!(&data.entries[16..20], &[6, -5, 9, 14]);
    assert_eq!(&data.entries[20..24], &[6, -5, 9, 4]);
}

#[test]
fn continuation_curve_refs_include_shared_point_in_bounds() {
    let outline = make_outline(vec![
        quad([-1.2, 2.4], [0.3, 3.7], [1.1, 4.6]),
        quad([1.1, 4.6], [2.2, 5.5], [3.3, 6.6]),
    ]);
    let mut scratch = PrepScratch::default();
    let prepared = prepare_mono(&outline, 1, 1, float(10.0), &mut scratch)
        .expect("continuation outline must fit the packed representation");

    let unpack = |packed: i32| {
        let packed = packed as u32;
        [(packed as u16) as i16, ((packed >> 16) as u16) as i16]
    };
    let read_texel = |texel: usize| {
        let lo = unpack(prepared.blob_data[texel * 2]);
        let hi = unpack(prepared.blob_data[texel * 2 + 1]);
        [lo[0], lo[1], hi[0], hi[1]]
    };

    // A 1x1 glyph with two curves has two headers and eight refs. The
    // remaining three texels are the deduplicated curve payload.
    let band_element_count = prepared.blob_size as usize - 3;
    assert_eq!(band_element_count, 10);
    let refs: Vec<_> = (0..8).map(|index| read_texel(2 + index)).collect();
    let mut offsets: Vec<_> = refs.iter().map(|entry| entry[0] as usize).collect();
    offsets.sort_unstable();
    offsets.dedup();
    assert_eq!(offsets, vec![band_element_count, band_element_count + 1]);
    assert_eq!(
        offsets[0] + 1,
        offsets[1],
        "continuation must share a curve texel"
    );

    for (index, reference) in refs.iter().enumerate() {
        let texel0 = read_texel(reference[0] as usize);
        let texel1 = read_texel(reference[0] as usize + 1);
        let points = [
            [texel0[0], texel0[1]],
            [texel0[2], texel0[3]],
            [texel1[0], texel1[1]],
        ];
        let min_x = points[0][0].min(points[1][0]).min(points[2][0]);
        let max_x = points[0][0].max(points[1][0]).max(points[2][0]);
        let min_y = points[0][1].min(points[1][1]).min(points[2][1]);
        let max_y = points[0][1].max(points[1][1]).max(points[2][1]);

        match index / 2 {
            0 => assert_eq!(reference[1..], [min_y, max_y, max_x]),
            1 => assert_eq!(reference[1..], [min_y, max_y, min_x]),
            2 => assert_eq!(reference[1..], [min_x, max_x, max_y]),
            3 => assert_eq!(reference[1..], [min_x, max_x, min_y]),
            _ => unreachable!(),
        }
    }
}

#[test]
fn curve_ref_bounds_match_wrapped_curve_texels() {
    let outline = make_outline(vec![quad([8191.8, 0.1], [8192.2, 1.1], [-8192.2, 2.1])]);
    let data = build_bands(
        &outline,
        &sequential_locations(1),
        1,
        1,
        Vec::new(),
        &mut BandScratch::default(),
    );

    // The x values quantize then wrap to (32767, -32767, 32767).
    assert_eq!(&data.entries[8..12], &[6, 0, 8, 32767]);
    assert_eq!(&data.entries[12..16], &[6, 0, 8, -32767]);
    assert_eq!(&data.entries[16..20], &[6, -32767, 32767, 8]);
    assert_eq!(&data.entries[20..24], &[6, -32767, 32767, 0]);
}

#[test]
fn offsets_wrap_into_a_signed_lane() {
    assert_eq!(encode_offset(6), 6);
    assert_eq!(encode_offset(0x8000), -0x8000);
    assert_eq!(encode_offset(0xffff), -1);
}

#[test]
fn coordinates_are_rounded_to_quarter_units() {
    assert_eq!(quantize_i32(float(1.11)), 4);
    assert_eq!(quantize_i32(float(-0.125)), -1);
    assert_eq!(quantize_i32(float(f32::NAN)), 0);
    assert_eq!(quantize_i32(float(f32::INFINITY)), i32::MAX);
    assert_eq!(quantize_i16(float(8192.2)), -32767);
}

#[test]
fn a_curve_on_an_upper_edge_is_in_both_border_bands() {
    let outline = make_outline(vec![
        quad([0.0, 0.0], [0.0, 0.0], [10.0, 50.0]),
        quad([10.0, 50.0], [10.0, 50.0], [0.0, 100.0]),
    ]);
    let locs = sequential_locations(2);
    let fill = build_bands(&outline, &locs, 1, 2, Vec::new(), &mut BandScratch::default());
    let border = build_border_bands(&outline, &locs, 1, 2, Vec::new(), &mut BandScratch::default());
    assert_eq!((fill.entries[0], fill.entries[4]), (1, 1));
    assert_eq!((border.entries[0], border.entries[4]), (1, 2));
}

#[test]
fn elements_are_counted_before_they_are_built() {
    let outline = make_outline(vec![
        quad([0.0, 0.0], [50.0, 120.0], [100.0, 0.0]),
        quad([100.0, 0.0], [100.0, 0.0], [0.0, 0.0]),
        quad([20.0, 20.0], [20.0, 30.0], [20.0, 90.0]),
    ]);
    for (x, y) in [(1, 1), (3, 4), (16, 16)] {
        let bands =
            build_bands_impl(&outline, &sequential_locations(3), x, y, Vec::new(), &mut BandScratch::default(), false);
        assert_eq!(count_elements(&outline, x, y), bands.entries.len() as u128 / 4);
    }
    assert_eq!(count_elements(&make_outline(vec![]), 5, 7), 12);
}
