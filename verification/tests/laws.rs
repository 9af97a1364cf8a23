//! Laws of the library on chosen values.
use sluggrs_skylines::band::{build_bands, build_border_bands, BandScratch, CurveLocation};
use sluggrs_skylines::border::boundary::outline_in_range;
use sluggrs_skylines::border::boundary::coincident_params;
use sluggrs_skylines::border::certify::BoundaryPiece;
use sluggrs_skylines::border::curve::{eval, split, winding_at};
use sluggrs_skylines::border::extract::{extract_boundary, find_arcs};
use sluggrs_skylines::border::grid::{build_distance_grid, radius_bucket, GridCandidates};
use sluggrs_skylines::border::prepare::{border_band_offsets_fit, prepare_border};
use sluggrs_skylines::border::rational::{exact_subspan, gcd, invert_params, rationalize, GridCurve, Rat};
use sluggrs_skylines::float32::F32;
use sluggrs_skylines::outline::{GlyphOutline, QuadCurve};
use sluggrs_skylines::packing::{pack_i16_pair, unpack_i16_pair};
use sluggrs_skylines::text_atlas::planned_buffer_capacity;
use sluggrs_skylines::text_renderer::plan::area_key;

fn float(x: f32) -> F32 {
    F32 { bits: x.to_bits() }
}

fn native(x: F32) -> f32 {
    f32::from_bits(x.bits)
}

fn quad(p1: [f32; 2], p2: [f32; 2], p3: [f32; 2]) -> QuadCurve {
    QuadCurve { p1: p1.map(float), p2: p2.map(float), p3: p3.map(float) }
}

fn line(a: [f32; 2], b: [f32; 2]) -> QuadCurve {
    quad(a, a, b)
}

fn outline(curves: Vec<QuadCurve>) -> GlyphOutline {
    GlyphOutline { curves, bounds: [0.0, 0.0, 100.0, 100.0].map(float) }
}

/// A triangle that overlaps itself on a line.
fn contour() -> Vec<QuadCurve> {
    vec![
        line([0.0, 0.0], [40.0, 0.0]),
        line([40.0, 0.0], [20.0, 0.0]),
        line([20.0, 0.0], [60.0, 0.0]),
        line([60.0, 0.0], [30.0, 50.0]),
        line([30.0, 50.0], [0.0, 0.0]),
    ]
}

#[test]
fn contours_that_run_both_ways_leave_nothing() {
    let mut curves = contour();
    let back: Vec<QuadCurve> =
        curves.iter().map(|c| QuadCurve { p1: c.p3, p2: c.p3, p3: c.p1 }).collect();
    curves.extend(back);
    let pieces = extract_boundary(&outline(curves), float(64.0), float(100.0)).expect("certified");
    assert!(pieces.is_empty());
}

#[test]
fn pieces_name_their_curves() {
    let curves = contour();
    let n = curves.len() as u32;
    let pieces = extract_boundary(&outline(curves), float(64.0), float(100.0)).expect("certified");
    assert!(!pieces.is_empty());
    assert!(pieces.iter().all(|p| p.source_curve < n));
}

#[test]
fn half_a_ceiling_reproduces_it() {
    let build = |ppem: f32| {
        let square = vec![
            line([0.0, 0.0], [50.0, 0.0]),
            line([50.0, 0.0], [50.0, 50.0]),
            line([50.0, 50.0], [0.0, 50.0]),
            line([0.0, 50.0], [0.0, 0.0]),
        ];
        native(
            prepare_border(&outline(square), 0, float(100.0), float(ppem), float(10.0))
                .expect("fits")
                .descriptor
                .ppem_ceiling,
        )
    };
    for ppem in [7.0f32, 12.0, 16.0, 33.3] {
        let ceiling = build(ppem);
        assert!(ceiling >= 2.0 * ppem);
        assert_eq!(build(ceiling / 2.0), ceiling);
        assert!(build((ceiling / 2.0).max(100.0)) >= ceiling);
    }
}

#[test]
fn buckets_hold_their_radii() {
    for upem in [1000.0f32, 2048.0, 16.0, 1.0] {
        for i in 1..400 {
            let radius = upem * i as f32 / 400.0;
            for radius in [radius, f32::from_bits(radius.to_bits() + 1), f32::from_bits(radius.to_bits() - 1)] {
                if let Some(bucket) = radius_bucket(float(radius), float(upem)) {
                    assert!(native(bucket) >= radius, "{radius} of {upem}");
                }
            }
        }
    }
}

#[test]
fn a_split_line_is_crossed_as_often_as_the_whole() {
    for y in -2..14 {
        for x in [-1.0f32, 4.0, 8.0] {
            let p = [float(x), float(y as f32)];
            for (a, b) in [(0.0f32, 10.0f32), (10.0, 0.0)] {
                let whole = [line([4.0, a], [4.0, b])];
                let parts = [line([4.0, a], [4.0, 5.0]), line([4.0, 5.0], [4.0, b])];
                assert_eq!(winding_at(&whole, p), winding_at(&parts, p));
            }
        }
    }
}

#[test]
fn fractions_have_one_reduced_form() {
    assert_eq!(Rat::new(6, -4), Rat { n: -3, d: 2 });
    assert_eq!(Rat::new(-6, 4), Rat::new(3, -2));
    assert_eq!(Rat::new(0, 7), Rat { n: 0, d: 1 });
    assert_eq!(native(Rat::new(1, 4).to_f32()), 0.25);
    assert!(Rat::new(1, 3).lt(Rat::new(1, 2)));
    assert_eq!(gcd(12, 18), 6);
    assert_eq!(rationalize(float(0.75)), Some((3, 4)));
    assert_eq!(rationalize(float(0.0)), Some((0, 1)));
}

#[test]
fn coincident_arcs_find_each_other() {
    let parent = quad([0.0, 0.0], [8.0, 16.0], [16.0, 0.0]);
    let quarter = quad([4.0, 6.0], [2.0, 4.0], [0.0, 0.0]);
    let arcs = find_arcs(&vec![quarter, parent]);
    assert_eq!((arcs[0].len(), arcs[1].len()), (1, 1));
    assert_eq!((arcs[0][0].other, arcs[1][0].other), (1, 0));
    assert_eq!((arcs[0][0].orientation, arcs[1][0].orientation), (-1, -1));
    assert_eq!((arcs[1][0].lo, arcs[1][0].hi), (Rat { n: 0, d: 1 }, Rat { n: 1, d: 4 }));
    assert_eq!((arcs[0][0].lo, arcs[0][0].hi), (Rat { n: 0, d: 1 }, Rat { n: 1, d: 1 }));
}

#[test]
fn packed_pairs_come_back() {
    for (a, b) in [(0i16, 0i16), (1, -1), (-1, 1), (i16::MIN, i16::MAX), (12345, -12345)] {
        assert_eq!(unpack_i16_pair(pack_i16_pair(a, b)), (a, b));
    }
    assert_eq!(pack_i16_pair(12, 255) as u32, 12 | (255 << 16));
    for word in [0i32, -1, i32::MIN, i32::MAX, 0x1234_5678] {
        let (low, high) = unpack_i16_pair(word);
        assert_eq!(pack_i16_pair(low, high), word);
    }
}

#[test]
fn plans_grow_with_what_is_required() {
    let mut last = 0;
    for required in (0..5000).step_by(7) {
        let plan = planned_buffer_capacity(128, required, 4500);
        match plan {
            Ok(capacity) => {
                assert!(capacity >= required && capacity >= last && capacity <= 4500);
                last = capacity;
            }
            Err(_) => assert!(required > 4500),
        }
    }
}

#[test]
fn areas_have_identities() {
    assert_eq!(area_key(7, 0), 7);
    assert_eq!(area_key(7, 2), 7 + (2 << 64));
    assert_ne!(area_key(u64::MAX, 0), area_key(0, 1));
}

#[test]
fn a_band_is_split_where_it_costs_least() {
    // Two clusters of curves: a split between them halves the work of either side.
    let mut curves = Vec::new();
    for i in 0..4 {
        let x = if i < 2 { 0.0 } else { 900.0 };
        curves.push(quad([x, 0.0], [x + 20.0, 50.0], [x + 40.0, 100.0]));
    }
    let o = GlyphOutline { curves, bounds: [0.0, 0.0, 940.0, 100.0].map(float) };
    let locations: Vec<CurveLocation> = (0..4).map(|i| CurveLocation { offset: 2 * i }).collect();
    let data = build_bands(&o, &locations, 1, 1, Vec::new(), &mut BandScratch::default());
    assert_eq!(data.entries[0], 4, "all four curves are in the horizontal band");
    assert_eq!(data.entries.len(), 2 * 4 + 4 * 4 * 4);
}

#[test]
fn far_coordinates_are_told() {
    assert!(outline_in_range(&outline(contour())));
    assert!(!outline_in_range(&outline(vec![line([0.0, 0.0], [1.0e9, 0.0])])));
    assert!(!outline_in_range(&outline(vec![line([0.0, f32::NAN], [1.0, 0.0])])));
}

#[test]
fn large_fractions_are_reduced() {
    let big = 1i128 << 100;
    assert_eq!(Rat::new(big * 6, big * -4), Rat { n: -3, d: 2 });
    assert_eq!(Rat::new(i128::MAX, i128::MAX), Rat { n: 1, d: 1 });
    assert_eq!(Rat::new(0, -i128::MAX), Rat { n: 0, d: 1 });
    assert_eq!(Rat::new(-5, -10), Rat { n: 1, d: 2 });
    for (n, d) in [(i128::MAX, 3), (i128::MIN + 1, 7), (big + 1, big - 1), ((1 << 124) + 9, -((1 << 90) + 1)), (1, i128::MAX)] {
        let r = Rat::new(n, d);
        assert_eq!(native(r.to_f32()), (r.n as f64 / r.d as f64) as f32);
    }
    let (low, high) = invert_params((i64::MIN, i64::MAX, i64::MAX));
    assert_eq!(low, Rat { n: 1i128 << 63, d: (1i128 << 64) - 1 });
    assert_eq!(high, Rat { n: 1, d: 1 });
}

#[test]
fn candidates_up_to_the_grid_are_compared_exactly() {
    let base = GridCurve { p1: [0, 0], p2: [8, 16], p3: [16, 0] };
    assert_eq!(exact_subspan(&base, &base, (0, 1), (1, 1)), Some((0, 1, 1)));
    let half = GridCurve { p1: [0, 0], p2: [4, 8], p3: [8, 8] };
    assert_eq!(exact_subspan(&base, &half, (0, 1), (1, 2)), Some((0, 1, 2)));
    assert_eq!(exact_subspan(&base, &half, (0, 1), (1, 3)), None);
    // Products beyond 64 bits are no match.
    assert_eq!(exact_subspan(&base, &base, (0, i64::MAX), (2, 2)), None);
    let parent = quad([0.0, 0.0], [8.0, 16.0], [16.0, 0.0]);
    let beyond = quad([0.0, 0.0], [16.0, 32.0], [32.0, -64.0]);
    // The second curve runs on to the parameter 2 of the first.
    assert_eq!(coincident_params(&parent, &beyond), Some((0, 2, 1)));
}

#[test]
fn band_offsets_are_tried_for_any_count() {
    assert!(border_band_offsets_fit(&outline(vec![]), 32_767));
    assert!(!border_band_offsets_fit(&outline(vec![]), 32_768));
    assert!(!border_band_offsets_fit(&outline(vec![]), u32::MAX));
    assert!(border_band_offsets_fit(&outline(contour()), 8));
}

#[test]
fn scratch_does_not_show() {
    let glyph = outline(contour());
    let locations: Vec<CurveLocation> = (0..5).map(|i| CurveLocation { offset: 2 * i }).collect();
    let mut scratch = BandScratch::default();
    let first = build_bands(&glyph, &locations, 4, 4, Vec::new(), &mut scratch);
    let other = outline(vec![line([3.0, 4.0], [90.0, 80.0])]);
    build_border_bands(&other, &locations, 2, 7, vec![1, 2, 3], &mut scratch);
    let again = build_bands(&glyph, &locations, 4, 4, vec![9; 500], &mut scratch);
    assert_eq!(again.entries, first.entries);
    assert_eq!(again.band_transform.map(native), first.band_transform.map(native));
}

#[test]
fn packed_lists_name_the_same_curves_in_order() {
    let glyph = outline(vec![
        quad([0.0, 0.0], [50.0, 100.0], [100.0, 0.0]),
        line([100.0, 0.0], [10.0, 90.0]),
        line([10.0, 90.0], [30.0, 90.0]),
        quad([30.0, 90.0], [-20.0, 40.0], [0.0, 0.0]),
    ]);
    let locations: Vec<CurveLocation> = (0..4).map(|i| CurveLocation { offset: 2 * i }).collect();
    let bands = build_border_bands(&glyph, &locations, 3, 4, Vec::new(), &mut BandScratch::default());
    let texel = |i: usize| &bands.entries[4 * i..4 * i + 4];
    let mut flat = 0;
    for band in 0..7 {
        let (count, desc, asc) = (texel(band)[0] as usize, texel(band)[1] as usize, texel(band)[2] as usize);
        assert_eq!(asc, desc + count);
        let list = |start: usize, lane: usize| (start..start + count).map(|i| texel(i)[lane]).collect::<Vec<_>>();
        let (mut a, mut b) = (list(desc, 0), list(asc, 0));
        a.sort_unstable();
        b.sort_unstable();
        assert_eq!(a, b);
        a.dedup();
        assert_eq!(a.len(), count, "no curve is listed twice");
        assert!(list(desc, 3).windows(2).all(|w| w[0] >= w[1]));
        assert!(list(asc, 3).windows(2).all(|w| w[0] <= w[1]));
        // The third curve is flat along y.
        let elements = bands.entries.len() as i16 / 4;
        if band < 4 && a.contains(&(4 + elements)) {
            flat += 1;
        }
    }
    assert_eq!(flat, 0);
}

#[test]
fn curves_are_listed_from_their_first_band_to_their_last() {
    let glyph = outline(vec![line([0.0, 0.0], [100.0, 50.0])]);
    let bands =
        build_border_bands(&glyph, &[CurveLocation { offset: 0 }], 1, 4, Vec::new(), &mut BandScratch::default());
    // The bands are 25 units high and the curve ends on the edge of the third.
    let counts: Vec<i16> = (0..4).map(|band| bands.entries[4 * band]).collect();
    assert_eq!(counts, [1, 1, 1, 0]);
}

#[test]
fn halves_join_turn_around_and_stay_inside() {
    let c = quad([1.0, -3.5], [7.25, 19.0], [-4.0, 2.125]);
    let backwards = QuadCurve { p1: c.p3, p2: c.p2, p3: c.p1 };
    let (a, b) = split(&c);
    let (x, y) = split(&backwards);
    assert_eq!((a.p1, a.p3, b.p3), (c.p1, b.p1, c.p3));
    assert_eq!((x.p1, x.p2, x.p3), (b.p3, b.p2, b.p1));
    assert_eq!((y.p1, y.p2, y.p3), (a.p3, a.p2, a.p1));
    for half in [a, b] {
        for axis in 0..2 {
            assert!(native(half.axis_min(axis)) >= native(c.axis_min(axis)));
            assert!(native(half.axis_max(axis)) <= native(c.axis_max(axis)));
        }
    }
    assert_eq!(a.p2.map(native), [4.125, 7.75]);
}

#[test]
fn nearby_pieces_are_candidates() {
    let curve = quad([0.0, 0.0], [40.0, 100.0], [90.0, 10.0]);
    let pieces = vec![
        BoundaryPiece { curve, source_curve: 0, t0: float(0.0), t1: float(1.0) },
        BoundaryPiece { curve: line([95.0, 95.0], [100.0, 100.0]), source_curve: 1, t0: float(0.0), t1: float(1.0) },
    ];
    let grid = build_distance_grid(&pieces, [0.0, 0.0, 100.0, 100.0].map(float), float(5.0), float(100.0));
    let mut left_out = 0;
    for k in 0..=64 {
        let at = eval(&curve, float(k as f32 / 64.0)).map(native);
        for (dx, dy) in [(0.0, 0.0), (3.0, 4.0), (-4.0, 3.0)] {
            match grid.candidates_at([at[0] + dx, at[1] + dy].map(float), 2) {
                GridCandidates::Slice(s) => {
                    assert!(s.contains(&0));
                    left_out += usize::from(!s.contains(&1));
                }
                GridCandidates::All(range) => assert_eq!((range.start, range.end), (0, 2)),
            }
        }
    }
    assert!(left_out > 0, "far pieces are left out");
}

#[test]
fn a_lookup_errs_by_rounding_only() {
    // Rounding puts this point into the cell to its right.
    let (low, high, at) = (16.966032f32, 93.466034f32, 55.21603f32);
    let near = |x: f32| BoundaryPiece {
        curve: quad([x, 50.0], [x, 50.0], [x, 50.0]),
        source_curve: 0,
        t0: float(0.0),
        t1: float(1.0),
    };
    let grid_with = |x: f32| {
        build_distance_grid(&[near(x), near(90.0)], [low, low, high, high].map(float), float(0.25), float(16.0))
    };
    let found = |x: f32| match grid_with(x).candidates_at([at, 50.0].map(float), 2) {
        GridCandidates::Slice(s) => s.contains(&0),
        GridCandidates::All(_) => panic!("the grid excludes a piece"),
    };
    assert_eq!(native(grid_with(at).radius), 0.25);
    assert!(!found(at - 0.25));
    let reach = (low + high + (high - low)) / 1_048_576.0;
    assert!(found(at - 0.25 + reach));
    assert!(found(at));
    assert!(found(at + 0.25 - reach));
}
