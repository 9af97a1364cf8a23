//! Border preparation.
use sluggrs_skylines::band::{build_border_bands, BandScratch, CurveLocation};
use sluggrs_skylines::border::boundary::{coincident_params, quantized_outline};
use sluggrs_skylines::border::certify::BoundaryPiece;
use sluggrs_skylines::border::curve::{eval, split, winding_at};
use sluggrs_skylines::border::extract::extract_boundary;
use sluggrs_skylines::border::grid::{build_distance_grid, radius_bucket, refine_boundary, GridCandidates};
use sluggrs_skylines::border::prepare::prepare_border;
use sluggrs_skylines::float32::F32;
use sluggrs_skylines::outline::{GlyphOutline, QuadCurve};
use sluggrs_skylines::PrepareError;

fn float(x: f32) -> F32 {
    F32 { bits: x.to_bits() }
}

fn native(x: F32) -> f32 {
    f32::from_bits(x.bits)
}

fn quad(p1: [f32; 2], p2: [f32; 2], p3: [f32; 2]) -> QuadCurve {
    QuadCurve { p1: p1.map(float), p2: p2.map(float), p3: p3.map(float) }
}

fn line(a: [f32; 2], b: [f32; 2]) -> QuadCurve {
    quad(a, a, b)
}

fn outline(curves: Vec<QuadCurve>) -> GlyphOutline {
    GlyphOutline { curves, bounds: [0.0, 0.0, 10.0, 10.0].map(float) }
}

fn square(clockwise: bool) -> Vec<QuadCurve> {
    let p = [[0., 0.], [10., 0.], [10., 10.], [0., 10.]];
    let mut out = Vec::new();
    for i in 0..4 {
        let (a, b) = if clockwise {
            (p[i], p[(i + 1) % 4])
        } else {
            (p[(i + 1) % 4], p[i])
        };
        out.push(line(a, b));
    }
    out
}
fn rectangle(min: [f32; 2], max: [f32; 2]) -> Vec<QuadCurve> {
    let p = [min, [max[0], min[1]], max, [min[0], max[1]]];
    (0..4).map(|i| line(p[i], p[(i + 1) % 4])).collect()
}
#[test]
fn opposite_coincident_contours_cancel() {
    let mut c = square(true);
    c.extend(square(false));
    assert!(
        extract_boundary(&outline(c), float(64.0), float(10.0))
            .expect("certification converges")
            .is_empty()
    );
}
#[test]
fn equally_oriented_trace_survives() {
    let mut c = square(true);
    c.extend(square(true));
    assert!(
        !extract_boundary(&outline(c), float(64.0), float(10.0))
            .expect("certification converges")
            .is_empty()
    );
}
#[test]
fn oppositely_oriented_trace_with_different_segmentation_cancels() {
    let curves = vec![
        line([0., 0.], [10., 0.]),
        line([10., 0.], [5., 0.]),
        line([5., 0.], [0., 0.]),
    ];
    assert!(
        extract_boundary(&outline(curves), float(64.0), float(10.0))
            .expect("certification converges")
            .is_empty()
    );
}
#[test]
fn oppositely_oriented_curved_trace_with_different_segmentation_cancels() {
    let arc = quad([0., 0.], [5., 8.], [10., 0.]);
    let (a, b) = split(&arc);
    let rev = |c: QuadCurve| QuadCurve {
        p1: c.p3,
        p2: c.p2,
        p3: c.p1,
    };
    let curves = vec![arc, rev(b), rev(a)];
    assert!(
        extract_boundary(&outline(curves), float(64.0), float(10.0))
            .expect("certification converges")
            .is_empty()
    );
}
#[test]
fn covered_span_keeps_only_exposed_parts() {
    let mut c = rectangle([0., 0.], [10., 10.]);
    c.extend(rectangle([8., 4.], [12., 6.]));
    let pieces = extract_boundary(&outline(c), float(128.0), float(10.0)).expect("certification converges");
    let right = pieces
        .iter()
        .filter(|p| p.source_curve == 1)
        .collect::<Vec<_>>();
    assert!(right.iter().any(|p| native(eval(&p.curve, float(0.5))[1]) < 3.0));
    assert!(!right.iter().any(|p| {
        let y = native(eval(&p.curve, float(0.5))[1]);
        (4.25..5.75).contains(&y)
    }));
}
#[test]
fn asymmetric_length_coincident_pair_cancels_symmetrically() {
    // Parent arc (0,0),(8,16),(16,0); its exact [0, 0.25] subcurve is
    // (0,0),(2,4),(4,6). The reversed quarter sits at the LOWER index,
    // so cancellation must be discovered from the whole curve's side
    // and still clear the quarter's own span table.
    let parent = quad([0., 0.], [8., 16.], [16., 0.]);
    let quarter_rev = quad([4., 6.], [2., 4.], [0., 0.]);
    let pieces = extract_boundary(
        &GlyphOutline {
            curves: vec![quarter_rev, parent],
            bounds: [0.0, 0.0, 16.0, 16.0].map(float),
        },
        float(64.0),
        float(10.0),
    )
    .expect("certification converges");
    assert!(!pieces.is_empty());
    assert!(!pieces.iter().any(|p| p.source_curve == 0));
    assert!(!pieces.iter().any(|p| native(eval(&p.curve, float(0.5))[0]) < 3.5));
}
#[test]
fn quantum_separated_opposite_segments_are_not_canceled() {
    let curves = vec![line([5., 0.], [5., 10.]), line([5.25, 10.], [5.25, 0.])];
    assert!(
        !extract_boundary(&outline(curves), float(64.0), float(10.0))
            .expect("certification converges")
            .is_empty()
    );
}
#[test]
fn quantum_separated_opposite_arcs_are_not_canceled() {
    let a = quad([0., 0.], [5., 8.], [10., 0.]);
    let b = quad([10., 0.25], [5., 8.25], [0., 0.25]);
    assert!(
        !extract_boundary(&outline(vec![a, b]), float(64.0), float(10.0))
            .expect("certification converges")
            .is_empty()
    );
}
#[test]
fn half_open_vertex_crossing_is_once() {
    let curves = [line([0., 0.], [0., 5.]), line([0., 5.], [0., 10.])];
    assert_eq!(winding_at(&curves, [-1., 5.].map(float)), 1);
}
#[test]
fn local_extremum_tangency_has_zero_winding() {
    let curves = vec![
        line([0., 0.], [1., 1.]),
        line([1., 1.], [0., 2.]),
        line([0., 2.], [-1., 1.]),
        line([-1., 1.], [0., 0.]),
    ];
    assert_eq!(winding_at(&curves, [-2., 0.].map(float)), 0);
}
#[test]
fn split_segment_winding_matches_unsplit_trace() {
    let unsplit = [line([4., 0.], [4., 10.])];
    let split = [line([4., 0.], [4., 5.]), line([4., 5.], [4., 10.])];
    for point in [[0., 2.], [0., 5.], [0., 8.], [8., 5.]] {
        assert_eq!(winding_at(&unsplit, point.map(float)), winding_at(&split, point.map(float)));
    }
}
#[test]
fn a_point_inside_a_split_edge_contour_has_winding() {
    let curves = vec![
        line([0., 0.], [10., 0.]),
        line([10., 0.], [10., 5.]),
        line([10., 5.], [10., 10.]),
        line([10., 10.], [0., 10.]),
        line([0., 10.], [0., 0.]),
    ];
    assert_ne!(winding_at(&curves, [5.0, 5.0].map(float)), 0);
    assert_eq!(winding_at(&curves, [15.0, 5.0].map(float)), 0);
}
#[test]
fn oversized_winding_offsets_are_rejected() {
    let curves = (0..32_769)
        .map(|i| line([i as f32, 0.], [i as f32, 1.]))
        .collect();
    assert_eq!(
        prepare_border(&outline(curves), 0, float(1000.0), float(16.0), float(1.5)).err(),
        Some(PrepareError::AtlasFull),
        "u16 offsets must not wrap"
    );
}
#[test]
fn corrected_band_includes_upper_boundary_endpoint() {
    let o = outline(vec![line([0., 0.], [1., 5.]), line([1., 5.], [2., 10.])]);
    let locations = [CurveLocation { offset: 0 }, CurveLocation { offset: 2 }];
    let bands = build_border_bands(
        &o,
        &locations,
        1,
        2,
        Vec::new(),
        &mut BandScratch::default(),
    );
    assert_eq!(bands.entries[0], 1);
    assert_eq!(bands.entries[4], 2);
}
#[test]
fn grid_bbox_candidates_are_conservative() {
    let pieces = vec![BoundaryPiece {
        curve: line([2., 2.], [8., 8.]),
        source_curve: 0,
        t0: float(0.0),
        t1: float(1.0),
    }];
    let g = build_distance_grid(&pieces, [0.0, 0.0, 10.0, 10.0].map(float), float(2.0), float(10.0));
    for y in 0..20 {
        for x in 0..20 {
            let p = [x as f32 * 0.5, y as f32 * 0.5];
            let near = (0..101).any(|i| {
                let q = eval(&pieces[0].curve, float(i as f32 / 100.)).map(native);
                (q[0] - p[0]).hypot(q[1] - p[1]) <= native(g.radius)
            });
            if near {
                match g.candidates_at(p.map(float), 1) {
                    GridCandidates::Slice(s) => assert!(s.contains(&0)),
                    GridCandidates::All(_) => {}
                }
            }
        }
    }
}

#[test]
fn quantization_snaps_to_quarter_units_once() {
    let o = GlyphOutline {
        curves: vec![quad([0.13, 1.11], [2.37, 3.62], [-1.26, 2.88])],
        bounds: [-1.26, 1.11, 2.37, 3.62].map(float),
    };
    let snapped = quantized_outline(&o);
    assert_eq!(snapped.curves[0].p1.map(native), [0.25, 1.0]);
    assert_eq!(snapped.curves[0].p2.map(native), [2.25, 3.5]);
    assert_eq!(snapped.curves[0].p3.map(native), [-1.25, 3.0]);
    let again = quantized_outline(&snapped);
    assert_eq!(again.curves[0].p1, snapped.curves[0].p1);
    assert_eq!(again.curves[0].p2, snapped.curves[0].p2);
    assert_eq!(again.curves[0].p3, snapped.curves[0].p3);
}

#[test]
fn a_reversed_twin_is_a_coincident_span() {
    let arc = quad([0.0, 0.0], [8.0, 16.0], [16.0, 0.0]);
    let reversed = quad([16.0, 0.0], [8.0, 16.0], [0.0, 0.0]);
    assert_eq!(coincident_params(&arc, &reversed), Some((1, 0, 1)));
    assert_eq!(coincident_params(&arc, &arc), Some((0, 1, 1)));
    let other = quad([0.0, 0.25], [8.0, 16.25], [16.0, 0.25]);
    assert_eq!(coincident_params(&arc, &other), None);
}

#[test]
fn radii_fall_into_doubling_buckets() {
    let bucket = |radius: f32| radius_bucket(float(radius), float(1000.0)).map(native);
    assert_eq!(bucket(1.0), Some(15.625));
    assert_eq!(bucket(20.0), Some(31.25));
    assert_eq!(bucket(31.25), Some(31.25));
    assert_eq!(bucket(33.0), Some(62.5));
    assert_eq!(bucket(1.0e7), None);
}

#[test]
fn refinement_keeps_lines_and_splits_tight_arcs() {
    let piece = |curve: QuadCurve| BoundaryPiece { curve, source_curve: 0, t0: float(0.0), t1: float(1.0) };
    let straight = refine_boundary(&vec![piece(line([0.0, 0.0], [1000.0, 0.0]))], float(64.0), float(1000.0))
        .expect("refinement ends");
    assert_eq!(straight.len(), 1);
    let bent = refine_boundary(
        &vec![piece(quad([0.0, 0.0], [500.0, 1000.0], [1000.0, 0.0]))],
        float(1024.0),
        float(1000.0),
    )
    .expect("refinement ends");
    assert_eq!(bent.len(), 4);
    assert_eq!(bent[0].curve.p1.map(native), [0.0, 0.0]);
    assert_eq!(bent[bent.len() - 1].curve.p3.map(native), [1000.0, 0.0]);
}

#[test]
fn a_square_prepares_a_descriptor_and_its_data() {
    let prepared = prepare_border(&outline(square(true)), 7, float(10.0), float(16.0), float(1.5))
        .expect("a square fits");
    assert_eq!(prepared.descriptor.fill_offset, 7);
    assert_eq!(prepared.descriptor.boundary_count as usize, prepared.boundary.len());
    assert_eq!(prepared.data.len(), 2 * prepared.texel_len as usize);
    for edge in 0..4 {
        assert!(prepared.boundary.iter().any(|p| p.source_curve == edge));
    }
}
