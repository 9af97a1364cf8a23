//! Placement, culling and draw order.
use std::ops::Range;

use sluggrs_skylines::float32::F32;
use sluggrs_skylines::text_renderer::capacity::{border_capacities, widest_spread, BorderCapacity, BorderUse};
use sluggrs_skylines::text_renderer::draws::BorderUniform;
use sluggrs_skylines::text_renderer::geometry::{
    classify_placement, clipped_bounds, instance_stream_unchanged, next_copy_buffer_size, raster_buffer_size,
    re_cull_vector_instances, run_is_visible, uniform_stride, vector_rect_visible, zero_depth, GlyphInstance,
    PlacementClass,
};
use sluggrs_skylines::text_renderer::keys::sorted_keys;
use sluggrs_skylines::text_renderer::layout::LayoutRun;
use sluggrs_skylines::text_renderer::runs::decoration_runs;
use sluggrs_skylines::text_renderer::shadow::{distinct_depths, instance_bounds_at_depth, instances_at_depth};
use sluggrs_skylines::types::{blur_support, color_to_f32, DecorationExtents, PhysicalDecoration};
use sluggrs_skylines::{
    validate_decorations, DecorationError, DecorationMode, GlyphKey, PrepareError, Resolution, TextArea, TextBounds,
    TextDecoration,
};

const DECORATION_AA: f32 = 0.5;

fn float(x: f32) -> F32 {
    F32 { bits: x.to_bits() }
}

fn native(x: F32) -> f32 {
    f32::from_bits(x.bits)
}

fn no_extents() -> DecorationExtents {
    DecorationExtents::default()
}

/// The aggregation that this type exists for: one glyph drawn at two sizes in one
/// frame with the same border width. The smaller size asks for the larger radius
/// in font units.
#[test]
fn border_capacity_takes_unit_radius_from_the_smallest_ppem() {
    let mut capacity = BorderCapacity::default();
    capacity.extend(float(48.0), float(4.5), float(1000.0));
    capacity.extend(float(12.0), float(4.5), float(1000.0));

    assert_eq!(native(capacity.ppem), 48.0, "boundary accuracy follows max ppem");
    assert_eq!(
        native(capacity.radius_units),
        375.0,
        "4.5px at 12ppem needs 375 units, not the 93.75 the 48ppem use needs"
    );
}

#[test]
fn border_capacity_takes_the_widest_decoration_at_each_size() {
    let mut capacity = BorderCapacity::default();
    capacity.extend(float(24.0), float(1.0), float(2048.0));
    capacity.extend(float(24.0), float(6.0), float(2048.0));
    assert_eq!(native(capacity.radius_units), 512.0);
}

#[test]
fn order_changed_direct_hit_stream_requires_upload() {
    let instance = |x: f32| GlyphInstance {
        screen_rect: [x, 0.0, 1.0, 1.0].map(float),
        color: [1.0; 4].map(float),
        glyph_offset: 1,
        cmd_texel_count: 0,
        depth: float(0.0),
        ppem: float(12.0),
    };
    let previous = [instance(1.0), instance(2.0)];
    let reordered = [instance(2.0), instance(1.0)];
    let normal_may_skip = instance_stream_unchanged(&reordered, &previous);
    let border_may_skip = instance_stream_unchanged(&reordered, &previous);
    assert!(!normal_may_skip);
    assert!(!border_may_skip);
    assert!(instance_stream_unchanged(&previous, &previous));
    assert!(!instance_stream_unchanged(&previous[..1], &previous));
}

fn run(line_top: f32, line_height: f32) -> LayoutRun {
    LayoutRun { line_top: float(line_top), line_height: float(line_height), line_y: float(0.0), glyphs: Vec::new() }
}

fn run_visible(
    top: f32,
    scale: f32,
    scroll_y: f32,
    run: &LayoutRun,
    min_y: i32,
    max_y: i32,
    extents: DecorationExtents,
) -> bool {
    run_is_visible(float(top), float(scale), float(scroll_y), run, min_y, max_y, extents)
}

#[test]
fn run_visibility_applies_fractional_and_negative_scroll_at_inclusive_edges() {
    let layout_run = run(10.0, 5.0);
    let e = no_extents();
    assert!(run_visible(0.0, 1.0, -15.0, &layout_run, 0, 10, e));
    assert!(run_visible(0.5, 1.0, -10.5, &layout_run, 0, 5, e));
    assert!(!run_visible(0.0, 1.0, -15.1, &layout_run, 0, 10, e));
}

/// A run pushed off the top by scroll is revived by the reach below it and not by
/// the reach above it.
#[test]
fn run_visibility_uses_the_side_the_decoration_actually_reaches() {
    let layout_run = run(10.0, 5.0);
    let up = DecorationExtents { bottom: float(4.0), ..DecorationExtents::default() };
    let down = DecorationExtents { top: float(4.0), ..DecorationExtents::default() };
    // Run sits just above the bounds: only `bottom` reach can save it.
    assert!(!run_visible(0.0, 1.0, -17.0, &layout_run, 0, 10, down));
    assert!(run_visible(0.0, 1.0, -17.0, &layout_run, 0, 10, up));
}

fn rect_visible(rect: [f32; 4], scroll: [f32; 2], bounds: [i32; 4], extents: DecorationExtents) -> bool {
    vector_rect_visible(rect.map(float), scroll.map(float), bounds, extents)
}

#[test]
fn vector_culling_uses_scroll_and_one_pixel_margin() {
    let rect = [10.0, 10.0, 5.0, 5.0];
    let e = no_extents();
    assert!(rect_visible(rect, [-16.0, 0.0], [0, 0, 10, 20], e));
    assert!(!rect_visible(rect, [-16.1, 0.0], [0, 0, 10, 20], e));
    let right = DecorationExtents { right: float(2.0), ..DecorationExtents::default() };
    assert!(rect_visible(rect, [-18.0, 0.0], [0, 0, 10, 20], right));
}

/// The rect is off the left of the bounds, so only rightward reach can bring it
/// back. Equal-magnitude leftward reach must not.
#[test]
fn vector_culling_extents_are_directional() {
    let rect = [10.0, 10.0, 5.0, 5.0];
    let bounds = [0, 0, 10, 20];
    let scroll = [-18.0, 0.0];
    let right = DecorationExtents { right: float(2.0), ..DecorationExtents::default() };
    let left = DecorationExtents { left: float(2.0), ..DecorationExtents::default() };
    assert!(rect_visible(rect, scroll, bounds, right));
    assert!(!rect_visible(rect, scroll, bounds, left));
}

#[test]
fn placement_classification_covers_all_transitions() {
    let classify = |dx: f32, dy: f32, scroll: bool, complete: bool, raster: bool| {
        classify_placement(float(dx), float(dy), scroll, complete, raster)
    };
    // Exact placement: direct hit regardless of completeness or raster.
    assert!(matches!(classify(0.0, 0.0, true, false, true), PlacementClass::Direct));
    // Scroll-only change: re-cull, even with raster candidates.
    assert!(matches!(classify(0.0, 0.0, false, true, true), PlacementClass::ReCull));
    // Position change, complete, vector-only: re-cull.
    assert!(matches!(classify(2.5, -1.0, true, true, false), PlacementClass::ReCull));
    // Position change with raster candidates: miss.
    assert!(matches!(classify(0.0, 1.0, true, true, true), PlacementClass::Miss));
    // Incomplete cache: any placement change is a miss.
    assert!(matches!(classify(1.0, 0.0, true, false, false), PlacementClass::Miss));
    assert!(matches!(classify(0.0, 0.0, false, false, false), PlacementClass::Miss));
}

fn at(x: f32, y: f32) -> GlyphInstance {
    GlyphInstance {
        screen_rect: [x, y, 2.0, 2.0].map(float),
        color: [0.0; 4].map(float),
        glyph_offset: 0,
        cmd_texel_count: 0,
        depth: float(0.0),
        ppem: float(0.0),
    }
}

fn re_cull(instances: &[GlyphInstance], flags: &[bool], dx: f32, dy: f32) -> (Vec<GlyphInstance>, Vec<bool>, bool) {
    re_cull_vector_instances(
        instances,
        flags,
        true,
        float(dx),
        float(dy),
        [float(0.0), float(0.0)],
        [0, 0, 10, 10],
        no_extents(),
    )
}

#[test]
fn re_cull_keeps_completeness_only_when_every_vector_survives() {
    let instance = at(2.0, 2.0);
    let (visible, decorated, complete) = re_cull(&[instance], &[true], 1.5, -0.5);
    assert!(complete);
    assert_eq!([native(visible[0].screen_rect[0]), native(visible[0].screen_rect[1])], [3.5, 1.5]);
    assert_eq!(decorated, vec![true], "flags follow their instances");

    let (visible, decorated, complete) = re_cull(&[instance], &[true], -10.0, 0.0);
    assert!(visible.is_empty());
    assert!(decorated.is_empty(), "a culled instance drops its flag");
    assert!(!complete);
}

/// The flags must stay parallel to the surviving instances, or the run splitter
/// pairs a color glyph with a ring range.
#[test]
fn re_cull_keeps_flags_aligned_when_some_instances_die() {
    // The middle instance is far off to the left and will be culled.
    let instances = [at(2.0, 2.0), at(-500.0, 2.0), at(4.0, 2.0)];
    let (visible, decorated, complete) = re_cull(&instances, &[true, false, true], 0.0, 0.0);
    assert_eq!(visible.len(), 2);
    assert_eq!(decorated, vec![true, true]);
    assert!(!complete);
}

/// Runs must alternate in glyph order rather than grouping all covered instances
/// together, and the ring ranges must index the decoration stream, which holds
/// only the covered subset.
#[test]
fn decoration_runs_preserve_glyph_order() {
    let runs = decoration_runs(&[true, true, false, true, false, false]);
    let shape: Vec<(bool, u32, u32, u32, u32)> = runs
        .iter()
        .map(|(covered, normal, ring)| (*covered, normal.start, normal.end, ring.start, ring.end))
        .collect();
    assert_eq!(
        shape,
        vec![
            // Two covered glyphs: decoration instances 0..2.
            (true, 0, 2, 0, 2),
            // One uncovered glyph, drawn between them.
            (false, 2, 3, 2, 2),
            // One more covered glyph: decoration instance 2.
            (true, 3, 4, 2, 3),
            (false, 4, 6, 3, 3),
        ]
    );
}

fn deep(depth: f32, x: f32) -> GlyphInstance {
    GlyphInstance {
        screen_rect: [x, 0.0, 4.0, 4.0].map(float),
        color: [1.0; 4].map(float),
        glyph_offset: 0,
        cmd_texel_count: 0,
        depth: float(depth),
        ppem: float(16.0),
    }
}

/// One composite quad carries one depth, so a mask spanning depths must be split
/// rather than picking one and occluding the rest wrongly.
#[test]
fn masks_are_partitioned_by_depth() {
    let instances = [deep(0.25, 0.0), deep(0.75, 10.0), deep(0.25, 20.0)];
    assert_eq!(
        distinct_depths(&instances).into_iter().map(native).collect::<Vec<f32>>(),
        vec![0.75, 0.25],
        "farthest first, so the order does not depend on glyph order"
    );

    // Each partition's bounds cover only its own glyphs, grown by the half pixel
    // the mask is actually rasterised over.
    let aa = f64::from(DECORATION_AA) as f32;
    let bounds = |depth: f32| {
        instance_bounds_at_depth(&instances, [float(0.0), float(0.0)], float(depth)).expect("has glyphs").map(native)
    };
    assert_eq!(bounds(0.25), [-aa, -aa, 24.0 + aa, 4.0 + aa]);
    assert_eq!(bounds(0.75), [10.0 - aa, -aa, 14.0 + aa, 4.0 + aa]);
    assert_eq!(instances_at_depth(&instances, float(0.25)).len(), 2);
    assert_eq!(instances_at_depth(&instances, float(0.75)).len(), 1);
}

#[test]
fn a_depth_with_no_glyphs_has_no_bounds() {
    let instance = deep(0.5, 0.0);
    assert!(instance_bounds_at_depth(&[instance], [float(0.0), float(0.0)], float(0.9)).is_none());
}

#[test]
fn decoration_runs_handle_uniform_and_empty_input() {
    assert!(decoration_runs(&[]).is_empty());
    let all = decoration_runs(&[true, true, true]);
    assert_eq!(all.len(), 1);
    assert_eq!(all[0].2, 0..3);
    let none = decoration_runs(&[false, false]);
    assert_eq!(none.len(), 1);
    assert_eq!(none[0].2, 0..0);
}

#[test]
fn runs_cover_every_instance_once() {
    for pattern in 0..256u32 {
        let flags: Vec<bool> = (0..8).map(|i| pattern >> i & 1 == 1).collect();
        let runs: Vec<(bool, Range<u32>, Range<u32>)> = decoration_runs(&flags);
        let mut next = 0;
        let mut covered = 0;
        for (kind, normal, ring) in runs {
            assert_eq!(normal.start, next);
            assert_eq!(ring.start, covered);
            assert!(normal.clone().all(|i| flags[i as usize] == kind));
            assert_eq!(ring.len(), if kind { normal.len() } else { 0 });
            next = normal.end;
            covered = ring.end;
        }
        assert_eq!((next, covered), (8, pattern.count_ones()));
    }
}

#[test]
fn bounds_are_clipped_to_the_target() {
    let bounds = TextBounds { left: -5, top: 10, right: 900, bottom: 300 };
    assert_eq!(clipped_bounds(bounds, Resolution { width: 800, height: 600 }), [0, 10, 800, 300]);
    assert_eq!(clipped_bounds(bounds, Resolution { width: u32::MAX, height: 600 }), [0, 10, -1, 300]);
}

#[test]
fn buffer_sizes_are_powers_of_two() {
    assert_eq!(
        [0, 1, 4, 5, 4096, 4097].map(next_copy_buffer_size),
        [4, 4, 4, 8, 4096, 8192],
    );
    assert_eq!([0, 4096, 5000].map(raster_buffer_size), [4096, 4096, 8192]);
    assert_eq!([0, 1, 32, 64, 256].map(uniform_stride), [32, 32, 32, 64, 256]);
}

#[test]
fn keys_are_sorted_and_distinct() {
    let key = |font_id: u64, glyph_id: u16| GlyphKey { font_id, glyph_id, font_weight: 400, cache_key_flags: 0 };
    let keys = sorted_keys(&vec![key(2, 1), key(1, 9), key(2, 1), key(1, 3), key(1, 9)]);
    assert_eq!(keys, vec![key(1, 3), key(1, 9), key(2, 1)]);
}

fn physical(spread: f32, offset: [f32; 2], blur: f32, mode: DecorationMode) -> PhysicalDecoration {
    PhysicalDecoration {
        color: [0.0, 0.0, 0.0, 1.0].map(float),
        spread: float(spread),
        mode,
        offset: offset.map(float),
        blur: float(blur),
    }
}

#[test]
fn the_widest_spread_counts_and_offsets_do_not() {
    assert!(widest_spread(&[]).is_none());
    let list = [
        physical(1.0, [100.0, 0.0], 0.0, DecorationMode::Solid),
        physical(3.0, [0.0, 0.0], 0.0, DecorationMode::Solid),
    ];
    assert_eq!(widest_spread(&list).map(native), Some(3.5));
    assert_eq!(BorderUniform::of(&list[0]).mode, 0);
    assert_eq!(BorderUniform::of(&physical(1.0, [0.0, 0.0], 0.0, DecorationMode::Ring)).mode, 1);
}

#[test]
fn requirements_are_folded_per_glyph() {
    let key = |glyph_id: u16| GlyphKey { font_id: 1, glyph_id, font_weight: 400, cache_key_flags: 0 };
    let use_of = |glyph_id: u16, ppem: f32| BorderUse {
        key: key(glyph_id),
        ppem: float(ppem),
        radius_px: float(4.5),
        units_per_em: float(1000.0),
    };
    let mut list = border_capacities(&vec![use_of(7, 48.0), use_of(8, 10.0), use_of(7, 12.0)]);
    list.sort_by_key(|(key, _)| key.glyph_id);
    assert_eq!(list.len(), 2);
    assert_eq!((native(list[0].1.ppem), native(list[0].1.radius_units)), (48.0, 375.0));
    assert_eq!((native(list[1].1.ppem), native(list[1].1.radius_units)), (10.0, 450.0));
}

#[test]
fn decorations_that_cannot_be_drawn_are_refused() {
    let solid = TextDecoration::outline(0xff00_0000, float(2.0));
    let ring = TextDecoration { mode: DecorationMode::Ring, ..solid };
    let soft = TextDecoration { blur: float(3.0), ..TextDecoration::shadow(0xff00_0000, float(1.0), float(1.0)) };
    assert_eq!(validate_decorations(&[]), Ok(()));
    assert_eq!(validate_decorations(&[ring, solid, soft]), Ok(()));
    assert_eq!(validate_decorations(&[solid, ring]), Err(DecorationError::RingNotFirst));
    assert_eq!(
        validate_decorations(&[TextDecoration { blur: float(1.0), ..ring }]),
        Err(DecorationError::BlurredRing)
    );
    assert_eq!(
        validate_decorations(&[TextDecoration { blur: float(1.0), ..solid }, ring]),
        Err(DecorationError::BlurWithSpread)
    );
}

#[test]
fn areas_scale_their_decorations() {
    let area = TextArea {
        buffer: 1,
        redraw: false,
        left: float(0.0),
        top: float(0.0),
        scale: float(2.0),
        bounds: TextBounds { left: 0, top: 0, right: 10, bottom: 10 },
        default_color: 0,
        decorations: vec![TextDecoration {
            offset: [float(1.0), float(-3.0)],
            ..TextDecoration::outline(0x80ff_0033, float(1.5))
        }],
    };
    let list = area.physical_decorations().expect("drawable");
    assert_eq!((native(list[0].spread), list[0].offset.map(native)), (3.0, [2.0, -6.0]));
    assert_eq!(list[0].color.map(native), [1.0, 0.0, 51.0 / 255.0, 128.0 / 255.0]);
    let extents = DecorationExtents::of(&list, float(0.5));
    assert_eq!(
        [extents.left, extents.top, extents.right, extents.bottom].map(native),
        [1.5, 9.5, 5.5, 0.0]
    );
    let refused = TextArea {
        decorations: vec![area.decorations[0], TextDecoration { mode: DecorationMode::Ring, ..area.decorations[0] }],
        ..area
    };
    assert_eq!(
        refused.physical_decorations().err(),
        Some(PrepareError::InvalidDecorations(DecorationError::RingNotFirst))
    );
}

#[test]
fn kernels_reach_four_deviations() {
    assert_eq!([0.0, 1.0, 2.0, 0.3].map(|x| native(blur_support(float(x)))), [0.0, 4.0, 8.0, 2.0]);
    let soft = physical(0.0, [0.0, 0.0], 2.0, DecorationMode::Solid);
    assert!(soft.is_filtered());
    assert_eq!(native(DecorationExtents::of(&[soft], float(0.5)).left), 8.5);
}

#[test]
fn colors_are_fractions() {
    assert_eq!(color_to_f32(0x8040_20ff).map(native), [64.0 / 255.0, 32.0 / 255.0, 1.0, 128.0 / 255.0]);
    assert_eq!(native(zero_depth(7)), 0.0);
}

#[test]
fn depths_that_do_not_compare_keep_their_order() {
    let order = |depths: &[f32]| {
        let instances: Vec<GlyphInstance> = depths.iter().map(|d| deep(*d, 0.0)).collect();
        distinct_depths(&instances).into_iter().map(|d| d.bits).collect::<Vec<u32>>()
    };
    let bits = |depths: &[f32]| depths.iter().map(|d| d.to_bits()).collect::<Vec<u32>>();
    assert_eq!(order(&[0.5, f32::NAN]), bits(&[0.5, f32::NAN]));
    assert_eq!(order(&[f32::NAN, 0.5]), bits(&[f32::NAN, 0.5]));
    assert_eq!(order(&[0.0, -0.0, f32::NAN, 0.0]), bits(&[0.0, -0.0, f32::NAN]));
    assert_eq!(order(&[-0.0, 0.0]), bits(&[-0.0, 0.0]));
    assert_eq!(order(&[0.25, -1.0, 0.75, 0.5, 0.75]), bits(&[0.75, 0.5, 0.25, -1.0]));
}
