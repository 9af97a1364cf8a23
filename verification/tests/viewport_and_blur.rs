//! The uniform block, shadows and depth state.
use sluggrs_skylines::blur::BlurGeometry;
use sluggrs_skylines::float32::F32;
use sluggrs_skylines::gpu_cache::{
    border_depth_stencil, composite_depth_stencil, CompareFunction, DepthStencil, StencilFace, StencilOperation,
};
use sluggrs_skylines::{ColorMode, Resolution, Viewport};

fn float(x: f32) -> F32 {
    F32 { bits: x.to_bits() }
}

fn native(x: F32) -> f32 {
    f32::from_bits(x.bits)
}

fn geometry(glyphs: [f32; 4], clip: [f32; 4], offset: [f32; 2], sigma: f32, support: f32) -> Option<BlurGeometry> {
    BlurGeometry::new(glyphs.map(float), clip.map(float), offset.map(float), float(sigma), float(support))
}

#[test]
fn source_reaches_past_the_clipped_destination() {
    let geometry = geometry([100.0, 100.0, 200.0, 140.0], [0.0, 0.0, 500.0, 500.0], [0.0, 0.0], 2.0, 8.0)
        .expect("visible");
    // Destination is the glyph bounds grown by support on every side.
    assert_eq!(geometry.dest.map(native), [92.0, 92.0, 116.0, 56.0]);
    // Source grows by support again, since taps reach that far out.
    assert_eq!(geometry.source.map(native), [84.0, 84.0, 132.0, 72.0]);
}

#[test]
fn offset_moves_destination_and_is_undone_for_source() {
    let geometry = geometry([100.0, 100.0, 200.0, 140.0], [0.0, 0.0, 500.0, 500.0], [10.0, 5.0], 1.0, 4.0)
        .expect("visible");
    assert_eq!(native(geometry.dest[0]), 106.0, "96 shifted right by 10");
    assert_eq!(native(geometry.dest[1]), 101.0, "96 shifted down by 5");
    // Undoing the offset returns to the glyph-space origin, minus support.
    assert_eq!(native(geometry.source[0]), 92.0);
    assert_eq!(native(geometry.source[1]), 92.0);
}

#[test]
fn uv_rect_addresses_the_destination_within_the_padded_source() {
    let geometry = geometry([100.0, 100.0, 200.0, 140.0], [0.0, 0.0, 500.0, 500.0], [0.0, 0.0], 2.0, 8.0)
        .expect("visible");
    let uv = geometry.uv_rect().map(native);
    let (width, height) = geometry.source_size();
    let dest = geometry.dest.map(native);
    // Destination starts one support in from the source origin.
    assert!((uv[0] - 8.0 / width as f32).abs() < 1e-6);
    assert!((uv[1] - 8.0 / height as f32).abs() < 1e-6);
    // And spans the destination, not the whole texture.
    assert!((uv[2] - dest[2] / width as f32).abs() < 1e-6);
    assert!((uv[3] - dest[3] / height as f32).abs() < 1e-6);
    assert!(uv[2] < 1.0, "the destination is a strict sub-rectangle");
}

#[test]
fn uv_rect_is_unaffected_by_the_offset() {
    let plain = geometry([100.0, 100.0, 200.0, 140.0], [0.0, 0.0, 500.0, 500.0], [0.0, 0.0], 2.0, 8.0)
        .expect("visible");
    let shifted = geometry([100.0, 100.0, 200.0, 140.0], [0.0, 0.0, 500.0, 500.0], [17.0, -9.0], 2.0, 8.0)
        .expect("visible");
    assert_eq!(plain.uv_rect(), shifted.uv_rect());
    assert_ne!(plain.dest, shifted.dest);
}

#[test]
fn a_shadow_clipped_entirely_away_produces_no_job() {
    assert!(geometry([100.0, 100.0, 200.0, 140.0], [0.0, 0.0, 50.0, 50.0], [0.0, 0.0], 2.0, 8.0).is_none());
}

#[test]
fn clipping_the_destination_keeps_the_source_padded() {
    let geometry = geometry([0.0, 0.0, 200.0, 200.0], [50.0, 50.0, 150.0, 150.0], [0.0, 0.0], 2.0, 8.0)
        .expect("visible");
    assert_eq!(geometry.dest.map(native), [50.0, 50.0, 100.0, 100.0]);
    assert_eq!(geometry.source.map(native), [42.0, 42.0, 116.0, 116.0]);
}

#[test]
fn passes_blur_along_each_axis() {
    let geometry = geometry([100.0, 100.0, 200.0, 140.0], [0.0, 0.0, 500.0, 500.0], [0.0, 0.0], 2.0, 8.0)
        .expect("visible");
    assert_eq!(geometry.source_size(), (132, 72));
    let passes = geometry.passes();
    assert_eq!(passes[0].direction.map(native), [1.0, 0.0]);
    assert_eq!(passes[1].direction.map(native), [0.0, 1.0]);
    assert_eq!(passes[0].texel.map(native), [1.0 / 132.0, 1.0 / 72.0]);
    assert_eq!((native(passes[1].sigma), passes[1].support), (2.0, 8));
}

#[test]
fn masks_are_placed_with_the_scroll_applied() {
    let geometry = geometry([100.0, 100.0, 200.0, 140.0], [0.0, 0.0, 500.0, 500.0], [3.0, 3.0], 2.0, 8.0)
        .expect("visible");
    let params = geometry.mask_params([float(5.0), float(-5.0)], 3);
    assert_eq!(params.screen_size.map(native), [132.0, 72.0]);
    assert_eq!(params.scroll_offset.map(native), [5.0 - 84.0, -5.0 - 84.0]);
    assert_eq!(params.flags, 3);
    let shadow = geometry.shadow_uniform([float(0.5); 4], Resolution { width: 640, height: 480 }, 1, float(0.25));
    assert_eq!(shadow.rect, geometry.dest);
    assert_eq!(shadow.uv_rect, geometry.uv_rect());
    assert_eq!(shadow.screen_size.map(native), [640.0, 480.0]);
    assert_eq!((shadow.flags, native(shadow.depth)), (1, 0.25));
}

#[test]
fn a_degenerate_mask_has_one_texel() {
    let tiny = geometry([0.0, 0.0, 0.25, 0.25], [0.0, 0.0, 10.0, 10.0], [0.0, 0.0], 0.0, 0.0).expect("visible");
    assert_eq!(tiny.source_size(), (1, 1));
}

#[test]
fn the_viewport_reports_changes_only() {
    let mut viewport = Viewport::new();
    assert_eq!(viewport.flags(), 1);
    assert_eq!(viewport.resolution(), Resolution { width: 0, height: 0 });
    let size = Resolution { width: 1920, height: 1080 };
    assert!(viewport.update(size));
    assert!(!viewport.update(size));
    assert_eq!(viewport.resolution(), size);
    assert!(viewport.set_scroll_offset([float(1.5), float(-2.0)]));
    assert!(!viewport.set_scroll_offset([float(1.5), float(-2.0)]));
    assert_eq!(viewport.scroll_offset().map(native), [1.5, -2.0]);
    assert_eq!(viewport.params().screen_size.map(native), [1920.0, 1080.0]);
}

#[test]
fn flags_are_independent() {
    let mut viewport = Viewport::new();
    assert!(viewport.set_color_mode(ColorMode::Web));
    assert!(!viewport.set_color_mode(ColorMode::Web));
    assert_eq!(viewport.flags(), 3);
    assert!(viewport.set_msaa_hint(false));
    assert_eq!(viewport.flags(), 2);
    assert!(viewport.set_color_mode(ColorMode::Accurate));
    assert_eq!(viewport.flags(), 0);
    assert!(viewport.set_msaa_hint(true));
    assert_eq!(viewport.flags(), 1);
}

#[test]
fn underlays_test_depth_and_write_nothing() {
    let face = StencilFace {
        compare: CompareFunction::Equal,
        fail_op: StencilOperation::Zero,
        depth_fail_op: StencilOperation::Invert,
        pass_op: StencilOperation::Replace,
    };
    let state = DepthStencil {
        depth_write_enabled: Some(true),
        depth_compare: Some(CompareFunction::LessEqual),
        front: face,
        back: face,
        read_mask: 0xff,
        write_mask: 0xff,
    };
    let quiet = composite_depth_stencil(Some(state)).expect("state");
    assert_eq!(quiet.depth_write_enabled, Some(false));
    assert_eq!(quiet.depth_compare, Some(CompareFunction::LessEqual));
    assert_eq!(quiet.front.compare, CompareFunction::Equal);
    assert_eq!(quiet.back.pass_op, StencilOperation::Keep);
    assert_eq!((quiet.read_mask, quiet.write_mask), (0xff, 0));
    assert_eq!(border_depth_stencil(Some(state), true), Some(state));
    assert_eq!(border_depth_stencil(Some(state), false), Some(quiet));
    assert_eq!(composite_depth_stencil(None), None);
}
