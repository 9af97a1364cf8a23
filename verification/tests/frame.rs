//! Whole frames: planning, emission and draws.
use sluggrs_skylines::float32::F32;
use sluggrs_skylines::outline::{ColorLayer, GlyphOutline, GlyphSource, OutlineBuilder};
use sluggrs_skylines::raster_text::PhysicalGlyph;
use sluggrs_skylines::text_renderer::frame::PrepareStats;
use sluggrs_skylines::text_renderer::geometry::{GlyphInstance, PlacementClass};
use sluggrs_skylines::text_renderer::layout::{LayoutGlyph, LayoutRun};
use sluggrs_skylines::text_renderer::prepare::PreparedFrame;
use sluggrs_skylines::text_renderer::render::{DrawCommand, Upload};
use sluggrs_skylines::{
    DecorationError, DecorationMode, GlyphKey, PrepareError, RenderError, Resolution, TextArea, TextAtlas, TextBounds,
    TextDecoration, TextRenderer, Viewport,
};

const BLACK: u32 = 0xff00_0000;
const WHITE: u32 = 0xffff_ffff;

fn float(x: f32) -> F32 {
    F32 { bits: x.to_bits() }
}

fn native(x: F32) -> f32 {
    f32::from_bits(x.bits)
}

fn point(x: f32, y: f32) -> [F32; 2] {
    [float(x), float(y)]
}

/// A square from the baseline up.
fn square(size: f32) -> GlyphOutline {
    let mut builder = OutlineBuilder::new();
    builder.move_to(point(0.0, 0.0));
    builder.line_to(point(size, 0.0));
    builder.line_to(point(size, size));
    builder.line_to(point(0.0, size));
    builder.close();
    builder.finish().expect("four edges")
}

fn key(glyph_id: u16) -> GlyphKey {
    GlyphKey { font_id: 1, glyph_id, font_weight: 400, cache_key_flags: 0 }
}

/// Glyphs below 100 are outlines, below 200 layered, the others images.
fn source(glyph_id: u16) -> GlyphSource {
    if glyph_id < 100 {
        GlyphSource::Outline(square(500.0))
    } else if glyph_id < 200 {
        let layer = |size: f32, use_foreground: bool| ColorLayer {
            outline: Some(square(size)),
            color: [1.0, 0.0, 0.0, 1.0].map(float),
            use_foreground,
        };
        GlyphSource::V0Layers(vec![layer(500.0, false), layer(250.0, true)])
    } else {
        GlyphSource::Missing
    }
}

fn glyph(glyph_id: u16, x: f32) -> LayoutGlyph {
    LayoutGlyph {
        key: key(glyph_id),
        font_size: float(20.0),
        x: float(x),
        x_offset: float(0.0),
        y_offset: float(0.0),
        color: None,
        depth: float(0.0),
        physical: PhysicalGlyph { image: glyph_id as u128, x: x as i32, y: 0 },
    }
}

fn line(top: f32, glyphs: Vec<LayoutGlyph>) -> LayoutRun {
    LayoutRun { line_top: float(top), line_height: float(24.0), line_y: float(top + 18.0), glyphs }
}

struct Scene {
    atlas: TextAtlas,
    renderer: TextRenderer,
    viewport: Viewport,
}

fn scene() -> Scene {
    let atlas = TextAtlas::new(5, 1 << 20);
    let renderer = TextRenderer::new(&atlas);
    let mut viewport = Viewport::new();
    viewport.update(Resolution { width: 800, height: 600 });
    Scene { atlas, renderer, viewport }
}

impl Scene {
    /// Prepares areas as a caller does.
    fn prepare(&mut self, areas: &[(TextArea, Vec<LayoutRun>)]) -> Result<PreparedFrame, PrepareError> {
        let mut frame = self.renderer.begin_frame(&self.atlas, &self.viewport);
        for (area, runs) in areas {
            self.renderer.plan_area(&mut frame, &mut self.atlas, area, runs)?;
        }
        for key in frame.missing_glyphs() {
            self.atlas.resolve_glyph(key, &source(key.glyph_id), float(1000.0))?;
        }
        assert!(TextRenderer::is_resolved(&frame, &self.atlas));
        for (key, capacity) in self.renderer.border_requirements(&frame, &self.atlas) {
            self.atlas.resolve_border_blob(key, &square(500.0), capacity.ppem, capacity.radius_units)?;
        }
        assert!(self.renderer.is_ready(&frame, &self.atlas));
        let prepared = self.renderer.emit(&frame, &self.atlas);
        self.renderer.upload_border_resources(prepared.uniforms.len() as u32, 256, prepared.upload_border_instances);
        if prepared.upload_instances {
            self.renderer.upload_vertices();
        }
        self.renderer.upload_raster_vertices(prepared.raster.len());
        self.renderer.finish_frame(frame, &self.atlas);
        Ok(prepared)
    }

    fn stats(&self) -> (usize, usize, usize) {
        let stats: PrepareStats = self.renderer.last_prepare_stats();
        (stats.direct_hits, stats.reculls, stats.misses)
    }

    fn draws(&self) -> Vec<DrawCommand> {
        self.renderer.render(&self.atlas).expect("current")
    }
}

fn area(buffer: u64, left: f32, decorations: Vec<TextDecoration>) -> TextArea {
    TextArea {
        buffer,
        redraw: false,
        left: float(left),
        top: float(0.0),
        scale: float(1.0),
        bounds: TextBounds { left: 0, top: 0, right: 800, bottom: 600 },
        default_color: WHITE,
        decorations,
    }
}

fn two_glyphs() -> Vec<LayoutRun> {
    vec![line(0.0, vec![glyph(1, 0.0), glyph(2, 20.0)])]
}

fn words(instances: &[GlyphInstance]) -> Vec<(u32, u32, u32)> {
    instances.iter().map(|i| (i.screen_rect[0].bits, i.screen_rect[1].bits, i.glyph_offset)).collect()
}

#[test]
fn a_repeated_area_is_a_direct_hit() {
    let mut s = scene();
    s.prepare(&[(area(1, 10.0, vec![]), two_glyphs())]).expect("prepared");
    assert_eq!(s.stats(), (0, 0, 1));
    let first = words(s.renderer.prepared_instances());
    assert_eq!(first.len(), 2);
    let i = s.renderer.prepared_instances()[1];
    // 20 pixels per em over 1000 units: 500 units are 10 pixels.
    assert_eq!(i.screen_rect.map(native), [30.0, 8.0, 10.0, 10.0]);
    assert_eq!(i.color.map(native), [1.0; 4]);
    assert_eq!(native(i.ppem), 20.0);
    // The layout of a hit is not looked at.
    s.prepare(&[(area(1, 10.0, vec![]), vec![])]).expect("prepared");
    assert_eq!(s.stats(), (1, 0, 0));
    assert_eq!(words(s.renderer.prepared_instances()), first);
    assert_eq!(s.draws(), vec![DrawCommand::Glyphs { start: 0, end: 2 }]);
}

#[test]
fn a_moved_area_is_culled_again() {
    let mut s = scene();
    s.prepare(&[(area(1, 10.0, vec![]), two_glyphs())]).expect("prepared");
    s.prepare(&[(area(1, 785.0, vec![]), vec![])]).expect("prepared");
    assert_eq!(s.stats(), (0, 1, 0));
    assert_eq!(s.renderer.prepared_instances().len(), 1, "the second glyph left the target");
    // What is left is incomplete, so a further move needs the layout.
    s.prepare(&[(area(1, 10.0, vec![]), two_glyphs())]).expect("prepared");
    assert_eq!(s.stats(), (0, 0, 1));
    assert_eq!(s.renderer.prepared_instances().len(), 2);
}

#[test]
fn a_changed_buffer_color_scale_or_bounds_misses() {
    let mut s = scene();
    let plain = || area(1, 10.0, vec![]);
    let variants = [
        TextArea { redraw: true, ..plain() },
        TextArea { default_color: BLACK, ..plain() },
        TextArea { scale: float(2.0), ..plain() },
        TextArea { bounds: TextBounds { left: 0, top: 0, right: 700, bottom: 600 }, ..plain() },
    ];
    for variant in variants {
        s.prepare(&[(plain(), two_glyphs())]).expect("prepared");
        s.prepare(&[(variant, two_glyphs())]).expect("prepared");
        assert_eq!(s.stats(), (0, 0, 1));
    }
    s.viewport.update(Resolution { width: 640, height: 480 });
    s.prepare(&[(TextArea { bounds: TextBounds { left: 0, top: 0, right: 700, bottom: 600 }, ..plain() }, two_glyphs())])
        .expect("prepared");
    assert_eq!(s.stats(), (0, 0, 1), "a new target size drops everything");
}

#[test]
fn scrolled_text_is_culled_again_and_reappears() {
    let mut s = scene();
    s.prepare(&[(area(1, 10.0, vec![]), two_glyphs())]).expect("prepared");
    s.viewport.set_scroll_offset([float(0.0), float(-5.0)]);
    s.prepare(&[(area(1, 10.0, vec![]), two_glyphs())]).expect("prepared");
    assert_eq!(s.stats(), (0, 1, 0));
    assert_eq!(native(s.renderer.prepared_instances()[0].screen_rect[1]), 8.0, "positions are unscrolled");
    s.viewport.set_scroll_offset([float(0.0), float(-500.0)]);
    s.prepare(&[(area(1, 10.0, vec![]), two_glyphs())]).expect("prepared");
    assert_eq!(s.renderer.prepared_instances().len(), 0);
    s.viewport.set_scroll_offset([float(0.0), float(0.0)]);
    s.prepare(&[(area(1, 10.0, vec![]), two_glyphs())]).expect("prepared");
    assert_eq!(s.renderer.prepared_instances().len(), 2);
}

#[test]
fn areas_that_share_a_buffer_keep_their_places() {
    let mut s = scene();
    let both = |a: f32, b: f32| [(area(1, a, vec![]), two_glyphs()), (area(1, b, vec![]), two_glyphs())];
    s.prepare(&both(0.0, 100.0)).expect("prepared");
    s.prepare(&both(0.0, 100.0)).expect("prepared");
    assert_eq!(s.stats(), (2, 0, 0));
    let xs: Vec<f32> = s.renderer.prepared_instances().iter().map(|i| native(i.screen_rect[0])).collect();
    assert_eq!(xs, vec![0.0, 20.0, 100.0, 120.0]);
    s.prepare(&both(100.0, 0.0)).expect("prepared");
    assert_eq!(s.stats(), (0, 2, 0), "swapped areas trade places");
    // An occurrence that a frame did not show is forgotten.
    s.prepare(&[(area(1, 100.0, vec![]), two_glyphs())]).expect("prepared");
    s.prepare(&both(100.0, 0.0)).expect("prepared");
    assert_eq!(s.stats(), (1, 0, 1));
}

#[test]
fn lines_outside_the_bounds_are_left_out() {
    let mut s = scene();
    let lines = || {
        vec![
            line(-100.0, vec![glyph(1, 0.0)]),
            line(0.0, vec![glyph(2, 0.0)]),
            line(1000.0, vec![glyph(3, 0.0)]),
            line(10.0, vec![glyph(4, 0.0)]),
        ]
    };
    s.prepare(&[(area(1, 10.0, vec![]), lines())]).expect("prepared");
    assert_eq!(s.renderer.prepared_instances().len(), 1);
    assert!(s.atlas.glyph(&key(2)).is_some());
    assert!(s.atlas.glyph(&key(4)).is_none(), "the walk ends after the visible lines");
}

#[test]
fn decoration_colors_are_paint() {
    let mut s = scene();
    let outlined = |color: u32| area(1, 10.0, vec![TextDecoration::outline(color, float(2.0))]);
    s.prepare(&[(outlined(0xffff_0000), two_glyphs())]).expect("prepared");
    let first = words(s.renderer.prepared_instances());
    let prepared = s.prepare(&[(outlined(0xff00_00ff), vec![])]).expect("prepared");
    assert_eq!(s.stats(), (1, 0, 0));
    assert_eq!(words(s.renderer.prepared_instances()), first);
    assert_eq!(prepared.uniforms[0].color.map(native), [0.0, 0.0, 1.0, 1.0]);
    assert!(!prepared.upload_border_instances);
}

#[test]
fn decoration_geometry_is_no_direct_hit() {
    let mut s = scene();
    let with = |d: TextDecoration| [(area(1, 10.0, vec![d]), two_glyphs())];
    s.prepare(&with(TextDecoration::shadow(BLACK, float(2.0), float(2.0)))).expect("prepared");
    s.prepare(&with(TextDecoration::shadow(BLACK, float(9.0), float(9.0)))).expect("prepared");
    assert_eq!(s.stats(), (0, 1, 0));
    s.prepare(&with(TextDecoration::shadow(BLACK, float(-9.0), float(9.0)))).expect("prepared");
    assert_eq!(s.stats(), (0, 1, 0), "the same reach on the other side");
    s.prepare(&with(TextDecoration::outline(BLACK, float(8.0)))).expect("prepared");
    assert_eq!(s.stats(), (0, 1, 0));
}

#[test]
fn removed_decorations_leave_the_plain_text() {
    let mut s = scene();
    s.prepare(&[(area(1, 10.0, vec![]), two_glyphs())]).expect("prepared");
    let plain = words(s.renderer.prepared_instances());
    let zero = TextDecoration::shadow(BLACK, float(3.0), float(3.0));
    s.prepare(&[(area(1, 10.0, vec![zero]), two_glyphs())]).expect("prepared");
    assert_eq!(s.renderer.prepared_border_instances().len(), 2);
    s.prepare(&[(area(1, 10.0, vec![]), two_glyphs())]).expect("prepared");
    assert_eq!(s.renderer.prepared_border_instances().len(), 0);
    assert_eq!(words(s.renderer.prepared_instances()), plain);
    assert_eq!(s.draws(), vec![DrawCommand::Glyphs { start: 0, end: 2 }]);
}

#[test]
fn the_first_decoration_is_painted_on_top() {
    let mut s = scene();
    let list = vec![
        TextDecoration::outline(0xff00_0001, float(1.5)),
        TextDecoration::shadow(0xff00_0002, float(4.0), float(4.0)),
    ];
    let prepared = s.prepare(&[(area(1, 10.0, list), two_glyphs())]).expect("prepared");
    let blue = |i: usize| (native(prepared.uniforms[i].color[2]) * 255.0).round() as u32;
    assert_eq!((blue(0), blue(1)), (2, 1));
    assert_eq!(
        s.draws(),
        vec![
            DrawCommand::Decoration { fill_owning: false, start: 0, end: 2, offset: 0 },
            DrawCommand::Decoration { fill_owning: false, start: 0, end: 2, offset: 256 },
            DrawCommand::Glyphs { start: 0, end: 2 },
        ]
    );
}

#[test]
fn a_ring_fills_what_it_covers_in_glyph_order() {
    let mut s = scene();
    let ring = TextDecoration { mode: DecorationMode::Ring, ..TextDecoration::outline(BLACK, float(2.0)) };
    let runs = vec![line(0.0, vec![glyph(1, 0.0), glyph(100, 30.0), glyph(2, 60.0)])];
    s.prepare(&[(area(1, 10.0, vec![ring]), runs)]).expect("prepared");
    // The color glyph in the middle has two layers.
    assert_eq!(s.renderer.prepared_instances().len(), 4);
    assert_eq!(s.renderer.prepared_border_instances().len(), 2);
    assert_eq!(
        s.draws(),
        vec![
            DrawCommand::Decoration { fill_owning: true, start: 0, end: 1, offset: 0 },
            DrawCommand::Glyphs { start: 1, end: 3 },
            DrawCommand::Decoration { fill_owning: true, start: 1, end: 2, offset: 0 },
        ]
    );
    let colors: Vec<f32> = s.renderer.prepared_instances().iter().map(|i| native(i.color[1])).collect();
    assert_eq!(colors, vec![1.0, 0.0, 1.0, 1.0], "layers keep their color or take the text's");
}

#[test]
fn blurred_shadows_wait_for_their_masks() {
    let mut s = scene();
    let soft = TextDecoration { blur: float(2.0), ..TextDecoration::shadow(0xff00_ff00, float(5.0), float(5.0)) };
    let hard = TextDecoration::shadow(BLACK, float(1.0), float(1.0));
    let mut far = glyph(2, 40.0);
    far.depth = float(0.5);
    let runs = vec![line(0.0, vec![glyph(1, 0.0), far])];
    let prepared = s.prepare(&[(area(1, 10.0, vec![soft, hard]), runs)]).expect("prepared");
    assert_eq!(prepared.blurs.len(), 2);
    assert_eq!((native(prepared.blurs[0].depth), native(prepared.blurs[1].depth)), (0.5, 0.0));
    assert_eq!((prepared.blurs[0].start, prepared.blurs[0].end), (0, 2));
    assert_eq!(prepared.blurs[0].color.map(native), [0.0, 1.0, 0.0, 1.0]);
    // The quad at 50 is 10 wide; with half a pixel, 8 of support and an offset of 5.
    assert_eq!(native(prepared.blurs[0].geometry.dest[0]), 50.0 - 0.5 - 8.0 + 5.0);
    assert_eq!(
        s.draws(),
        vec![
            DrawCommand::Decoration { fill_owning: false, start: 0, end: 2, offset: 0 },
            DrawCommand::Shadow { job: 0 },
            DrawCommand::Shadow { job: 1 },
            DrawCommand::Glyphs { start: 0, end: 2 },
        ]
    );
}

#[test]
fn glyphs_without_outlines_go_to_the_raster_fallback() {
    let mut s = scene();
    let mut colored = glyph(200, 50.0);
    colored.color = Some(BLACK);
    let runs = || vec![line(0.0, vec![glyph(1, 0.0), colored])];
    let prepared = s.prepare(&[(area(1, 10.0, vec![]), runs())]).expect("prepared");
    assert_eq!(prepared.raster.len(), 1);
    assert_eq!(prepared.raster[0].color.map(native), [0.0, 0.0, 0.0, 1.0]);
    assert_eq!(native(prepared.raster[0].line_y_scaled_rounded), 18.0);
    assert_eq!(s.draws(), vec![DrawCommand::Glyphs { start: 0, end: 1 }, DrawCommand::Raster { count: 1 }]);
    // Images are placed anew when the area moves, so a move misses.
    s.prepare(&[(area(1, 11.0, vec![]), runs())]).expect("prepared");
    assert_eq!(s.stats(), (0, 0, 1));
}

#[test]
fn stale_and_foreign_atlases_are_refused() {
    let mut s = scene();
    let runs = || vec![line(0.0, (0..60).map(|i| glyph(i, 10.0 * i as f32)).collect())];
    s.atlas = TextAtlas::with_initial_buffer_capacity(5, 64, 1 << 20);
    s.prepare(&[(area(1, 0.0, vec![]), runs())]).expect("prepared");
    assert!(s.renderer.render(&s.atlas).is_ok());
    let other = TextAtlas::new(6, 1 << 20);
    assert_eq!(s.renderer.render(&other).err(), Some(RenderError::RemovedFromAtlas));
    s.atlas.flush_uploads();
    s.atlas.trim();
    s.prepare(&[(area(2, 0.0, vec![]), two_glyphs())]).expect("prepared");
    assert!(s.atlas.trim(), "most glyphs fell out of use");
    assert_eq!(s.renderer.render(&s.atlas).err(), Some(RenderError::RemovedFromAtlas));
    s.prepare(&[(area(2, 0.0, vec![]), two_glyphs())]).expect("prepared");
    assert_eq!(s.stats(), (0, 0, 1), "prepared areas of the old data are not reused");
    assert!(s.renderer.render(&s.atlas).is_ok());
}

#[test]
fn a_refused_area_leaves_nothing_to_draw() {
    let mut s = scene();
    s.prepare(&[(area(1, 10.0, vec![]), two_glyphs())]).expect("prepared");
    let solid = TextDecoration::outline(BLACK, float(2.0));
    let ring = TextDecoration { mode: DecorationMode::Ring, ..solid };
    assert_eq!(
        s.prepare(&[(area(1, 10.0, vec![solid, ring]), two_glyphs())]).err(),
        Some(PrepareError::InvalidDecorations(DecorationError::RingNotFirst))
    );
    assert_eq!(s.draws(), vec![]);
}

#[test]
fn classification_needs_no_layout() {
    let mut s = scene();
    s.prepare(&[(area(1, 10.0, vec![]), two_glyphs())]).expect("prepared");
    let frame = s.renderer.begin_frame(&s.atlas, &s.viewport);
    let class = |left: f32, buffer: u64| s.renderer.classify_area(&frame, &s.atlas, &area(buffer, left, vec![]));
    assert_eq!(class(10.0, 1), PlacementClass::Direct);
    assert_eq!(class(15.0, 1), PlacementClass::ReCull);
    assert_eq!(class(10.0, 2), PlacementClass::Miss);
}

#[test]
fn buffers_grow_when_they_have_to() {
    let mut s = scene();
    let many: Vec<LayoutGlyph> = (0..90).map(|i| glyph(1, i as f32)).collect();
    let mut frame = s.renderer.begin_frame(&s.atlas, &s.viewport);
    let runs = vec![line(0.0, many)];
    s.renderer
        .plan_area(&mut frame, &mut s.atlas, &area(1, 0.0, vec![TextDecoration::outline(BLACK, float(1.0))]), &runs)
        .expect("drawable");
    for key in frame.missing_glyphs() {
        s.atlas.resolve_glyph(key, &source(key.glyph_id), float(1000.0)).expect("fits");
    }
    for (key, capacity) in s.renderer.border_requirements(&frame, &s.atlas) {
        s.atlas.resolve_border_blob(key, &square(500.0), capacity.ppem, capacity.radius_units).expect("fits");
    }
    let prepared = s.renderer.emit(&frame, &s.atlas);
    assert!(prepared.upload_instances && prepared.upload_border_instances);
    // 90 instances of 48 bytes do not fit 4096.
    assert_eq!(s.renderer.upload_vertices(), Upload::Recreate(8192));
    assert_eq!(s.renderer.upload_vertices(), Upload::Write);
    let border = s.renderer.upload_border_resources(1, 64, true).expect("decorated");
    assert_eq!(border.recreate_vertices, Some(8192));
    assert_eq!((border.recreate_uniforms, border.stride), (Some(64), 64));
    assert!(border.write_instances);
    let again = s.renderer.upload_border_resources(1, 64, false).expect("decorated");
    assert_eq!((again.recreate_vertices, again.recreate_uniforms, again.write_instances), (None, None, false));
    assert_eq!(s.renderer.upload_raster_vertices(0), Upload::Nothing);
    assert_eq!(s.renderer.upload_raster_vertices(100), Upload::Recreate(8192));
    s.renderer.trim();
}

#[test]
fn unchanged_text_is_not_uploaded_again() {
    let mut s = scene();
    let areas = || vec![(area(1, 10.0, vec![]), two_glyphs()), (area(2, 50.0, vec![]), two_glyphs())];
    assert!(s.prepare(&areas()).expect("prepared").upload_instances);
    let first = words(s.renderer.prepared_instances());
    let drawn = s.draws();
    for _ in 0..2 {
        let again = s.prepare(&areas()).expect("prepared");
        assert!(!again.upload_instances);
        assert_eq!(s.stats(), (2, 0, 0));
        assert_eq!(words(s.renderer.prepared_instances()), first);
        assert_eq!(s.draws(), drawn);
    }
    // Fewer areas are all direct hits and still another stream.
    assert!(s.prepare(&areas()[..1]).expect("prepared").upload_instances);
    assert_eq!(s.stats(), (1, 0, 0));
}

#[test]
fn a_frame_that_was_given_up_is_uploaded_again() {
    let mut s = scene();
    let areas = [(area(1, 10.0, vec![]), two_glyphs())];
    s.prepare(&areas).expect("prepared");
    // A frame that is begun and dropped leaves nothing to draw.
    s.renderer.begin_frame(&s.atlas, &s.viewport);
    assert!(s.prepare(&areas).expect("prepared").upload_instances);
    assert_eq!(s.stats(), (1, 0, 0));
    assert_eq!(s.draws(), vec![DrawCommand::Glyphs { start: 0, end: 2 }]);
}
