//! The glyph atlas.
use sluggrs_skylines::float32::F32;
use sluggrs_skylines::outline::{choose_source, ColorLayer, ColorV1Data, GlyphOutline, GlyphSource, OutlineBuilder, QuadCurve};
use sluggrs_skylines::text_atlas::{
    band_count_for_curves, checked_buffer_end, encode_glyph_header, max_buffer_capacity, planned_buffer_capacity,
};
use sluggrs_skylines::{GlyphKey, PrepareError, TextAtlas};

fn float(x: f32) -> F32 {
    F32 { bits: x.to_bits() }
}

fn native(x: F32) -> f32 {
    f32::from_bits(x.bits)
}

#[test]
fn capacity_plan_rounds_up_once() {
    assert_eq!(planned_buffer_capacity(128, 129, 4096), Ok(256));
    assert_eq!(planned_buffer_capacity(128, 1025, 4096), Ok(2048));
}

#[test]
fn capacity_plan_clamps_to_device_limit() {
    assert_eq!(planned_buffer_capacity(128, 3000, 3072), Ok(3072));
}

#[test]
fn capacity_plan_rejects_limit_misses() {
    assert_eq!(planned_buffer_capacity(128, u32::MAX, u32::MAX - 1), Err(PrepareError::AtlasFull));
    assert_eq!(planned_buffer_capacity(128, u32::MAX, u32::MAX), Ok(u32::MAX));
}

#[test]
fn buffer_end_rejects_overflow_and_limit_misses() {
    assert_eq!(checked_buffer_end(u32::MAX, 1, u32::MAX), Err(PrepareError::AtlasFull));
    assert_eq!(checked_buffer_end(100, 1, 100), Err(PrepareError::AtlasFull));
}

#[test]
fn glyph_header_preserves_float_bits_and_packs_maxima() {
    let header = encode_glyph_header(
        [-0.0, f32::NAN, 3.5, -4.25].map(float),
        [1.0, -2.0, 0.25, f32::INFINITY].map(float),
        12,
        255,
    );
    assert_eq!(header[0] as u32, (-0.0f32).to_bits());
    assert_eq!(header[1] as u32, f32::NAN.to_bits());
    assert_eq!(header[2] as u32, 3.5f32.to_bits());
    assert_eq!(header[3] as u32, (-4.25f32).to_bits());
    assert_eq!(header[4] as u32, 1.0f32.to_bits());
    assert_eq!(header[5] as u32, (-2.0f32).to_bits());
    assert_eq!(header[6] as u32, 0.25f32.to_bits());
    assert_eq!(header[7] as u32, f32::INFINITY.to_bits());
    assert_eq!(header[8] as u32, 12 | (255 << 16));
    assert_eq!(header[9], 0);
}

#[test]
fn capacity_is_bounded_by_binding_and_buffer() {
    assert_eq!(max_buffer_capacity(8 * 1000, 8 * 500), 500);
    assert_eq!(max_buffer_capacity(8 * 100, 8 * 500), 100);
    assert_eq!(max_buffer_capacity(u64::MAX, u64::MAX), u32::MAX);
    assert_eq!(band_count_for_curves(0), band_count_for_curves(1));
    assert!(band_count_for_curves(200) >= band_count_for_curves(10));
}

fn point(x: f32, y: f32) -> [F32; 2] {
    [float(x), float(y)]
}

/// A diamond whose size tells glyphs apart.
fn diamond(size: f32) -> GlyphOutline {
    let mut builder = OutlineBuilder::new();
    builder.move_to(point(0.0, -size));
    builder.line_to(point(size, 0.0));
    builder.line_to(point(0.0, size));
    builder.quad_to(point(-size, size), point(-size, 0.0));
    builder.close();
    builder.finish().expect("four edges")
}

fn key(glyph_id: u16) -> GlyphKey {
    GlyphKey { font_id: 1, glyph_id, font_weight: 400, cache_key_flags: 0 }
}

fn words_of(atlas: &TextAtlas, glyph: u16) -> Vec<i32> {
    let start = 2 * atlas.glyph(&key(glyph)).expect("known").glyph_offset as usize;
    atlas.buffer_words()[start..start + 20].to_vec()
}

#[test]
fn outlines_are_committed_once() {
    let mut atlas = TextAtlas::new(1, 1 << 20);
    let entry = atlas
        .resolve_glyph(key(3), &GlyphSource::Outline(diamond(100.0)), float(1000.0))
        .expect("fits");
    assert_eq!(entry.glyph_offset, 0);
    assert_eq!(entry.bounds.map(native), [-100.0, -100.0, 100.0, 100.0]);
    let used = atlas.buffer_elements_used();
    assert!(used > 0);
    let again = atlas.resolve_glyph(key(3), &GlyphSource::Missing, float(1000.0)).expect("known");
    assert_eq!(again.glyph_offset, entry.glyph_offset);
    assert_eq!(atlas.buffer_elements_used(), used);
    assert_eq!(atlas.glyph_count(), 1);
    let missing = atlas.resolve_glyph(key(4), &GlyphSource::Missing, float(1000.0)).expect("recorded");
    assert!(missing.is_non_vector());
    assert_eq!(atlas.buffer_elements_used(), used);
    assert!(atlas.glyph_map().contains_key(&key(4)));
}

#[test]
fn layers_and_commands_are_installed() {
    let mut atlas = TextAtlas::new(1, 1 << 20);
    let layers = vec![
        ColorLayer { outline: Some(diamond(100.0)), color: [1.0, 0.0, 0.0, 1.0].map(float), use_foreground: false },
        ColorLayer { outline: Some(diamond(50.0)), color: [0.0; 4].map(float), use_foreground: true },
        ColorLayer { outline: None, color: [0.0; 4].map(float), use_foreground: false },
    ];
    let entry = atlas.resolve_glyph(key(1), &GlyphSource::V0Layers(layers), float(1000.0)).expect("fits");
    assert!(entry.is_color_vector());
    let installed = atlas.color_glyph(&key(1)).expect("installed");
    assert_eq!(installed.layers.len(), 2);
    assert!(installed.layers[1].use_foreground);
    let v1 = ColorV1Data { commands: vec![[1, 0, 0, 0], [9, 0, 0, 0]], sub_glyphs: vec![diamond(80.0)] };
    let entry = atlas.resolve_glyph(key(2), &GlyphSource::V1(v1), float(1000.0)).expect("fits");
    assert!(entry.is_color_v1_vector());
    let commands = atlas.color_v1_glyph(&key(2)).expect("installed");
    assert_eq!(commands.bounds.map(native), [-80.0, -80.0, 80.0, 80.0]);
    assert_eq!(commands.cmd_texel_count, 4);
    // After the header come the commands, the first with its sub-glyph's offset in
    // place of its index, then the sub-glyph with four bands a side.
    let start = 2 * commands.glyph_offset as usize;
    let words = &atlas.buffer_words()[start..];
    assert_eq!(words[0] as u32, (-80.0f32).to_bits());
    assert_eq!(&words[10..18], &[1, 4, 0, 0, 9, 0, 0, 0]);
    assert_eq!(&words[18..20], &[3 | 3 << 16, 0]);
}

#[test]
fn a_draw_of_an_unknown_outline_is_left_alone() {
    let mut atlas = TextAtlas::new(1, 1 << 20);
    let v1 = ColorV1Data { commands: vec![[2, 5, 7, 8], [1, -1, 0, 0]], sub_glyphs: vec![diamond(80.0)] };
    atlas.resolve_glyph(key(2), &GlyphSource::V1(v1), float(1000.0)).expect("fits");
    assert_eq!(&atlas.buffer_words()[10..18], &[2, 5, 7, 8, 1, -1, 0, 0]);
}

#[test]
fn a_full_atlas_refuses() {
    let mut atlas = TextAtlas::with_initial_buffer_capacity(1, 8, 8);
    assert_eq!(
        atlas.resolve_glyph(key(1), &GlyphSource::Outline(diamond(100.0)), float(1000.0)).err(),
        Some(PrepareError::AtlasFull)
    );
    assert_eq!(atlas.buffer_elements_used(), 0);
}

/// Fills a small atlas over several frames, so that most glyphs fall out of use.
fn grown() -> TextAtlas {
    let mut atlas = TextAtlas::with_initial_buffer_capacity(7, 64, 1 << 20);
    for id in 0..40u16 {
        atlas.resolve_glyph(key(id), &GlyphSource::Outline(diamond(10.0 + id as f32)), float(1000.0)).expect("fits");
    }
    atlas.flush_uploads();
    atlas
}

#[test]
fn growth_preserves_offsets_and_flushes_everything_once() {
    let mut atlas = TextAtlas::with_initial_buffer_capacity(7, 64, 1 << 20);
    atlas.resolve_glyph(key(0), &GlyphSource::Outline(diamond(10.0)), float(1000.0)).expect("fits");
    let first = words_of(&atlas, 0);
    for id in 1..40u16 {
        atlas.resolve_glyph(key(id), &GlyphSource::Outline(diamond(10.0 + id as f32)), float(1000.0)).expect("fits");
    }
    assert_eq!(words_of(&atlas, 0), first);
    let plan = atlas.flush_uploads();
    assert!(atlas.buffer_capacity() >= atlas.buffer_elements_used());
    assert_eq!(plan.end, atlas.buffer_elements_used());
    let plan = atlas.flush_uploads();
    assert_eq!(plan.start, plan.end, "nothing is left to upload");
}

#[test]
fn compaction_keeps_what_is_used_and_moves_the_generation() {
    let mut atlas = grown();
    assert_eq!(atlas.id(), 7);
    let generation = atlas.generation();
    assert!(!atlas.trim(), "everything was used in this frame");
    assert_eq!(atlas.generation(), generation);
    // From the next frame on only one glyph is drawn.
    atlas.glyph_mark_used(&key(30)).expect("known");
    let kept = words_of(&atlas, 30);
    assert!(atlas.trim());
    assert_ne!(atlas.generation(), generation);
    assert_eq!(words_of(&atlas, 30), kept);
    assert!(atlas.glyph(&key(3)).is_none());
    // An evicted glyph comes back from the cache, without its font.
    assert!(atlas.is_known(&key(3)));
    let hits = atlas.blob_cache_stats().hits;
    let entry = atlas.restore_cached_glyph(key(3)).expect("fits").expect("cached");
    assert_eq!(entry.bounds.map(native), [-13.0, -13.0, 13.0, 13.0]);
    assert_eq!(atlas.blob_cache_stats().hits, hits + 1);
    assert_eq!(words_of(&atlas, 3)[0] as u32, (-13.0f32).to_bits());
}

#[test]
fn trimming_an_empty_atlas_is_safe() {
    let mut atlas = TextAtlas::new(1, 1 << 20);
    assert!(!atlas.trim());
    assert_eq!(atlas.glyph_count(), 0);
}

#[test]
fn border_data_serves_smaller_uses_and_is_rebuilt_for_larger_ones() {
    let mut atlas = TextAtlas::new(1, 1 << 20);
    let outline = diamond(400.0);
    atlas.resolve_glyph(key(1), &GlyphSource::Outline(diamond(400.0)), float(1000.0)).expect("fits");
    assert!(atlas.border_descriptor(&key(1)).is_none());
    let first = atlas.resolve_border_blob(key(1), &outline, float(16.0), float(60.0)).expect("fits");
    assert_eq!(atlas.border_descriptor(&key(1)), Some(first));
    let used = atlas.buffer_elements_used();
    let again = atlas.resolve_border_blob(key(1), &outline, float(12.0), float(40.0)).expect("fits");
    assert_eq!((again, atlas.buffer_elements_used()), (first, used));
    let larger = atlas.resolve_border_blob(key(1), &outline, float(300.0), float(60.0)).expect("fits");
    assert_ne!(larger, first);
    assert!(atlas.buffer_elements_used() > used);
}

#[test]
fn cubics_become_four_quadratics() {
    let mut builder = OutlineBuilder::new();
    builder.move_to(point(0.0, 0.0));
    builder.curve_to(point(0.0, 4.0), point(8.0, 4.0), point(8.0, 0.0));
    builder.close();
    let outline = builder.finish().expect("curves");
    assert_eq!(outline.curves.len(), 5);
    assert_eq!(outline.curves[1].p3.map(native), [4.0, 3.0]);
    let closing: QuadCurve = outline.curves[4];
    assert_eq!((closing.p1, closing.p2, closing.p3), (point(8.0, 0.0), point(8.0, 0.0), point(0.0, 0.0)));
    assert!(OutlineBuilder::new().finish().is_none());
}

#[test]
fn italics_lean_right_above_the_baseline() {
    let base = diamond(100.0);
    let mut sheared = diamond(100.0);
    sluggrs_skylines::outline::apply_italic_shear(&mut sheared);
    for (b, s) in base.curves.iter().zip(sheared.curves.iter()) {
        for (p, q) in [(b.p1, s.p1), (b.p2, s.p2), (b.p3, s.p3)] {
            let (p, q) = (p.map(native), q.map(native));
            assert_eq!(q, [p[0] + p[1] * 0.2493, p[1]]);
        }
    }
    assert_eq!(native(sheared.bounds[3]), 100.0);
    assert_eq!(native(sheared.bounds[0]), -100.0);
}

fn with_glyphs(count: u16) -> TextAtlas {
    let mut atlas = TextAtlas::with_initial_buffer_capacity(7, 8, 1 << 20);
    for id in 0..count {
        atlas.resolve_glyph(key(id), &GlyphSource::Outline(diamond(10.0 + id as f32)), float(1000.0)).expect("fits");
    }
    atlas.flush_uploads();
    assert!(!atlas.trim(), "everything was used in this frame");
    atlas
}

#[test]
fn fewer_than_a_quarter_in_use_are_compacted() {
    // One of five is less than a quarter, one of four is not.
    let mut atlas = with_glyphs(5);
    atlas.glyph_mark_used(&key(2)).expect("known");
    assert!(atlas.trim());
    assert_eq!(atlas.glyph_count(), 1);
    let mut atlas = with_glyphs(4);
    atlas.glyph_mark_used(&key(2)).expect("known");
    assert!(!atlas.trim());
    assert_eq!(atlas.glyph_count(), 4);
    // None of three is less than a quarter.
    let mut atlas = with_glyphs(3);
    assert!(atlas.trim());
    assert_eq!(atlas.glyph_count(), 0);
}

#[test]
fn markers_hold_no_geometry() {
    let mut atlas = TextAtlas::new(1, 1 << 20);
    let layers = vec![ColorLayer { outline: Some(diamond(100.0)), color: [1.0; 4].map(float), use_foreground: false }];
    let v1 = ColorV1Data { commands: vec![[1, 0, 0, 0]], sub_glyphs: vec![diamond(80.0)] };
    let entries = [
        atlas.resolve_glyph(key(1), &GlyphSource::V0Layers(layers), float(1000.0)).expect("fits"),
        atlas.resolve_glyph(key(2), &GlyphSource::V1(v1), float(1000.0)).expect("fits"),
        atlas.resolve_glyph(key(3), &GlyphSource::Missing, float(1000.0)).expect("recorded"),
    ];
    assert!(entries[0].is_color_vector() && entries[1].is_color_v1_vector() && entries[2].is_non_vector());
    for entry in entries {
        assert_eq!(entry.bounds.map(native), [0.0; 4]);
        assert_eq!(native(entry.units_per_em), 0.0);
    }
}

#[test]
fn color_data_comes_before_the_outline() {
    let color = GlyphSource::V0Layers(vec![]);
    assert!(matches!(choose_source(Some(color), Some(diamond(1.0))), GlyphSource::V0Layers(_)));
    assert!(matches!(choose_source(None, Some(diamond(1.0))), GlyphSource::Outline(_)));
    assert!(matches!(choose_source(None, None), GlyphSource::Missing));
}

#[test]
fn a_new_atlas_has_seen_nothing() {
    for atlas in [TextAtlas::new(3, 1 << 20), TextAtlas::with_initial_buffer_capacity(3, 64, 1 << 20)] {
        let stats = atlas.blob_cache_stats();
        assert_eq!((stats.hits, stats.budget_evictions, stats.oversized_drops), (0, 0, 0));
        assert_eq!((stats.repopulated_bytes, stats.bytes), (0, 0));
        assert_eq!(atlas.glyph_map().current_frame(), 1);
        assert!(atlas.buffer_words().is_empty());
    }
}
