//! The raster fallback.
use sluggrs_skylines::float32::F32;
use sluggrs_skylines::raster_text::atlas::{AtlasOp, RasterState, RasterWalk};
use sluggrs_skylines::raster_text::packer::RowPacker;
use sluggrs_skylines::raster_text::{
    linear_to_srgb, raster_rect_visible, to_premultiplied_rgba, ImageContent, ImageKey, NonVectorGlyph, PhysicalGlyph,
    RasterImage, RasterVertex,
};

fn float(x: f32) -> F32 {
    F32 { bits: x.to_bits() }
}

fn native(x: F32) -> f32 {
    f32::from_bits(x.bits)
}

fn visible(rect: [f32; 4], scroll: [f32; 2], clip: [i32; 4]) -> bool {
    raster_rect_visible(rect.map(float), scroll.map(float), clip)
}

#[test]
fn raster_culling_applies_scroll_to_position_not_clip() {
    let rect = [100.0, 100.0, 10.0, 10.0];
    let clip = [0, 0, 50, 50];
    // Off-clip without scroll, brought into view by negative scroll.
    assert!(!visible(rect, [0.0, 0.0], clip));
    assert!(visible(rect, [-60.0, -60.0], clip));
    // Pushed out the other side by enough scroll.
    assert!(!visible(rect, [-111.0, -60.0], clip));
    // Fractional scroll at the exact inclusive edge.
    assert!(visible(rect, [-110.0, -60.0], clip));
}

#[test]
fn rectangles_are_packed_in_rows_with_a_gutter() {
    let mut packer = RowPacker::new(20, 20);
    assert_eq!(packer.allocate(8, 5), Some((0, 0)));
    assert_eq!(packer.allocate(8, 7), Some((9, 0)));
    assert_eq!(packer.allocate(8, 3), Some((0, 8)));
    assert_eq!(packer.allocate(0, 3), None);
    assert_eq!(packer.allocate(21, 3), None);
    assert_eq!(packer.allocate(8, 12), None, "no room below");
    assert_eq!(packer.allocate(20, 3), Some((0, 12)), "a full row");
    packer.reset(40, 40);
    assert_eq!(packer.allocate(39, 39), Some((0, 0)));
    assert_eq!(packer.allocate(1, 1), None);
}

#[test]
fn packed_rectangles_never_overlap() {
    let mut packer = RowPacker::new(64, 64);
    let mut placed: Vec<(u32, u32, u32, u32)> = Vec::new();
    for i in 0..60u32 {
        let (w, h) = (1 + i * 7 % 13, 1 + i * 5 % 11);
        if let Some((x, y)) = packer.allocate(w, h) {
            let (x, y) = (x as u32, y as u32);
            assert!(x + w <= 64 && y + h < 64);
            for (a, b, c, d) in &placed {
                assert!(a + c < x || b + d < y, "a gutter separates them");
            }
            placed.push((x, y, w, h));
        }
    }
    assert!(placed.len() > 20);
}

#[test]
fn encoded_bytes_match_the_transfer_function() {
    for v in 0..=255u8 {
        let linear = v as f64 / 255.0;
        let srgb = if linear <= 0.0031308 { linear * 12.92 } else { 1.055 * linear.powf(1.0 / 2.4) - 0.055 };
        assert_eq!(linear_to_srgb(v), (srgb * 255.0 + 0.5) as u8, "{v}");
    }
    assert_eq!((linear_to_srgb(0), linear_to_srgb(1), linear_to_srgb(128), linear_to_srgb(255)), (0, 13, 188, 255));
}

fn image(width: u32, height: u32, content: ImageContent, data: Vec<u8>) -> RasterImage {
    RasterImage { left: 2, top: 9, width, height, content, data }
}

#[test]
fn masks_become_encoded_white_and_colors_are_weighted() {
    let mask = to_premultiplied_rgba(&image(2, 1, ImageContent::Mask, vec![0, 128]));
    assert_eq!(mask, vec![0, 0, 0, 0, 188, 188, 188, 128]);
    let color = to_premultiplied_rgba(&image(1, 1, ImageContent::Color, vec![200, 100, 50, 128, 7, 7]));
    assert_eq!(color, vec![100, 50, 25, 128, 7, 7]);
    let native = |v: u8, a: u8| (v as f32 * (a as f32 / 255.0)) as u8;
    for v in 0..=255u8 {
        for a in [0u8, 1, 17, 127, 200, 254, 255] {
            let pixel = to_premultiplied_rgba(&image(1, 1, ImageContent::Color, vec![v, 0, 0, a]));
            assert_eq!(pixel[0], native(v, a));
        }
    }
}

fn glyph(image: u128, x: i32, y: i32) -> NonVectorGlyph {
    NonVectorGlyph {
        physical: PhysicalGlyph { image, x, y },
        color: [0.5, 0.25, 1.0, 0.5].map(float),
        depth: float(0.75),
        line_y_scaled_rounded: float(20.0),
        clip_bounds: [0, 0, 800, 600],
    }
}

fn mask(width: u32, height: u32) -> RasterImage {
    image(width, height, ImageContent::Mask, vec![255; (width * height) as usize])
}

#[test]
fn glyphs_are_entered_once_and_drawn_each_time() {
    let mut state = RasterState::new(4096);
    let glyphs = [glyph(1, 10, 5), glyph(1, 40, 5), glyph(2, 70, 5)];
    let images = [Some(mask(8, 8)), Some(mask(8, 8)), None];
    let out = state.rasterize_glyphs(&glyphs, &images, [float(0.0), float(0.0)]);
    assert_eq!(out.vertices.len(), 2);
    assert_eq!(out.ops.len(), 1);
    assert!(matches!(&out.ops[0], AtlasOp::Write { x: 0, y: 0, width: 8, height: 8, rgba } if rgba.len() == 256));
    let v = out.vertices[0];
    assert_eq!(v.screen_pos.map(native), [12.0, 20.0 + 5.0 - 9.0]);
    assert_eq!(v.screen_size.map(native), [8.0, 8.0]);
    assert_eq!(v.atlas_size.map(native), [8.0 / 1024.0, 8.0 / 1024.0]);
    assert_eq!(v.color.map(native), [0.25, 0.125, 0.5, 0.5]);
    assert_eq!(native(v.depth), 0.75);
    assert_eq!(state.cached_count(), 1);
    // The second frame finds the image in the atlas.
    let again = state.rasterize_glyphs(&glyphs, &images, [float(0.0), float(0.0)]);
    assert!(again.ops.is_empty());
    assert_eq!(again.vertices.len(), 2);
}

#[test]
fn color_images_are_tinted_by_alpha_only() {
    let mut state = RasterState::new(4096);
    let images = [Some(image(1, 1, ImageContent::Color, vec![255; 4]))];
    let out = state.rasterize_glyphs(&[glyph(1, 10, 5)], &images, [float(0.0), float(0.0)]);
    assert_eq!(out.vertices[0].color.map(native), [0.5, 0.5, 0.5, 0.5]);
}

#[test]
fn a_full_atlas_grows_and_starts_over() {
    let mut state = RasterState::new(4096);
    let glyphs = [glyph(1, 10, 5), glyph(2, 40, 5)];
    let images = [Some(mask(1000, 700)), Some(mask(1000, 700))];
    let out = state.rasterize_glyphs(&glyphs, &images, [float(0.0), float(0.0)]);
    assert_eq!(state.atlas_size(), 2048);
    assert_eq!(out.vertices.len(), 2);
    assert!(matches!(out.ops[1], AtlasOp::Resize(2048)));
    assert_eq!(native(out.vertices[0].atlas_size[0]), 1000.0 / 2048.0);
    assert_eq!(out.vertices.iter().filter(|v| native(v.atlas_pos[0]) == 0.0 && native(v.atlas_pos[1]) == 0.0).count(), 1);
    assert_eq!(state.cached_count(), 2);
}

#[test]
fn a_glyph_beyond_the_limit_is_left_out() {
    let mut state = RasterState::new(1024);
    let glyphs = [glyph(1, 10, 5), glyph(2, 40, 5)];
    let images = [Some(mask(1, 2000)), Some(mask(4, 4))];
    let out = state.rasterize_glyphs(&glyphs, &images, [float(0.0), float(0.0)]);
    assert_eq!(out.vertices.len(), 1);
    assert_eq!(state.atlas_size(), 1024);
}

#[test]
fn an_enlarged_atlas_shrinks_when_hardly_used() {
    let mut state = RasterState::new(4096);
    let mut glyphs: Vec<NonVectorGlyph> = (0..8).map(|i| glyph(i, 10, 5)).collect();
    let images: Vec<Option<RasterImage>> = (0..8).map(|_| Some(mask(500, 300))).collect();
    state.rasterize_glyphs(&glyphs, &images, [float(0.0), float(0.0)]);
    assert!(state.atlas_size() > 1024);
    assert!(!state.trim(), "all images are in use");
    glyphs.truncate(1);
    state.rasterize_glyphs(&glyphs, &images[..1], [float(0.0), float(0.0)]);
    assert!(state.trim());
    assert_eq!((state.atlas_size(), state.cached_count()), (1024, 0));
}

#[test]
fn positions_beyond_the_integers_are_told() {
    assert!(RasterState::is_placeable(&glyph(1, 0, 0)));
    assert!(!RasterState::is_placeable(&glyph(1, i32::MAX, 0)));
    assert!(!RasterState::is_placeable(&glyph(1, 0, i32::MIN)));
}

#[test]
fn image_keys_come_back() {
    let key = ImageKey {
        font: 0xfedc_ba98,
        glyph_id: 0x1234,
        font_size_bits: 16.5f32.to_bits(),
        font_weight: 700,
        x_bin: 3,
        y_bin: 1,
        flags: 5,
    };
    assert!(key.is_packable());
    assert_eq!(ImageKey::unpacked(key.packed()), key);
    assert_eq!(ImageKey { font: 7, glyph_id: 0, font_size_bits: 0, font_weight: 0, x_bin: 0, y_bin: 0, flags: 0 }.packed(), 7);
    assert_ne!(ImageKey { y_bin: 2, ..key }.packed(), key.packed());
    assert!(!ImageKey { x_bin: 4, ..key }.is_packable());
    assert!(!ImageKey { flags: 1 << 28, ..key }.is_packable());
}

/// Places glyphs one by one and fetches only the images that the atlas lacks.
fn place_all(state: &mut RasterState, glyphs: &[NonVectorGlyph], images: &[RasterImage]) -> (RasterWalk, usize) {
    let mut walk = state.begin_walk();
    let mut fetched = 0;
    loop {
        for (g, i) in glyphs.iter().zip(images) {
            let image = match state.has_image(g.physical.image) {
                true => None,
                false => Some(mask(i.width, i.height)),
            };
            fetched += usize::from(image.is_some());
            state.place_glyph(&mut walk, g, &image, [float(0.0), float(0.0)]);
        }
        if walk.is_settled() {
            return (walk, fetched);
        }
    }
}

#[test]
fn images_on_demand_are_placed_as_all_at_once() {
    let sizes = [400, 700, 8, 700, 300];
    let glyphs: Vec<NonVectorGlyph> = (0..5).map(|i| glyph(i as u128, 10 * i, 5)).collect();
    let images: Vec<RasterImage> = sizes.iter().map(|s| mask(*s, *s)).collect();
    let all: Vec<Option<RasterImage>> = sizes.iter().map(|s| Some(mask(*s, *s))).collect();
    let mut one = RasterState::new(4096);
    let mut other = RasterState::new(4096);
    let (walk, _) = place_all(&mut one, &glyphs, &images);
    let out = other.rasterize_glyphs(&glyphs, &all, [float(0.0), float(0.0)]);
    assert_eq!(one.atlas_size(), 2048);
    assert_eq!(one.atlas_size(), other.atlas_size());
    assert_eq!(one.used(), other.used());
    assert_eq!(walk.ops.len(), out.ops.len());
    let places = |v: &[RasterVertex]| v.iter().map(|v| (v.screen_pos, v.atlas_pos, v.atlas_size)).collect::<Vec<_>>();
    assert_eq!(places(&walk.vertices), places(&out.vertices));
    assert_eq!(walk.vertices.len(), 5);
    // The next frame needs no image at all.
    let (again, fetched) = place_all(&mut one, &glyphs, &images);
    assert_eq!(fetched, 0);
    assert!(again.ops.is_empty());
    assert_eq!(places(&again.vertices), places(&walk.vertices));
}

#[test]
fn heights_beyond_the_packer_find_no_room() {
    let mut packer = RowPacker::new(20, 20);
    for h in [20, 0x7fff_ffff, 0x8000_0000, u32::MAX - 1] {
        assert_eq!(packer.allocate(8, h), None);
    }
    assert_eq!(packer.allocate(8, 19), Some((0, 0)));
    let mut packer = RowPacker::new(u32::MAX, u32::MAX);
    assert_eq!(packer.allocate(u32::MAX - 1, 5), Some((0, 0)));
    assert_eq!(packer.allocate(4, u32::MAX - 1), None);
    assert_eq!(packer.allocate(4, 9), Some((0, 6)));
    let mut state = RasterState::new(u32::MAX);
    let out = state.rasterize_glyphs(&[glyph(1, 10, 5)], &[Some(mask(8, 8))], [float(0.0), float(0.0)]);
    assert_eq!(out.vertices.len(), 1);
}
