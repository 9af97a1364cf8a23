//! Laid-out text, as the renderer reads it.
use vstd::prelude::*;
use crate::float32::F32;
use crate::glyph_cache::GlyphKey;
use crate::raster_text::PhysicalGlyph;

verus! {

/// A positioned glyph of a run, in logical pixels.
#[derive(Clone, Copy, Debug)]
pub struct LayoutGlyph {
    pub key: GlyphKey,
    pub font_size: F32,
    pub x: F32,
    pub x_offset: F32,
    pub y_offset: F32,
    /// `0xAARRGGBB`, or `None` for the area's default.
    pub color: Option<u32>,
    pub depth: F32,
    /// The glyph's image and its place on the pixel grid, for glyphs that are
    /// drawn from images.
    pub physical: PhysicalGlyph,
}

/// A visual line of glyphs, in logical pixels.
#[derive(Debug)]
pub struct LayoutRun {
    pub line_top: F32,
    pub line_height: F32,
    pub line_y: F32,
    pub glyphs: Vec<LayoutGlyph>,
}

}
