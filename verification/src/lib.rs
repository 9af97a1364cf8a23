//! GPU vector text: the logic around the Slug algorithm.
//!
//! Glyph outlines reach the GPU as quadratic curves and are evaluated per pixel,
//! so text needs no bitmap atlas. This crate holds what runs on the CPU: packing
//! curves and bands into the glyph buffer, the boundary data of borders, the
//! atlas with its compaction and its cache of evicted glyphs, the preparation of
//! text areas with their decorations, and the raster fallback for glyphs without
//! outlines. It talks to no GPU and reads no files: it takes plain values and
//! returns plans for its caller to carry out.
//!
//! Floating-point values are held as bit patterns and computed on with integer
//! arithmetic, see [`float32`].

pub mod band;
pub mod blob_cache;
pub mod blur;
pub mod border;
pub mod float32;
pub mod float64;
pub mod font;
mod fx;
pub mod glyph_cache;
pub mod gpu_cache;
pub mod lists;
pub mod ordering;
pub mod outline;
pub mod packing;
pub mod prep;
pub mod raster_text;
pub mod readback;
pub mod symmetry;
pub mod text_atlas;
pub mod text_renderer;
pub mod types;
pub mod viewport;
pub mod wide;

pub use blob_cache::BlobCacheStats;
pub use glyph_cache::GlyphKey;
pub use text_atlas::TextAtlas;
pub use text_renderer::frame::TextRenderer;
pub use text_renderer::geometry::GlyphInstance;
pub use types::{
    ColorMode, DecorationError, DecorationMode, PrepareError, RenderError, Resolution, TextArea,
    TextBounds, TextDecoration, validate_decorations,
};
pub use viewport::Viewport;
