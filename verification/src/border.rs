//! CPU preparation for lazily-created per-glyph border blobs.
pub mod bezier;
pub mod boundary;
pub mod cancel;
pub mod certify;
pub mod curve;
pub mod extract;
pub mod grid;
pub mod lookup;
pub mod pieces;
pub mod portions;
pub mod prepare;
pub mod rational;
pub mod rays;
pub mod readback;
pub mod roots;
pub mod sides;
pub mod winding;
