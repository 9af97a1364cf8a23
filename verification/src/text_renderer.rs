//! Preparation of text areas for drawing.
//!
//! A frame is prepared in three passes. The first classifies each area as one that
//! can be reused as it is, one that is moved and culled again, or one that is laid
//! out again ([`plan`], [`frame`]). The second resolves in the atlas whatever
//! glyphs and border data are missing ([`capacity`]). The third emits instances
//! and draws per area, in order ([`emit`], [`draws`], [`prepare`]).

pub mod allowance;
pub mod area;
pub mod capacity;
pub mod colors;
pub mod culling;
pub mod draws;
pub mod emit;
pub mod frame;
pub mod geometry;
pub mod keys;
pub mod kinds;
pub mod laws;
pub mod layout;
pub mod lines;
pub mod masks;
pub mod moves;
pub mod plan;
pub mod prepare;
pub mod quads;
pub mod reach;
pub mod readiness;
pub mod render;
pub mod repetition;
pub mod runs;
pub mod screen;
pub mod shadow;
