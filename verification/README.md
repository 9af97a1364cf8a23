# sluggrs_skylines

The CPU side of GPU vector text with the Slug algorithm, verified with Verus.

Glyph outlines are uploaded as quadratic curves and evaluated per pixel by the
shaders, so text stays sharp at every size and needs no bitmap atlas. What
surrounds the shaders is a good deal of bookkeeping, and that is what this crate
holds and proves: which bytes are uploaded, where they lie, which cached data may
be reused, and what is drawn in which order.

## Layout

| Path | What it holds |
| --- | --- |
| `src/float32.rs`, `src/float64.rs` | IEEE 754 arithmetic on bit patterns, correctly rounded |
| `src/band.rs`, `src/band/`, `src/prep.rs`, `src/packing.rs` | curve and band data of a glyph |
| `src/border/` | boundary extraction and distance grids for outlines and shadows |
| `src/glyph_cache.rs`, `src/blob_cache.rs`, `src/text_atlas/` | the atlas, its compaction and the cache of evicted glyphs |
| `src/text_renderer/` | preparation of text areas: reuse, culling, instances, draw order |
| `src/raster_text/`, `src/blur.rs`, `src/viewport.rs`, `src/gpu_cache.rs` | raster fallback, blurred shadows, uniforms, depth state |
| `src/outline.rs`, `src/font.rs`, `src/types.rs` | outlines, font metrics and the values that cross the boundary |
| `tests/` | tests, among them a comparison of the arithmetic with the machine's |
| `app/` | wgpu, cosmic-text and skrifa around the library |

The library never talks to a GPU or to the file system. It takes plain values and
returns plans: buffers to allocate, ranges to write, draws to issue. `app/` carries
the plans out.

## Reading the proofs

A function's contract says what it computes in terms of spec functions that stand
next to it. Statements that relate several functions are public proof functions
whose names begin with `law_`. What is believed without proof is small: the hash
maps of `rustc_hash` (`src/fx.rs`) and two reads of font tables with `skrifa`
(`src/font.rs`).
