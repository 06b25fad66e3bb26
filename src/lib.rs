//! Floyd-Steinberg error diffusion onto a fixed palette.
//!
//! `color` holds pixels, quantization errors and the palette; `shared` the
//! window through which a row hands its finished cells to the row below;
//! `worker` the per-row state machine; `dither` the whole-image pass and
//! what it computes; `pipeline` the same pass with the rows' work
//! interleaved in any order, as threads would run it.

pub mod color;
pub mod dither;
pub mod mutable;
pub mod pipeline;
pub mod shared;
pub mod worker;
