//! An evolutionary engine that approximates a target raster image by
//! repeatedly selecting straight colored lines and painting them onto a
//! canvas. Colors are compared with a fixed-point perceptual metric
//! (sRGB linearization, Lab conversion, CIE difference), candidates are
//! evolved by random mutation, ranked by length-normalized improvement,
//! deduplicated, and the per-epoch elite set is committed to the canvas.

pub mod color;
pub mod raster;
pub mod candidate;
pub mod evaluate;
pub mod evolve;
pub mod commit;
pub mod engine;

pub use color::Rgb;
pub use raster::{Raster, RasterError};
pub use candidate::Candidate;
