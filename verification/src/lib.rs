//! Extraction of a small, ranked palette of representative colours from a
//! raster image.
//!
//! An image is resampled to a grid of 30 by 30 pixels. The colours of the grid
//! are counted and ranked by frequency, and a walk along the ranking keeps
//! each colour that is similar to none of those kept before it: these are the
//! palette. A palette can be shown as a list of swatches for a terminal, as
//! records of channels and hexadecimal notation, or as an image with one block
//! for each entry.
//!
//! The colour metrics (hue, luminance, saturation, relative luminance) and the
//! perceptual distance built from them are specified over the real numbers and
//! computed exactly, as fractions of integers.
//!
//! - [`color`]: the colour type and its metrics.
//! - [`ratio`]: exact fractions.
//! - [`similarity`]: the distance of two colours and the similarity test.
//! - [`raster`]: images as bytes, and the resampling to the grid.
//! - [`ranking`]: counting and ranking the colours of the samples.
//! - [`palette`]: the choice of the palette from the ranking.
//! - [`text`]: hexadecimal notation, labels, swatches, lists and records.
//! - [`strip`]: the palette as an image.

pub mod color;
pub mod palette;
pub mod ranking;
pub mod raster;
pub mod ratio;
pub mod similarity;
pub mod strip;
pub mod text;

pub use color::Color;
pub use palette::get_palette;
pub use raster::Raster;
pub use ratio::Ratio;
