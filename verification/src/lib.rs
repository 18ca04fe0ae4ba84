//! Tables for scanline-timed colour gradients.
//!
//! A table is a sequence of rows. Each row holds either one value that stays
//! for a number of scanlines, or one value per scanline. The crate takes the
//! colours of a column of an image, makes tables of one-scanline rows of
//! them, merges the rows into as few rows as the row shapes allow and writes
//! the result as the lines of an assembly listing.

pub mod coalesce;
pub mod coalesce_proofs;
pub mod colour;
pub mod column;
pub mod hdma;
pub mod listing;
pub mod listing_proofs;
pub mod reading;
pub mod scanlines;
