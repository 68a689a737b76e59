//! Document model and codec for the "3a" animated ASCII-art format.
//!
//! An animation is a sequence of equally sized grids of cells ("frames"),
//! each cell holding a validated text character and an optional color
//! reference into a palette, together with a header of metadata.  The
//! line-oriented text format has a modern block-structured dialect and a
//! legacy fixed-width dialect; both are parsed here, and documents are
//! written back out losslessly.

pub mod art;
pub mod chars;
pub mod colors;
pub mod delay;
pub mod error;
pub mod content;
pub mod header;
pub mod helpers;
pub mod palette;
pub mod text;
