//! Content-aware image narrowing by seam carving.
//!
//! A [`PixelGrid`] is measured with the dual-gradient energy, a minimum-cost
//! vertical seam is found by dynamic programming, and the seam is cut out. An
//! [`OriginalAlgo`] repeats that cycle on a working grid of its own, and a
//! [`SeamHistory`] records the seams so that any intermediate width can be
//! rebuilt from the untouched first grid.

pub mod algo;
pub mod energy;
pub mod grid;
pub mod history;
pub mod removal;
pub mod seam;

pub use algo::{OriginalAlgo, MIN_WIDTH};
pub use grid::{CarveError, PixelGrid};
pub use history::{is_valid_seam, SeamHistory};
pub use seam::find_seam;
