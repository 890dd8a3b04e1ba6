//! Move/merge engine of a grid-based tile-sliding puzzle.
//!
//! A square grid holds non-negative tile values (0 = empty).  A move slides
//! every tile as far as possible toward one edge, merging equal adjacent
//! tiles exactly once per merge, and reports whether anything changed.
//! The sliding algorithm, the grid accessors, and the fixed-width text
//! rendering of a grid are verified; drawing to a screen and reading input
//! are left to the embedding program.

pub mod board;
pub mod game;
pub mod line;
pub mod render;
pub mod traverse;
pub mod util;
