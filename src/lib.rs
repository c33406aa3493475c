//! Exact tilings of a rectangular board by polyomino pieces, on top of a
//! packed bit-grid representation.
//!
//! - `bitmap`: packed bit vectors and boards, with extraction, padding,
//!   stacking, overlap and union;
//! - `piece`: the piece catalog and the index of placements by anchor cell;
//! - `search`: the backtracking search for one tiling or all of them;
//! - `render`: terminal colouring of a drawn tiling;
//! - `laws`: laws that relate the bit-vector and board operations.
pub mod bitmap;
pub mod laws;
pub mod piece;
pub mod render;
pub mod search;
