//! A solver for binary puzzles (Takuzu, Binairo): grids of `0`, `1` and
//! unknown cells in which no three neighbours in a lane agree, every lane
//! holds as many zeros as ones, and no two rows or columns are the same.

pub mod cell;
pub mod error;
pub mod index;
pub mod lane;
pub mod model;
pub mod grid;
pub mod validate;
pub mod propagate;
pub mod lookahead;
pub mod search;
pub mod solve;
pub mod parse;
pub mod render;
pub mod laws;
