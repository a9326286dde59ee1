//! A wrapping Conway's Game of Life universe for multiple players, with walls,
//! per-player fog of war and a circular buffer of generations.

pub mod region;
pub mod cell_state;
pub mod bitwise;
pub mod bit_grid;
pub mod gen_state;
pub mod fog;
pub mod universe;
pub mod life;
pub mod rle;
