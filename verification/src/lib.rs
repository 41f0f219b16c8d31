//! Exact-cover puzzle solver: places a fixed set of polyomino tiles onto a
//! partially masked rectangular board so that every allowed cell is covered
//! by exactly one tile cell.

pub mod grid;
pub mod shape;
pub mod tile;
pub mod solver;
pub mod session;
