//! An informed-search (A*) engine over caller-defined state spaces,
//! together with a grid-map domain built on top of it.

pub mod coord;
pub mod grid;
pub mod search;
pub mod state;
pub mod tile;
