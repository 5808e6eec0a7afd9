//! Rules engine of a 2048-style tile-merging puzzle on a square grid.
//!
//! The grid holds references to tiles; a slide in one of four directions
//! compacts every line of the grid toward one edge, merging equal neighbours
//! pairwise. Every executable function carries a contract that is proved
//! against a mathematical model of the grid.
//!
//! Two contracts are taken on trust and not proved: those of the two calls
//! into the random number generator, in the module `spawn`.

pub mod board;
pub mod components;
pub mod game;
pub mod game_laws;
pub mod grid;
pub mod input;
pub mod movement;
pub mod resolver;
pub mod resolver_laws;
pub mod rotation;
pub mod row;
pub mod row_laws;
pub mod spawn;
pub mod states;
pub mod terminal;
