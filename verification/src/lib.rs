//! A verified rules engine for the board game Go on rectangular boards
//! from 2x2 up to 32x32: a fixed-capacity bit-set primitive, a
//! board-geometry layer with adjacency and flood fill, and the game state
//! machine (legality, capture, ko, reversible moves, territory scoring).

pub mod bitboard;
pub mod board;
pub mod encode;
pub mod game;
pub mod geometry;
pub mod laws;
pub mod moves;
pub mod outcome;
pub mod player;
pub mod position;
