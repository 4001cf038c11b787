//! Conway's Game of Life on a torus: the transition rule, the history of
//! generations, the stagnation policy, and the encodings in which a history
//! is stored and drawn.

pub mod codec;
pub mod config;
pub mod crud;
pub mod driver;
pub mod error;
pub mod grid;
pub mod parse_state_error;
pub mod plan;
pub mod png;
pub mod render;
pub mod round_trip;
pub mod rule;
pub mod seed;
pub mod snapshot;
pub mod state;
pub mod svg;
pub mod text;
pub mod txt;
