//! A verified HashLife engine: Conway's Game of Life on an unbounded grid,
//! advanced by `2^k` generations per operation over a hash-consed quadtree.

pub mod arith;
pub mod basic_state;
pub mod hashlife;
pub mod laws;
pub mod life;
pub mod p3;
pub mod pattern;
pub mod state;
pub mod step;
pub mod universe;

pub use crate::basic_state::BasicState;
pub use crate::hashlife::HashLife;
pub use crate::p3::P3;
pub use crate::state::State;
pub use crate::universe::{Tree, TreeRef, Universe};
