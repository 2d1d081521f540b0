//! Discrete-time propagation of logic signals through a sparse 3D grid of
//! typed blocks. Each tick re-evaluates the blocks that may have changed and
//! reports the ones that did.

pub mod block;
pub mod engine;
pub mod geometry;
pub mod laws;
pub mod rules;
pub mod sim;
pub mod wire;
pub mod world;

pub use block::{output_towards, BlockKind, Connectable};
pub use engine::{BlockChange, Engine};
pub use geometry::{dir_from_to, Direction, Pos};
pub use sim::{default_true, simulate, SimRequest, SimResponse, Termination, TickDiff};
pub use world::{BlockMap, PlacedBlock, World};
