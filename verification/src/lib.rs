pub mod math;
pub mod vec3;
pub mod accum;
pub mod boid;
pub mod select;
pub mod tree;
pub mod motion;
pub mod rng;
pub mod sim;

pub use accum::{Accumulator, AccumulatorHalf, Group};
pub use boid::Boid;
pub use motion::MotionParams;
pub use select::SelectParams;
pub use sim::{Settings, SimError, Simulation};

use vstd::prelude::*;

verus! {

/// Number of simulated agents contributed by each work group.
pub const LOCAL_X: u32 = 16;

/// Fixed-point scale: the integer that stands for 1.0.
pub const SCALE: i64 = 65536;

} // verus!
