//! A chunked falling-sand simulation: a fixed layout of square chunks, each a
//! dense grid of cells with a display buffer kept in step, updated once per
//! tick in four checkerboard phases; and the timers that say when a tick is
//! due.

use vstd::prelude::*;

pub mod events;
pub mod scheduling;
pub mod simulation;
pub mod tick;

pub use scheduling::{DueEvents, FrameScheduler};
pub use simulation::cell::Cell;
pub use simulation::chunk::{Chunk, ChunkPos, HALO_DIRECTIONS};
pub use simulation::grid::{CellGrid, GridPos, CHUNK_SIZE, NUM_CELLS_IN_CHUNK};
pub use simulation::jobs::PhaseJob;
pub use simulation::material::{CellColor, Material};
pub use simulation::rules::WARMUP_TICKS;
pub use simulation::{chunk_index, Simulation, WorldPos, NUM_CHUNKS, NUM_CHUNKS_TOTAL};
pub use tick::TickTiming;

verus! {

} // verus!
