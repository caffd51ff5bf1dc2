//! Maze construction: the grid of cells and the generation algorithms.

pub mod aldous_broder;
pub mod backtracker;
pub mod cells;
pub mod grid;
pub mod hunt_and_kill;
pub mod maze;
pub mod random;
pub mod render;
pub mod sidewinder;
pub mod sweep;
pub mod tree;
pub mod visited;
pub mod wilsons;

pub use aldous_broder::{aldous_broder, aldous_broder_seeded, aldous_broder_within};
pub use backtracker::{backtracker, backtracker_seeded};
pub use hunt_and_kill::{hunt_and_kill, hunt_and_kill_seeded};
pub use sidewinder::{sidewinder, sidewinder_seeded};
pub use wilsons::{wilsions_seeded, wilsons, wilsons_within};
