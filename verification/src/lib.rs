//! A falling-sand particle simulation: a dense grid of cells (empty, sand,
//! or immovable block) advanced one frame at a time, with a coarse per-room
//! hotness overlay that limits each frame's work to regions that changed
//! recently.

pub mod datatype;
pub mod rng;
pub mod toolbox;
pub mod world_grid;
