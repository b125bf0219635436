//! A sparse, unbounded grid of live cells for a Game-of-Life style world.
//!
//! The live cells are kept in a self-balancing quadtree ([`QTree`]) that grows
//! its boundary on demand, subdivides crowded regions and merges sparse ones.
//! An [`Updater`] owns the working generation and hands out immutable
//! snapshots of it; [`Modifiers`] tracks the modifier keys held on the input
//! side.

pub mod geometry;
pub mod input;
pub mod laws;
pub mod qtree;
pub mod region;
pub mod updater;

pub use geometry::{point_minmax, Point, AABB};
pub use input::{Action, Key, Modifiers};
pub use qtree::QTree;
pub use updater::Updater;
