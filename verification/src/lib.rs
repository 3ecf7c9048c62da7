//! Verified solvers for a handful of number and text puzzles: a marble game
//! played on a ring, frequency drift, box labels, fabric claims and a
//! license tree.

pub mod error;
pub mod text;
pub mod pattern;
pub mod circle;
pub mod array_circle;
pub mod deque_circle;
pub mod game;
pub mod setup;
pub mod frequency;
pub mod box_ids;
pub mod license;
pub mod flags;
pub mod fabric;
