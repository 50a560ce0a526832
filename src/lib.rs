//! A shared grid maze that players explore one step at a time, with a compass
//! that reports free runs along the four axes and a hint toward a fixed present.

pub mod data;
pub mod rng;
pub mod count;
pub mod grid;
pub mod maze;
pub mod player;
