//! A toroidal Conway's Game of Life engine, its activity monitor and its
//! pattern classifier, with contracts proved by Verus.

pub mod life;
pub mod activity;
pub mod screen;
pub mod render;
pub mod shapes;
pub mod options;
pub mod frame;
