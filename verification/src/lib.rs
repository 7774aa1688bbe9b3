//! A sparse Conway's Game of Life engine with a pan/zoom camera, an
//! incremental pixel renderer and a pattern-file reader.

pub mod camera;
pub mod collections;
pub mod config;
pub mod controls;
pub mod hud;
pub mod input;
pub mod pattern;
pub mod raster;
pub mod renderer;
pub mod text;
pub mod universe;
