//! A terminal dice roller: its notation, its rules and its state.

pub mod app;
pub mod arena;
pub mod bake;
pub mod chrome;
pub mod cli;
pub mod edit;
pub mod frame;
pub mod glyph;
pub mod graphics;
pub mod keep;
pub mod keys;
pub mod launch;
pub mod lines;
pub mod notation;
pub mod paint;
pub mod parse;
pub mod play;
pub mod pool;
pub mod reading;
pub mod rng;
pub mod roll;
pub mod solids;
pub mod stats;
pub mod text;
