//! Helpers shared by the solutions: text, patterns, grids.

pub mod file;
pub mod mat2;
pub mod pattern;
pub mod text;
