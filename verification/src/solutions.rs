//! The puzzles, one module each.

pub mod solution_01;
pub mod solution_02;
pub mod solution_03;
pub mod solution_04;
pub mod solution_05;
pub mod solution_06;
pub mod solution_07;
pub mod solution_08;
pub mod solution_09;
pub mod solution_10;
pub mod solution_11;
pub mod solution_12;
pub mod solution_13;
pub mod solution_14;
pub mod solution_15;
pub mod solution_16;
pub mod solution_17;
pub mod solution_18;
pub mod solution_19;
pub mod solution_20;
pub mod solution_21;
pub mod solution_22;
pub mod solution_23;
pub mod solution_24;
pub mod solution_25;
