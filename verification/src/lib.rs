//! Puzzle solutions built around a small register machine: a fixed
//! instruction set over a register file, a decoder, a deduction of the
//! opcode numbering from observed samples, and an executor with an
//! instruction pointer bound to a register.

pub mod error;
pub mod solutions;
pub mod util;
pub mod vm;
