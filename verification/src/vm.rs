//! The register machine: register file, instruction set, decoder,
//! opcode inference, program executor and cycle detector.

pub mod cycle;
pub mod decode;
pub mod infer;
pub mod instruction;
pub mod kind_set;
pub mod laws;
pub mod parse;
pub mod program;
pub mod register;
