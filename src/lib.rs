//! An instruction-level simulator for a small 32-bit MIPS-like load/store
//! architecture: instruction decoding, a set-associative write-back cache in
//! front of flat memory, and a processor core that fetches, decodes and
//! executes one instruction at a time.

pub mod instructions;
pub mod memory;
pub mod cache;
pub mod processor;
pub mod simulator;
pub mod program;
