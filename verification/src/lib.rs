//! Splimer: splits a file into bounded-size fragments and merges them back.
//!
//! The crate holds the verified core: the memory-value mini-language parser,
//! the command-line configuration parser, the deterministic fragment naming
//! scheme, the fragment planner, and the byte-exact split/merge engine.
//! File handles and process glue live outside, in the program that drives
//! these functions.

pub mod cli;
pub mod engine;
pub mod memory;
pub mod names;
pub mod plan;
