//! A verified execution core for the piet programming language: programs are
//! rectangular grids of colored cells ("codels").  The library classifies RGB
//! input into codels, partitions the grid into maximal same-colored regions,
//! precomputes each region's direction-dependent exit cells, and steps a stack
//! machine whose instructions are decoded from color transitions.
//!
//! The engine itself performs no input or output: instructions that need a
//! byte or a line of text park the machine in a pending state until the host
//! supplies the data, and instructions that produce text append bytes to an
//! output buffer that the host drains.

pub mod block;
pub mod block_exit;
pub mod cmd_options;
pub mod codec;
pub mod codel;
pub mod command;
pub mod counters;
pub mod interpreter;
pub mod utils;
