//! Lazy pre-decoding of interpreter bytecode: basic blocks are decoded on
//! first use and cached, with a switch to eager decoding once most blocks
//! have been seen.

pub mod bitmask;
pub mod bytes;
pub mod inst;
pub mod isa;
pub mod layout;
pub mod program;

pub mod interpreter;
pub mod laws;
