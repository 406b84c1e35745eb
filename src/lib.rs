//! An interpreter for an eight-instruction tape-machine language: parsing,
//! peephole optimisation, jump resolution and execution against a fixed tape.
pub mod cpu;
pub mod op;
pub mod optimise;
pub mod parse;
pub mod pipeline;
pub mod resolve;
