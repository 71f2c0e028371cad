//! A tape machine toolkit: raw primitive programs, their coalesced form,
//! an interpreter for the coalesced form, and a compiler from a small
//! variable language down to it.

pub mod brainfuck;
pub mod desugared_brainfuck;
pub mod interpreter;
pub mod low_intermediate;
pub mod parser;
pub mod laws;
