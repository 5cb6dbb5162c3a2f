//! A Brainfuck interpreter: a tokenizer, a bracket-matching parser that builds
//! an instruction tree, and an execution engine over a wrapping byte tape.

pub mod token;
pub mod brainfuck;
pub mod instruction;
pub mod engine;
pub mod utils;
