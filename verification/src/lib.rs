//! A verified interpreter for a minimal tape-based language: eight
//! single-character instructions act on a fixed tape of 30,000 byte cells
//! through a movable data pointer, with bracket pairs as the only control
//! flow. Source text is parsed into an instruction sequence, shortened by
//! a peephole optimizer, and executed by a stack machine against in-memory
//! byte streams; the execution is proved to follow a small-step machine
//! model exactly.

pub mod equivalence;
pub mod instruction;
pub mod interpreter;
pub mod machine;
pub mod optimizer;
pub mod parser;

pub use crate::instruction::Instruction;
pub use crate::interpreter::Brainfuck;
pub use crate::machine::Error;
