//! A toolchain for a minimal tape language: a bracket matcher, a tape machine
//! that executes instruction streams, and a peephole optimizer with a code
//! generator that emits an equivalent C program.
//!
//! The machine is specified by a step function on mathematical states
//! (`machine`). The laws of the library are proved in `laws` (cell
//! arithmetic and bounds), `equivalence` (the optimizer keeps what a stream
//! does) and `idempotence` (optimizing twice changes nothing further). The
//! modules `effect`, `runs`, `outputs`, `simple` and `simulation` hold what
//! these proofs are built from.
pub mod args;
pub mod brackets;
pub mod codegen;
pub mod effect;
pub mod equivalence;
pub mod error;
pub mod idempotence;
pub mod laws;
pub mod machine;
pub mod optimizer;
pub mod outputs;
pub mod runs;
pub mod simple;
pub mod simulation;
pub mod source;
pub mod text;

pub use crate::args::{
    parse_args, validate_args, ArgError, ArgFlags, Args, Flag, NumberError, Parse,
};
pub use crate::brackets::{match_brackets, JumpTable};
pub use crate::codegen::{compile, generate, translate};
pub use crate::error::Error;
pub use crate::machine::{
    eval, eval_with_keys, interpret, submit, Machine, Program, Status, Submission,
};
pub use crate::optimizer::{expand, optimize, Sym, Token};
pub use crate::source::get_code;
