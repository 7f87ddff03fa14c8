//! A bytecode compiler and interpreter for Brainfuck.
//!
//! Source text is translated in one pass into a sequence of [`Comm`]
//! instructions: pointer moves are folded into offsets, runs of `+` and `-`
//! into single additions, `[-]` into a direct clear, and every loop bracket
//! is resolved to the index of its partner. A [`Machine`] then executes that
//! sequence on a tape of byte cells.
//!
//! Every function is stated against a mathematical model and proved to
//! compute it:
//!
//! - [`comm`]: the instructions and the faults;
//! - [`scan`]: what the program of a source text is ([`translate`]);
//! - [`nesting`]: that the jumps of such a program pair up and nest;
//! - [`balance`]: that a source text has a program exactly if its brackets
//!   balance;
//! - [`bytecode`]: the translator ([`compile`]);
//! - [`machine`]: what an instruction does ([`step_of`]), what a run comes
//!   to ([`run_of`]), and the interpreter ([`interpreter`]);
//! - [`laws`]: what follows for folding, wrap-around, clearing, loops and
//!   the bounds of the tape;
//! - [`reading`]: what a source text does when it is read as it stands,
//!   byte by byte ([`read`]);
//! - [`faithful`]: that the program of a source text does the same: it
//!   halts or faults exactly if the reading does, with the same tape, input
//!   and output.

pub mod comm;
pub mod scan;
pub mod nesting;
pub mod balance;
pub mod bytecode;
pub mod machine;
pub mod laws;
pub mod reading;
pub mod faithful;

pub use comm::{Comm, Fault, SyntaxFault, TAPE_LEN};
pub use scan::{block, run, token, translate, Block, Scan};
pub use nesting::well_formed;
pub use balance::{balanced, balanced_from};
pub use bytecode::{compile, Bytecode};
pub use reading::{read, Ending, Outcome, Reading};
pub use machine::{
    interpreter, run_of, start, step_of, Effect, Machine, Run, State, Status, Step, Trace,
};
