use vstd::prelude::*;

verus! {

/// Number of cells on the tape.
pub const TAPE_LEN: usize = 65535;

/// One instruction of the compiled program.
///
/// An offset is relative to the data pointer at the moment the instruction
/// runs. A jump target is an index into the program that holds the
/// instruction.
#[derive(Clone, Copy, Debug, PartialEq, Eq, Structural)]
pub enum Comm {
    /// Shift the data pointer by the offset.
    Pointer(i32),
    /// Add the amount to the cell at the offset, modulo 256.
    Plus(i32, u8),
    /// Subtract the amount from the cell at the offset, modulo 256.
    Minus(i32, u8),
    /// Emit the cell at the offset as one byte.
    Dot(i32),
    /// Store one byte of input into the cell at the offset.
    Comma(i32),
    /// Jump to the target if the current cell is zero.
    LP(usize),
    /// Jump to the target if the current cell is not zero.
    RP(usize),
    /// Set the cell at the offset to zero.
    Clear(i32),
}

/// Why a source text was rejected: its brackets do not balance.
#[derive(Clone, Copy, Debug, PartialEq, Eq, Structural)]
pub enum SyntaxFault {
    /// The `[` at source position `pos` is never closed.
    Unclosed { pos: usize },
    /// The `]` at source position `pos` closes no loop.
    Unmatched { pos: usize },
}

/// Why a run was aborted.
#[derive(Clone, Copy, Debug, PartialEq, Eq, Structural)]
pub enum Fault {
    /// A cell address, or the data pointer at a jump, lies outside the tape.
    Bounds,
    /// An input instruction found the input stream exhausted.
    InputExhausted,
}

} // verus!
