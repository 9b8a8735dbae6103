//! The instruction set and the classification of source characters.

use vstd::prelude::*;

verus! {

/// One instruction of the language, or `MonoStateOp` for a character that is
/// not an instruction.
#[derive(Clone, Copy, Debug, PartialEq, Eq, Structural)]
pub enum BrainfuckOp {
    /// `+`
    IncrementValueOp,
    /// `-`
    DecrementValueOp,
    /// `>`
    IncrementPtrOp,
    /// `<`
    DecrementPtrOp,
    /// `.`
    PrintOp,
    /// `,`
    ReadOp,
    /// `[`
    LoopStartOp,
    /// `]`
    LoopEndOp,
    /// any other character
    MonoStateOp,
}

/// The instruction that a source character stands for.
pub open spec fn op_of(c: char) -> BrainfuckOp {
    if c == '+' {
        BrainfuckOp::IncrementValueOp
    } else if c == '-' {
        BrainfuckOp::DecrementValueOp
    } else if c == '>' {
        BrainfuckOp::IncrementPtrOp
    } else if c == '<' {
        BrainfuckOp::DecrementPtrOp
    } else if c == '.' {
        BrainfuckOp::PrintOp
    } else if c == ',' {
        BrainfuckOp::ReadOp
    } else if c == '[' {
        BrainfuckOp::LoopStartOp
    } else if c == ']' {
        BrainfuckOp::LoopEndOp
    } else {
        BrainfuckOp::MonoStateOp
    }
}

/// Whether a character is one of the eight instructions.
pub open spec fn is_instruction(c: char) -> bool {
    op_of(c) != BrainfuckOp::MonoStateOp
}

/// Maps a source character to its instruction; every character outside
/// `+ - > < . , [ ]` maps to `MonoStateOp`.
pub fn classify(c: char) -> (op: BrainfuckOp)
    ensures
        op == op_of(c),
{
    match c {
        '+' => BrainfuckOp::IncrementValueOp,
        '-' => BrainfuckOp::DecrementValueOp,
        '>' => BrainfuckOp::IncrementPtrOp,
        '<' => BrainfuckOp::DecrementPtrOp,
        '.' => BrainfuckOp::PrintOp,
        ',' => BrainfuckOp::ReadOp,
        '[' => BrainfuckOp::LoopStartOp,
        ']' => BrainfuckOp::LoopEndOp,
        _ => BrainfuckOp::MonoStateOp,
    }
}

} // verus!
