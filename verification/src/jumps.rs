//! The language read the usual way: a program counter walks over the whole
//! program, `[` jumps behind its `]` when the selected cell is 0, and `]` jumps
//! back behind its `[` when it is not.
//!
//! Nothing here is executable. The functions say what a program computes when
//! all of it is known in advance, and the engine, which never is in that
//! position, is proved to compute the same.

use crate::balance::{depth, lemma_depth_split, never_negative};
use crate::model::{output_byte, VmError};
use crate::tape::{blank_tape, cell_at};
use vstd::prelude::*;

verus! {

/// What a program works on: the tape and its pointer, how much of the input
/// has been read, and what has been printed.
pub struct Data {
    pub tape: Map<int, int>,
    pub tape_ptr: int,
    pub input_taken: nat,
    pub output: Seq<u8>,
}

impl Data {
    /// Blank tape, pointer at cell 0, nothing read, nothing printed.
    pub open spec fn start() -> Data {
        Data { tape: blank_tape(), tape_ptr: 0, input_taken: 0, output: Seq::empty() }
    }

    /// The value of the selected cell.
    pub open spec fn cell(self) -> int {
        cell_at(self.tape, self.tape_ptr)
    }

    /// The data with the selected cell set to `value`.
    pub open spec fn with_cell(self, value: int) -> Data {
        Data { tape: self.tape.insert(self.tape_ptr, value), ..self }
    }
}

/// What an instruction other than `[` and `]` does to the data. Cells and the
/// pointer are confined to the range of `i32`, and a `,` needs a byte of input.
pub open spec fn effect(d: Data, c: char, input: Seq<u8>) -> Result<Data, VmError> {
    if c == '+' {
        if d.cell() + 1 > i32::MAX {
            Err(VmError::CellOverflow)
        } else {
            Ok(d.with_cell(d.cell() + 1))
        }
    } else if c == '-' {
        if d.cell() - 1 < i32::MIN {
            Err(VmError::CellOverflow)
        } else {
            Ok(d.with_cell(d.cell() - 1))
        }
    } else if c == '>' {
        if d.tape_ptr + 1 > i32::MAX {
            Err(VmError::PointerOverflow)
        } else {
            Ok(Data { tape_ptr: d.tape_ptr + 1, ..d })
        }
    } else if c == '<' {
        if d.tape_ptr - 1 < i32::MIN {
            Err(VmError::PointerOverflow)
        } else {
            Ok(Data { tape_ptr: d.tape_ptr - 1, ..d })
        }
    } else if c == '.' {
        Ok(Data { output: d.output.push(output_byte(d.cell())), ..d })
    } else if c == ',' {
        if d.input_taken < input.len() {
            Ok(
                Data {
                    input_taken: d.input_taken + 1,
                    ..d.with_cell(input[d.input_taken as int] as int)
                },
            )
        } else {
            Err(VmError::InputUnavailable)
        }
    } else {
        Ok(d)
    }
}

/// Whether the `[` at `open` and the `]` at `close` belong together: the text
/// between them is balanced.
pub open spec fn matching(text: Seq<char>, open: int, close: int) -> bool {
    &&& 0 <= open < close < text.len()
    &&& text[open] == '['
    &&& text[close] == ']'
    &&& depth(text, open + 1, close) == 0
    &&& never_negative(text, open + 1, close)
}

/// The first `]` at or after `at` that balances the text since `open`; the
/// length of the text if there is none.
pub open spec fn find_close(text: Seq<char>, open: int, at: int) -> int
    decreases text.len() - at,
{
    if at >= text.len() {
        text.len() as int
    } else if text[at] == ']' && depth(text, open + 1, at) == 0 {
        at
    } else {
        find_close(text, open, at + 1)
    }
}

/// The position of the `]` that closes the `[` at `open`.
pub open spec fn close_of(text: Seq<char>, open: int) -> int {
    find_close(text, open, open + 1)
}

/// The last `[` at or before `at` that balances the text up to `close`; -1 if
/// there is none.
pub open spec fn find_open(text: Seq<char>, close: int, at: int) -> int
    decreases at + 1,
{
    if at < 0 {
        -1
    } else if text[at] == '[' && depth(text, at + 1, close) == 0 {
        at
    } else {
        find_open(text, close, at - 1)
    }
}

/// The position of the `[` that the `]` at `close` closes.
pub open spec fn open_of(text: Seq<char>, close: int) -> int {
    find_open(text, close, close - 1)
}

proof fn lemma_find_close(text: Seq<char>, open: int, close: int, at: int)
    requires
        matching(text, open, close),
        open < at <= close,
    ensures
        find_close(text, open, at) == close,
    decreases close - at,
{
    if at < close {
        if text[at] == ']' && depth(text, open + 1, at) == 0 {
            assert(depth(text, open + 1, at + 1) >= 0);
        }
        lemma_find_close(text, open, close, at + 1);
    }
}

proof fn lemma_find_open(text: Seq<char>, open: int, close: int, at: int)
    requires
        matching(text, open, close),
        open <= at < close,
    ensures
        find_open(text, close, at) == open,
    decreases at - open,
{
    if at > open {
        if text[at] == '[' && depth(text, at + 1, close) == 0 {
            lemma_depth_split(text, open + 1, at + 1, close);
            assert(depth(text, open + 1, at) >= 0);
        }
        lemma_find_open(text, open, close, at - 1);
    }
}

/// Brackets that belong together find each other.
pub proof fn lemma_matching_brackets(text: Seq<char>, open: int, close: int)
    requires
        matching(text, open, close),
    ensures
        close_of(text, open) == close,
        open_of(text, close) == open,
{
    lemma_find_close(text, open, close, open + 1);
    lemma_find_open(text, open, close, close - 1);
}

/// A program counter and the data.
pub struct JumpState {
    pub pc: int,
    pub data: Data,
}

impl JumpState {
    /// Before the first instruction, on fresh data.
    pub open spec fn start() -> JumpState {
        JumpState { pc: 0, data: Data::start() }
    }
}

/// One instruction of `text`, executed at the program counter.
pub open spec fn jump_step(text: Seq<char>, input: Seq<u8>, m: JumpState) -> Result<
    JumpState,
    VmError,
> {
    let c = text[m.pc];
    if c == '[' {
        if m.data.cell() == 0 {
            Ok(JumpState { pc: close_of(text, m.pc) + 1, ..m })
        } else {
            Ok(JumpState { pc: m.pc + 1, ..m })
        }
    } else if c == ']' {
        if m.data.cell() != 0 {
            Ok(JumpState { pc: open_of(text, m.pc) + 1, ..m })
        } else {
            Ok(JumpState { pc: m.pc + 1, ..m })
        }
    } else {
        match effect(m.data, c, input) {
            Ok(data) => Ok(JumpState { pc: m.pc + 1, data }),
            Err(error) => Err(error),
        }
    }
}

/// How an execution by jumps ended.
pub enum JumpEnd {
    /// The program counter left the program.
    Halted,
    /// An instruction failed.
    Failed(VmError),
    /// The step bound was reached first.
    OutOfSteps,
}

/// Where an execution by jumps ended, and how.
pub struct JumpOutcome {
    pub state: JumpState,
    pub end: JumpEnd,
}

/// Whether the program counter has left the program.
pub open spec fn halted(text: Seq<char>, m: JumpState) -> bool {
    m.pc < 0 || m.pc >= text.len()
}

/// The outcome of executing `text` from `m` for at most `steps` instructions.
pub open spec fn jump_run(text: Seq<char>, input: Seq<u8>, m: JumpState, steps: nat) -> JumpOutcome
    decreases steps,
{
    if halted(text, m) {
        JumpOutcome { state: m, end: JumpEnd::Halted }
    } else if steps == 0 {
        JumpOutcome { state: m, end: JumpEnd::OutOfSteps }
    } else {
        match jump_step(text, input, m) {
            Ok(next) => jump_run(text, input, next, (steps - 1) as nat),
            Err(error) => JumpOutcome { state: m, end: JumpEnd::Failed(error) },
        }
    }
}

/// An execution that ended within `steps` instructions ends in the same way
/// under every larger bound.
pub proof fn lemma_jump_run_more_steps(
    text: Seq<char>,
    input: Seq<u8>,
    m: JumpState,
    steps: nat,
    more: nat,
)
    requires
        jump_run(text, input, m, steps).end != JumpEnd::OutOfSteps,
        steps <= more,
    ensures
        jump_run(text, input, m, more) == jump_run(text, input, m, steps),
    decreases steps,
{
    if !halted(text, m) && steps > 0 {
        match jump_step(text, input, m) {
            Ok(next) => {
                lemma_jump_run_more_steps(
                    text,
                    input,
                    next,
                    (steps - 1) as nat,
                    (more - 1) as nat,
                );
            },
            Err(_) => {},
        }
    }
}

} // verus!
