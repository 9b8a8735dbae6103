//! The engine as a mathematical state machine.
//!
//! A `VmState` is the engine's whole state over unbounded integers, and the
//! functions here say, for each state and event, what the next state and the
//! result are. The executable engine is specified against them.

use crate::op::{is_instruction, op_of, BrainfuckOp};
use crate::tape::{blank_tape, cell_at, tape_contents};
use vstd::prelude::*;

verus! {

/// Why the engine stopped before the program was done.
#[derive(Clone, Copy, Debug, PartialEq, Eq, Structural)]
pub enum VmError {
    /// A `,` was executed and the input source had no byte left.
    InputUnavailable,
    /// A `]` was executed outside skip mode with no loop open.
    UnmatchedLoopEnd,
    /// The source ended while a loop was still open.
    UnclosedLoop,
    /// A `+` or `-` would take a cell out of the range of `i32`.
    CellOverflow,
    /// A `>` or `<` would take the tape pointer out of the range of `i32`.
    PointerOverflow,
    /// The instruction record cannot take another instruction.
    LedgerFull,
    /// More loops are being skipped than the skip counter can count.
    SkipOverflow,
}

/// The state of the engine.
pub struct VmState {
    /// The tape cells that have been written, each with its value; every
    /// other cell holds 0.
    pub tape: Map<int, int>,
    /// The index of the selected cell.
    pub tape_ptr: int,
    /// Every instruction taken from the source so far, in order.
    pub instruction: Seq<char>,
    /// The position in `instruction` that the engine is at.
    pub cursor: int,
    /// The positions of the loop starts whose bodies are being executed,
    /// innermost last.
    pub loop_starts: Seq<int>,
    /// How many loop starts have been passed in skip mode and not yet closed.
    pub skip_depth: int,
    /// For each loop end whose body is being replayed, the position of that
    /// loop end, innermost last.
    pub replay_returns: Seq<int>,
}

/// A state after an event, and what the event produced: an output byte, nothing,
/// or a fatal error.
pub struct Step {
    pub state: VmState,
    pub result: Result<Option<u8>, VmError>,
}

/// The byte that a cell holding `value` is printed as: `value` modulo 256.
pub open spec fn output_byte(value: int) -> u8 {
    (value % 256) as u8
}

/// Whether every position in `recorded` lies inside a record of `len`
/// instructions.
pub open spec fn positions_within(recorded: Seq<int>, len: nat) -> bool {
    forall|i: int| 0 <= i < recorded.len() ==> 0 <= #[trigger] recorded[i] < len
}

impl VmState {
    /// The state of a fresh engine.
    pub open spec fn initial() -> VmState {
        VmState {
            tape: blank_tape(),
            tape_ptr: 0,
            instruction: Seq::empty(),
            cursor: -1,
            loop_starts: Seq::empty(),
            skip_depth: 0,
            replay_returns: Seq::empty(),
        }
    }

    /// Whether a loop body is being replayed.
    pub open spec fn replaying(self) -> bool {
        self.replay_returns.len() > 0
    }

    /// Whether instructions are being passed over without effect.
    pub open spec fn skipping(self) -> bool {
        self.skip_depth != 0
    }

    /// The value of the selected cell.
    pub open spec fn cell(self) -> int {
        cell_at(self.tape, self.tape_ptr)
    }

    /// What every state that the engine can be in satisfies: all quantities are
    /// within their machine ranges, recorded positions lie inside the
    /// instruction record, and outside a replay the cursor is at the last
    /// recorded instruction.
    pub open spec fn wf(self) -> bool {
        &&& tape_contents(self.tape)
        &&& i32::MIN <= self.tape_ptr <= i32::MAX
        &&& self.instruction.len() <= i32::MAX
        &&& 0 <= self.skip_depth <= i32::MAX
        &&& positions_within(self.loop_starts, self.instruction.len())
        &&& positions_within(self.replay_returns, self.instruction.len())
        &&& if self.replaying() {
            &&& 0 <= self.cursor <= self.instruction.len()
            &&& self.replay_returns[0] == self.instruction.len() - 1
        } else {
            self.cursor == self.instruction.len() - 1
        }
    }

    /// Whether the engine is ready for the next character of the source
    /// (`via_loop` false) or for a recorded instruction (`via_loop` true).
    pub open spec fn accepts(self, via_loop: bool) -> bool {
        if via_loop {
            self.replaying() && self.cursor < self.replay_returns.last()
        } else {
            !self.replaying()
        }
    }

    /// Whether executing `c` next would take a byte from the input source.
    pub open spec fn reads_input(self, c: char) -> bool {
        op_of(c) == BrainfuckOp::ReadOp && !self.skipping()
    }

    /// The recorded instruction that the next replay step executes, if that
    /// step executes one.
    pub open spec fn pending_op(self) -> Option<char> {
        if self.replaying() && 0 <= self.cursor < self.replay_returns.last() && self.cursor
            < self.instruction.len() {
            Some(self.instruction[self.cursor])
        } else {
            None
        }
    }

    /// The state after `c` has been appended to the record and the cursor has
    /// moved onto it.
    pub open spec fn record(self, c: char) -> VmState {
        VmState { instruction: self.instruction.push(c), cursor: self.cursor + 1, ..self }
    }

    /// The state with the selected cell set to `value`.
    pub open spec fn with_cell(self, value: int) -> VmState {
        VmState { tape: self.tape.insert(self.tape_ptr, value), ..self }
    }

    /// The state with the cursor at `cursor`.
    pub open spec fn at(self, cursor: int) -> VmState {
        VmState { cursor, ..self }
    }
}

/// A step that ends in `state` and produces nothing.
pub open spec fn done(state: VmState) -> Step {
    Step { state, result: Ok(None) }
}

/// A step that fails with `error` and leaves the engine in `state`.
pub open spec fn fail(state: VmState, error: VmError) -> Step {
    Step { state, result: Err(error) }
}

/// The effect of one instruction on a state in which it has already been
/// recorded. In skip mode only loop starts and loop ends have an effect.
/// `input` is the byte that the input source holds ready, if it has one.
pub open spec fn perform(s: VmState, op: BrainfuckOp, input: Option<u8>) -> Step {
    match op {
        BrainfuckOp::IncrementValueOp => if s.skipping() {
            done(s)
        } else if s.cell() + 1 > i32::MAX {
            fail(s, VmError::CellOverflow)
        } else {
            done(s.with_cell(s.cell() + 1))
        },
        BrainfuckOp::DecrementValueOp => if s.skipping() {
            done(s)
        } else if s.cell() - 1 < i32::MIN {
            fail(s, VmError::CellOverflow)
        } else {
            done(s.with_cell(s.cell() - 1))
        },
        BrainfuckOp::IncrementPtrOp => if s.skipping() {
            done(s)
        } else if s.tape_ptr + 1 > i32::MAX {
            fail(s, VmError::PointerOverflow)
        } else {
            done(VmState { tape_ptr: s.tape_ptr + 1, ..s })
        },
        BrainfuckOp::DecrementPtrOp => if s.skipping() {
            done(s)
        } else if s.tape_ptr - 1 < i32::MIN {
            fail(s, VmError::PointerOverflow)
        } else {
            done(VmState { tape_ptr: s.tape_ptr - 1, ..s })
        },
        BrainfuckOp::PrintOp => if s.skipping() {
            done(s)
        } else {
            Step { state: s, result: Ok(Some(output_byte(s.cell()))) }
        },
        BrainfuckOp::ReadOp => if s.skipping() {
            done(s)
        } else {
            match input {
                Some(byte) => done(s.with_cell(byte as int)),
                None => fail(s, VmError::InputUnavailable),
            }
        },
        BrainfuckOp::LoopStartOp => if !s.skipping() && s.cell() != 0 {
            done(VmState { loop_starts: s.loop_starts.push(s.cursor), ..s })
        } else if s.skip_depth + 1 > i32::MAX {
            fail(s, VmError::SkipOverflow)
        } else {
            done(VmState { skip_depth: s.skip_depth + 1, ..s })
        },
        BrainfuckOp::LoopEndOp => if s.skipping() {
            done(VmState { skip_depth: s.skip_depth - 1, ..s })
        } else if s.loop_starts.len() == 0 {
            fail(s, VmError::UnmatchedLoopEnd)
        } else if s.cell() == 0 {
            done(VmState { loop_starts: s.loop_starts.drop_last(), ..s })
        } else {
            done(
                VmState {
                    replay_returns: s.replay_returns.push(s.cursor),
                    cursor: s.loop_starts.last() + 1,
                    ..s
                },
            )
        },
        BrainfuckOp::MonoStateOp => done(s),
    }
}

/// The engine's reaction to one character: a character of the source when
/// `via_loop` is false, a recorded instruction when it is true.
///
/// An instruction of the source is first appended to the record, which fails
/// when the record is full. A character that is no instruction changes nothing.
/// A loop end that finds its loop unfinished starts a replay of the body and
/// leaves the replay itself to `replay_step`.
pub open spec fn dispatch(s: VmState, c: char, via_loop: bool, input: Option<u8>) -> Step {
    if via_loop || !is_instruction(c) {
        perform(s, op_of(c), input)
    } else if s.instruction.len() + 1 > i32::MAX {
        fail(s, VmError::LedgerFull)
    } else {
        perform(s.record(c), op_of(c), input)
    }
}

/// One step of a replay.
///
/// While the cursor is before the loop end that started the replay, the
/// instruction at the cursor is executed and the cursor moves on, unless that
/// instruction started a replay of its own. Once the cursor has reached the
/// loop end, the cursor returns to it and the selected cell decides: if it is
/// not 0 the body is replayed once more from just after the innermost loop
/// start, otherwise the loop is closed, and an enclosing replay goes on behind
/// the loop end. Outside a replay the step changes nothing.
pub open spec fn replay_step(s: VmState, input: Option<u8>) -> Step {
    if !s.replaying() {
        done(s)
    } else if s.cursor < s.replay_returns.last() {
        let step = dispatch(s, s.instruction[s.cursor], true, input);
        if step.result.is_ok() && step.state.replay_returns.len() == s.replay_returns.len() {
            Step { state: step.state.at(step.state.cursor + 1), result: step.result }
        } else {
            step
        }
    } else {
        let back = s.at(s.replay_returns.last());
        if back.loop_starts.len() == 0 {
            fail(back, VmError::UnmatchedLoopEnd)
        } else if back.cell() != 0 {
            done(back.at(back.loop_starts.last() + 1))
        } else {
            let outer = back.replay_returns.drop_last();
            done(
                VmState {
                    loop_starts: back.loop_starts.drop_last(),
                    replay_returns: outer,
                    cursor: if outer.len() > 0 {
                        back.cursor + 1
                    } else {
                        back.cursor
                    },
                    ..back
                },
            )
        }
    }
}

/// What the end of the source means for a state: an error if a loop is still
/// open, being executed or being skipped.
pub open spec fn end_of_source(s: VmState) -> Result<(), VmError> {
    if s.loop_starts.len() > 0 || s.skipping() || s.replaying() {
        Err(VmError::UnclosedLoop)
    } else {
        Ok(())
    }
}

/// Recording an instruction outside a replay keeps a state well-formed, as
/// long as the record has room.
pub proof fn lemma_record_wf(s: VmState, c: char)
    requires
        s.wf(),
        !s.replaying(),
        s.instruction.len() < i32::MAX,
    ensures
        s.record(c).wf(),
{
}

/// Every step keeps a well-formed state well-formed.
pub proof fn lemma_dispatch_wf(s: VmState, c: char, via_loop: bool, input: Option<u8>)
    requires
        s.wf(),
        s.accepts(via_loop),
    ensures
        dispatch(s, c, via_loop, input).state.wf(),
{
    if !via_loop && is_instruction(c) && s.instruction.len() + 1 <= i32::MAX {
        lemma_record_wf(s, c);
    }
}

/// Every replay step keeps a well-formed state well-formed.
pub proof fn lemma_replay_step_wf(s: VmState, input: Option<u8>)
    requires
        s.wf(),
    ensures
        replay_step(s, input).state.wf(),
{
    if s.replaying() && s.cursor < s.replay_returns.last() {
        lemma_dispatch_wf(s, s.instruction[s.cursor], true, input);
    }
}

} // verus!
