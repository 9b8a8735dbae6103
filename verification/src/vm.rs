//! The executable engine.
//!
//! The host feeds the engine one source character at a time with `run_vm`.
//! A `]` that finds its loop unfinished starts a replay of the loop body; while
//! `is_replaying` holds, the host calls `resume_replay` instead, until the
//! replay is over, and only then feeds the next character. The engine never
//! reads or writes by itself: before a step the host asks with `reads_input`
//! whether the step will take a byte and hands in the byte that its input
//! source holds ready, and after the step it writes the byte that the step
//! handed out, if any. When the source is exhausted, `source_ended` tells
//! whether a loop was left open.
//!
//! Every function is specified against the state machine of `model`.

use crate::model::{
    dispatch, end_of_source, output_byte, positions_within, replay_step, VmError, VmState,
};
use crate::op::{classify, is_instruction, op_of, BrainfuckOp};
use crate::tape::Tape;
use vstd::prelude::*;

verus! {

/// The most instructions that the record can hold: positions are `i32`.
pub const LEDGER_CAPACITY: usize = 2147483647;

/// The whole state of one engine.
pub struct BrainfuckVMStatus {
    /// The tape.
    pub tape: Tape,
    /// The index of the selected cell.
    pub tape_ptr: i32,
    /// Every instruction taken from the source so far.
    pub instruction: Vec<char>,
    /// The position in `instruction` that the engine is at; -1 before the
    /// first instruction.
    pub instruction_ptr_current: i32,
    /// The positions of the loop starts whose bodies are being executed.
    pub instruction_loop_ptr: Vec<i32>,
    /// How many loop starts have been passed in skip mode and not yet closed.
    pub jump_loop: i32,
    /// The positions of the loop ends whose bodies are being replayed.
    pub replay_return: Vec<i32>,
}

/// Recorded positions as mathematical integers.
pub open spec fn positions(v: Seq<i32>) -> Seq<int> {
    v.map_values(|p: i32| p as int)
}

impl View for BrainfuckVMStatus {
    type V = VmState;

    open spec fn view(&self) -> VmState {
        VmState {
            tape: self.tape@,
            tape_ptr: self.tape_ptr as int,
            instruction: self.instruction@,
            cursor: self.instruction_ptr_current as int,
            loop_starts: positions(self.instruction_loop_ptr@),
            skip_depth: self.jump_loop as int,
            replay_returns: positions(self.replay_return@),
        }
    }
}

proof fn lemma_positions_push(v: Seq<i32>, p: i32)
    ensures
        positions(v.push(p)) == positions(v).push(p as int),
{
    assert(positions(v.push(p)) =~= positions(v).push(p as int));
}

proof fn lemma_positions_pop(v: Seq<i32>)
    requires
        v.len() > 0,
    ensures
        positions(v.subrange(0, v.len() - 1)) == positions(v).drop_last(),
        positions(v).last() == v[v.len() - 1] as int,
{
    assert(positions(v.subrange(0, v.len() - 1)) =~= positions(v).drop_last());
}

/// A fresh engine: blank tape, pointer at cell 0, nothing recorded, no loop open.
pub fn new_brainfuck_status() -> (status: BrainfuckVMStatus)
    ensures
        status@ == VmState::initial(),
        status@.wf(),
{
    let status = BrainfuckVMStatus {
        tape: Tape::new(),
        tape_ptr: 0,
        instruction: Vec::new(),
        instruction_ptr_current: -1,
        instruction_loop_ptr: Vec::new(),
        jump_loop: 0,
        replay_return: Vec::new(),
    };
    proof {
        status.tape.lemma_contents();
        assert(status@.loop_starts =~= Seq::<int>::empty());
        assert(status@.replay_returns =~= Seq::<int>::empty());
        assert(status@.instruction =~= Seq::<char>::empty());
    }
    status
}

/// Classifies `character`, and records it if it is an instruction that comes
/// from the source (`via_loop` false): it is appended to the record and the
/// cursor moves onto it. Any other call leaves the engine as it was.
pub fn next_op(status: &mut BrainfuckVMStatus, character: char, via_loop: bool) -> (op:
    BrainfuckOp)
    requires
        old(status)@.wf(),
        !via_loop && is_instruction(character) ==> !old(status)@.replaying() && old(
            status,
        )@.instruction.len() < i32::MAX,
    ensures
        op == op_of(character),
        final(status)@ == if via_loop || !is_instruction(character) {
            old(status)@
        } else {
            old(status)@.record(character)
        },
        final(status)@.wf(),
{
    let op = classify(character);
    if !via_loop {
        match op {
            BrainfuckOp::MonoStateOp => (),
            _ => {
                status.instruction.push(character);
                status.instruction_ptr_current += 1;
                proof {
                    crate::model::lemma_record_wf(old(status)@, character);
                }
            },
        };
    }
    op
}

/// The byte that a cell holding `value` is printed as.
fn low_byte(value: i32) -> (byte: u8)
    ensures
        byte == output_byte(value as int),
{
    match value.checked_rem_euclid(256) {
        Some(r) => r as u8,
        None => 0,
    }
}

/// Dispatches one character: the next character of the source when `via_loop`
/// is false, a recorded instruction when it is true.
///
/// An instruction from the source is recorded first. Then it takes effect,
/// unless the engine is in skip mode, where only `[` and `]` are counted. A `]`
/// outside skip mode closes its loop if the selected cell is 0; otherwise it
/// notes its own position as the place to return to and moves the cursor
/// behind the innermost loop start, and `resume_replay` carries the replay of
/// the body on from there.
///
/// `input` is the byte that the input source holds ready, or `None` if it is
/// exhausted; it is taken only if `status@.reads_input(char_op)`. The result is
/// the byte to print, if the instruction printed one, or the error: the record
/// is full, a cell or the pointer or the skip counter would leave the range of
/// `i32`, a `,` finds no input, or a `]` finds no loop open. An error leaves
/// the engine as it was, but for the recording of the instruction.
pub fn run_vm(
    status: &mut BrainfuckVMStatus,
    char_op: char,
    via_loop: bool,
    input: Option<u8>,
) -> (result: Result<Option<u8>, VmError>)
    requires
        old(status)@.wf(),
        old(status)@.accepts(via_loop),
    ensures
        final(status)@ == dispatch(old(status)@, char_op, via_loop, input).state,
        result == dispatch(old(status)@, char_op, via_loop, input).result,
        final(status)@.wf(),
{
    proof {
        crate::model::lemma_dispatch_wf(old(status)@, char_op, via_loop, input);
    }
    if !via_loop && classify(char_op) != BrainfuckOp::MonoStateOp && status.instruction.len()
        >= LEDGER_CAPACITY {
        return Err(VmError::LedgerFull);
    }
    let op = next_op(status, char_op, via_loop);
    let pointer = status.tape_ptr;
    let skipping = status.jump_loop != 0;
    match op {
        BrainfuckOp::IncrementValueOp => {
            if !skipping {
                if !status.tape.modify(pointer, 1) {
                    return Err(VmError::CellOverflow);
                }
            }
            Ok(None)
        },
        BrainfuckOp::DecrementValueOp => {
            if !skipping {
                if !status.tape.modify(pointer, -1) {
                    return Err(VmError::CellOverflow);
                }
            }
            Ok(None)
        },
        BrainfuckOp::IncrementPtrOp => {
            if !skipping {
                if pointer == i32::MAX {
                    return Err(VmError::PointerOverflow);
                }
                status.tape_ptr = pointer + 1;
            }
            Ok(None)
        },
        BrainfuckOp::DecrementPtrOp => {
            if !skipping {
                if pointer == i32::MIN {
                    return Err(VmError::PointerOverflow);
                }
                status.tape_ptr = pointer - 1;
            }
            Ok(None)
        },
        BrainfuckOp::PrintOp => {
            if !skipping {
                Ok(Some(low_byte(status.tape.get(pointer))))
            } else {
                Ok(None)
            }
        },
        BrainfuckOp::ReadOp => {
            if !skipping {
                match input {
                    Some(byte) => {
                        status.tape.set(pointer, byte as i32);
                    },
                    None => {
                        return Err(VmError::InputUnavailable);
                    },
                }
            }
            Ok(None)
        },
        BrainfuckOp::LoopStartOp => {
            if !skipping && status.tape.get(pointer) != 0 {
                proof {
                    lemma_positions_push(
                        status.instruction_loop_ptr@,
                        status.instruction_ptr_current,
                    );
                }
                status.instruction_loop_ptr.push(status.instruction_ptr_current);
            } else {
                if status.jump_loop == i32::MAX {
                    return Err(VmError::SkipOverflow);
                }
                status.jump_loop += 1;
            }
            Ok(None)
        },
        BrainfuckOp::LoopEndOp => {
            if skipping {
                status.jump_loop -= 1;
            } else {
                let open = status.instruction_loop_ptr.len();
                if open == 0 {
                    return Err(VmError::UnmatchedLoopEnd);
                }
                proof {
                    lemma_positions_pop(status.instruction_loop_ptr@);
                }
                if status.tape.get(pointer) == 0 {
                    status.instruction_loop_ptr.pop();
                } else {
                    let start = status.instruction_loop_ptr[open - 1];
                    proof {
                        lemma_positions_push(
                            status.replay_return@,
                            status.instruction_ptr_current,
                        );
                    }
                    status.replay_return.push(status.instruction_ptr_current);
                    status.instruction_ptr_current = start + 1;
                }
            }
            Ok(None)
        },
        BrainfuckOp::MonoStateOp => Ok(None),
    }
}

/// Whether a loop body is being replayed, so that `resume_replay` and not
/// the next source character is due.
pub fn is_replaying(status: &BrainfuckVMStatus) -> (replaying: bool)
    ensures
        replaying == status@.replaying(),
{
    status.replay_return.len() > 0
}

/// Whether dispatching `char_op` next would take a byte from the input source.
pub fn reads_input(status: &BrainfuckVMStatus, char_op: char) -> (reads: bool)
    ensures
        reads == status@.reads_input(char_op),
{
    classify(char_op) == BrainfuckOp::ReadOp && status.jump_loop == 0
}

/// The recorded instruction that the next `resume_replay` executes, or `None`
/// if that step executes none.
pub fn pending_op(status: &BrainfuckVMStatus) -> (pending: Option<char>)
    ensures
        pending == status@.pending_op(),
{
    let depth = status.replay_return.len();
    if depth == 0 {
        return None;
    }
    proof {
        lemma_positions_pop(status.replay_return@);
    }
    let cursor = status.instruction_ptr_current;
    if 0 <= cursor && cursor < status.replay_return[depth - 1] && (cursor as usize)
        < status.instruction.len() {
        Some(status.instruction[cursor as usize])
    } else {
        None
    }
}

/// Whether every position in `recorded` lies inside a record of `len`
/// instructions.
fn positions_inside(recorded: &Vec<i32>, len: usize) -> (inside: bool)
    ensures
        inside == positions_within(positions(recorded@), len as nat),
{
    let mut i: usize = 0;
    while i < recorded.len()
        invariant
            i <= recorded@.len(),
            forall|j: int| 0 <= j < i ==> 0 <= #[trigger] positions(recorded@)[j] < len,
        decreases recorded@.len() - i,
    {
        let p = recorded[i];
        if p < 0 || p as usize >= len {
            assert(!(0 <= positions(recorded@)[i as int] < len));
            return false;
        }
        i += 1;
    }
    true
}

/// Whether the engine is in a state that its own operations can have left
/// it in. A host that fills in the fields itself can test its work with this.
pub fn is_well_formed(status: &BrainfuckVMStatus) -> (well_formed: bool)
    ensures
        well_formed == status@.wf(),
{
    proof {
        status.tape.lemma_contents();
    }
    let len = status.instruction.len();
    if len > LEDGER_CAPACITY || status.jump_loop < 0 {
        return false;
    }
    if !positions_inside(&status.instruction_loop_ptr, len) {
        return false;
    }
    if !positions_inside(&status.replay_return, len) {
        return false;
    }
    let cursor = status.instruction_ptr_current as i64;
    if status.replay_return.len() > 0 {
        assert(status@.replay_returns[0] == status.replay_return@[0]);
        0 <= cursor && cursor <= len as i64 && status.replay_return[0] as i64 + 1 == len as i64
    } else {
        cursor + 1 == len as i64
    }
}

/// Performs one step of the replay in progress; outside a replay it does
/// nothing.
///
/// While the cursor is before the `]` that started the replay, the step
/// dispatches the recorded instruction at the cursor and moves the cursor on,
/// unless that instruction was a `]` that started a replay of its own. Once the
/// cursor has reached the `]`, the step looks at the selected cell: if it is
/// not 0, the body is replayed once more; if it is 0, the loop is closed and
/// the replay is over, and a replay around it goes on behind the `]`.
///
/// `input` is the byte that the input source holds ready, or `None` if it is
/// exhausted; it is taken only if the step executes a recorded instruction
/// that reads input (see `pending_op`). The result is the byte to print, if the
/// step printed one, or the error of the instruction that failed.
pub fn resume_replay(status: &mut BrainfuckVMStatus, input: Option<u8>) -> (result: Result<
    Option<u8>,
    VmError,
>)
    requires
        old(status)@.wf(),
    ensures
        final(status)@ == replay_step(old(status)@, input).state,
        result == replay_step(old(status)@, input).result,
        final(status)@.wf(),
{
    proof {
        crate::model::lemma_replay_step_wf(old(status)@, input);
    }
    let depth = status.replay_return.len();
    if depth == 0 {
        return Ok(None);
    }
    proof {
        lemma_positions_pop(status.replay_return@);
    }
    let loop_end = status.replay_return[depth - 1];
    if status.instruction_ptr_current < loop_end {
        let current_op = status.instruction[status.instruction_ptr_current as usize];
        let result = run_vm(status, current_op, true, input);
        if result.is_ok() && status.replay_return.len() == depth {
            status.instruction_ptr_current += 1;
        }
        result
    } else {
        status.instruction_ptr_current = loop_end;
        let open = status.instruction_loop_ptr.len();
        if open == 0 {
            return Err(VmError::UnmatchedLoopEnd);
        }
        proof {
            lemma_positions_pop(status.instruction_loop_ptr@);
        }
        if status.tape.get(status.tape_ptr) != 0 {
            status.instruction_ptr_current = status.instruction_loop_ptr[open - 1] + 1;
        } else {
            status.instruction_loop_ptr.pop();
            status.replay_return.pop();
            if depth > 1 {
                status.instruction_ptr_current = loop_end + 1;
            }
        }
        Ok(None)
    }
}

/// Tells the engine that the source has ended: an error if a loop is still
/// open.
pub fn source_ended(status: &BrainfuckVMStatus) -> (result: Result<(), VmError>)
    ensures
        result == end_of_source(status@),
{
    if status.instruction_loop_ptr.len() > 0 || status.jump_loop != 0 || status.replay_return.len()
        > 0 {
        Err(VmError::UnclosedLoop)
    } else {
        Ok(())
    }
}

} // verus!
