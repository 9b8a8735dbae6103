//! The engine computes what the program means.
//!
//! A run that completes leaves the data that execution by jumps leaves, a run
//! that fails on the data fails as execution by jumps fails, and whenever
//! execution by jumps ends, a run with enough steps ends in the same way. The
//! proof follows a run step by step: while the engine passes over a loop in
//! skip mode, or over a character that is no instruction, the program counter
//! waits behind the loop; at every other step both do the same.

use crate::balance::{
    balanced, bracket, depth, here, lemma_depth_push, lemma_depth_same, lemma_depth_split,
    lemma_dispatch_structured, lemma_initial_structured, lemma_pass_done, lemma_record,
    lemma_replay_step_structured, never_negative, nesting_of, structured, Nesting,
};
use crate::jumps::{
    close_of, find_close, halted, jump_run, jump_step, lemma_jump_run_more_steps,
    lemma_matching_brackets, matching, Data, JumpEnd, JumpState,
};
use crate::laws::{instructions_of, lemma_completed_run_is_settled, lemma_instructions_bound};
use crate::model::{fail, perform, VmError, VmState};
use crate::op::{is_instruction, op_of, BrainfuckOp};
use crate::run::{lemma_after_step_wf, ready_byte, run_from, run_of, Run, RunEnd};
use vstd::prelude::*;

verus! {

/// The data of a run.
pub open spec fn data_of(run: Run) -> Data {
    Data {
        tape: run.vm.tape,
        tape_ptr: run.vm.tape_ptr,
        input_taken: run.input_taken,
        output: run.output,
    }
}

/// Whether `record` is the beginning of `text`.
pub open spec fn begins(text: Seq<char>, record: Seq<char>) -> bool {
    &&& record.len() <= text.len()
    &&& forall|i: int| 0 <= i < record.len() ==> record[i] == text[i]
}

/// Whether an engine in skip mode at `here`, with `skip` loops to pass, leaves
/// skip mode at the `]` at `close`.
pub open spec fn leaves_skip_at(text: Seq<char>, here: int, skip: int, close: int) -> bool {
    &&& 0 <= here <= close < text.len()
    &&& text[close] == ']'
    &&& depth(text, here, close) == 1 - skip
    &&& forall|x: int| here <= x <= close ==> #[trigger] depth(text, here, x) >= 1 - skip
}

/// Whether the program counter `pc` stands where an engine at `here` will be
/// once it executes again: at `here` itself, or in skip mode behind the `]`
/// that ends the skipping.
pub open spec fn stands(text: Seq<char>, here: int, skip: int, pc: int) -> bool {
    if skip == 0 {
        pc == here
    } else {
        leaves_skip_at(text, here, skip, pc - 1)
    }
}

/// A scan that has met no `]` for the `[` at `open` so far meets one, if the
/// text ends deeper than the `[` stands.
proof fn lemma_scan_close(text: Seq<char>, open: int, at: int)
    requires
        0 <= open < at <= text.len(),
        text[open] == '[',
        never_negative(text, open + 1, at),
        forall|x: int| open < x < at ==> !(text[x] == ']' && depth(text, open + 1, x) == 0),
        depth(text, open + 1, text.len() as int) < 0,
    ensures
        matching(text, open, find_close(text, open, at)),
    decreases text.len() - at,
{
    if at < text.len() {
        if text[at] == ']' && depth(text, open + 1, at) == 0 {
        } else {
            assert(depth(text, open + 1, at) >= 0);
            assert(depth(text, open + 1, at + 1) >= 0);
            lemma_scan_close(text, open, at + 1);
        }
    } else {
        assert(depth(text, open + 1, at) >= 0);
    }
}

/// In a balanced text every `[` has its `]`.
pub proof fn lemma_close_exists(text: Seq<char>, open: int)
    requires
        balanced(text),
        0 <= open < text.len(),
        text[open] == '[',
    ensures
        matching(text, open, close_of(text, open)),
{
    lemma_depth_split(text, 0, open + 1, text.len() as int);
    assert(depth(text, 0, open) >= 0);
    assert(depth(text, open + 1, open + 1) >= 0);
    lemma_scan_close(text, open, open + 1);
}

/// An engine state in which the instruction at `at` has been recorded, if it
/// came from the source, and is about to take effect.
pub open spec fn poised(s: VmState, text: Seq<char>, at: int) -> bool {
    &&& 0 <= at < text.len()
    &&& s.cursor == at
    &&& 0 <= s.skip_depth
    &&& !s.skipping() && text[at] == ']' && s.loop_starts.len() > 0 ==> matching(
        text,
        s.loop_starts.last(),
        at,
    )
}

/// The effect of one instruction on the engine, set against execution by
/// jumps: either the jumps have been there already, because the engine is
/// passing over a loop, or they take the same step.
proof fn lemma_instruction_agrees(
    s: VmState,
    text: Seq<char>,
    input: Seq<u8>,
    taken: nat,
    output: Seq<u8>,
    m: JumpState,
)
    requires
        balanced(text),
        poised(s, text, s.cursor),
        m.data == (Data { tape: s.tape, tape_ptr: s.tape_ptr, input_taken: taken, output }),
        stands(text, s.cursor, s.skip_depth, m.pc),
        perform(s, op_of(text[s.cursor]), ready_byte(input, taken)).result.is_ok(),
    ensures
        ({
            let c = text[s.cursor];
            let step = perform(s, op_of(c), ready_byte(input, taken));
            let after = step.state;
            let data = Data {
                tape: after.tape,
                tape_ptr: after.tape_ptr,
                input_taken: if s.reads_input(c) {
                    taken + 1
                } else {
                    taken
                },
                output: match step.result {
                    Ok(Some(byte)) => output.push(byte),
                    _ => output,
                },
            };
            let next = if after.replay_returns.len() == s.replay_returns.len() {
                s.cursor + 1
            } else {
                after.cursor
            };
            let moved = jump_step(text, input, m);
            if s.skipping() {
                m.data == data && stands(text, next, after.skip_depth, m.pc)
            } else {
                &&& !halted(text, m)
                &&& moved.is_ok()
                &&& moved.unwrap().data == data
                &&& stands(text, next, after.skip_depth, moved.unwrap().pc)
            }
        }),
{
    let at = s.cursor;
    let c = text[at];
    let op = op_of(c);
    let step = perform(s, op, ready_byte(input, taken));
    let after = step.state;
    assert(depth(text, at, at) == 0);
    assert(depth(text, at, at + 1) == bracket(c));
    if s.skipping() {
        let close = m.pc - 1;
        assert(after.skip_depth == s.skip_depth + bracket(c));
        if after.skip_depth == 0 {
            if close > at {
                assert(depth(text, at, at + 1) >= 1 - s.skip_depth);
            }
        } else {
            assert(close > at);
            assert forall|x: int| at + 1 <= x <= close implies #[trigger] depth(text, at + 1, x)
                >= 1 - after.skip_depth by {
                lemma_depth_split(text, at, at + 1, x);
                assert(depth(text, at, x) >= 1 - s.skip_depth);
            }
            lemma_depth_split(text, at, at + 1, close);
            assert(depth(text, at, at) >= 1 - s.skip_depth);
        }
    } else if op == BrainfuckOp::LoopStartOp {
        if s.cell() == 0 {
            lemma_close_exists(text, at);
            let close = close_of(text, at);
            assert(leaves_skip_at(text, at + 1, 1, close));
        }
    } else if op == BrainfuckOp::LoopEndOp {
        lemma_matching_brackets(text, s.loop_starts.last(), at);
    } else if op == BrainfuckOp::ReadOp {
        assert(after.tape =~= m.data.with_cell(input[taken as int] as int).tape);
    }
}

/// Whether an error comes from the data: from a cell, the pointer or the input.
pub open spec fn data_error(error: VmError) -> bool {
    ||| error == VmError::CellOverflow
    ||| error == VmError::PointerOverflow
    ||| error == VmError::InputUnavailable
}

/// An instruction that fails on the data in the engine fails in the same way
/// in the execution by jumps.
proof fn lemma_failure_agrees(
    s: VmState,
    text: Seq<char>,
    input: Seq<u8>,
    taken: nat,
    output: Seq<u8>,
    m: JumpState,
    error: VmError,
)
    requires
        0 <= s.cursor < text.len(),
        m.data == (Data { tape: s.tape, tape_ptr: s.tape_ptr, input_taken: taken, output }),
        stands(text, s.cursor, s.skip_depth, m.pc),
        perform(s, op_of(text[s.cursor]), ready_byte(input, taken)) == fail(s, error),
        data_error(error),
    ensures
        !halted(text, m),
        jump_step(text, input, m) == Err::<JumpState, VmError>(error),
{
}

/// Brackets that belong together in the beginning of a text belong together
/// in the text.
proof fn lemma_matching_begins(text: Seq<char>, record: Seq<char>, open: int, close: int)
    requires
        begins(text, record),
        matching(record, open, close),
    ensures
        matching(text, open, close),
{
    lemma_depth_same(record, text, open + 1, close);
    assert forall|x: int| open + 1 <= x <= close implies #[trigger] depth(text, open + 1, x)
        >= 0 by {
        lemma_depth_same(record, text, open + 1, x);
        assert(depth(record, open + 1, x) >= 0);
    }
}

/// The instructions of the beginning of a program begin its instructions.
pub proof fn lemma_instructions_begin(program: Seq<char>, taken: int)
    requires
        0 <= taken <= program.len(),
    ensures
        begins(instructions_of(program), instructions_of(program.take(taken))),
    decreases program.len(),
{
    if taken == program.len() {
        assert(program.take(taken) =~= program);
    } else {
        assert(program.drop_last().take(taken) =~= program.take(taken));
        lemma_instructions_begin(program.drop_last(), taken);
    }
}

/// Whether the execution by jumps of `text` has come as far as the run has:
/// the data are the same, and the program counter stands where the engine
/// executes next.
pub open spec fn agrees(run: Run, m: JumpState, text: Seq<char>) -> bool {
    &&& structured(run.vm)
    &&& begins(text, run.vm.instruction)
    &&& m.data == data_of(run)
    &&& stands(text, here(run.vm), run.vm.skip_depth, m.pc)
}

/// Whether the next step of a run is one that execution by jumps has no part
/// in: the engine passes over an instruction in skip mode, or over a character
/// that is no instruction.
pub open spec fn passes(run: Run, program: Seq<char>) -> bool {
    ||| run.vm.skipping()
    ||| !run.vm.replaying() && !is_instruction(program[run.source_taken as int])
}

/// Whether the execution by jumps keeps up with a step of the run: it stays
/// where it is while the engine passes over something, and otherwise takes the
/// same step.
pub open spec fn keeps_up(
    run: Run,
    program: Seq<char>,
    input: Seq<u8>,
    m: JumpState,
    text: Seq<char>,
) -> bool {
    let next = run.after_step(program, input);
    if passes(run, program) {
        agrees(next, m, text)
    } else {
        &&& !halted(text, m)
        &&& jump_step(text, input, m).is_ok()
        &&& agrees(next, jump_step(text, input, m).unwrap(), text)
    }
}

proof fn lemma_dispatch_agrees(
    run: Run,
    program: Seq<char>,
    input: Seq<u8>,
    m: JumpState,
    text: Seq<char>,
)
    requires
        balanced(text),
        agrees(run, m, text),
        !run.vm.replaying(),
        run.source_taken < program.len(),
        is_instruction(program[run.source_taken as int]) ==> begins(
            text,
            run.vm.instruction.push(program[run.source_taken as int]),
        ),
        run.engine_step(program, input).result.is_ok(),
    ensures
        keeps_up(run, program, input, m, text),
{
    let c = program[run.source_taken as int];
    let s = run.vm;
    let next = run.after_step(program, input);
    lemma_dispatch_structured(s, c, ready_byte(input, run.input_taken));
    if !is_instruction(c) {
        assert(next.vm == s);
        assert(agrees(next, m, text));
    } else {
        let bases = choose|bases: Seq<int>| #[trigger] nesting_of(s, bases).ok();
        let n0 = nesting_of(s, bases);
        lemma_record(n0, c);
        let n1 = Nesting { text: n0.text.push(c), ..n0 };
        let r = s.record(c);
        let at = s.instruction.len() as int;
        assert(r.instruction[at] == c);
        assert(text[at] == c);
        if !r.skipping() && c == ']' && r.loop_starts.len() > 0 {
            let top = r.loop_starts.len() - 1;
            assert(n1.start_ok(top));
            lemma_matching_begins(text, r.instruction, r.loop_starts.last(), at);
        }
        lemma_instruction_agrees(r, text, input, run.input_taken, run.output, m);
    }
}

proof fn lemma_replay_agrees(
    run: Run,
    program: Seq<char>,
    input: Seq<u8>,
    m: JumpState,
    text: Seq<char>,
)
    requires
        balanced(text),
        agrees(run, m, text),
        run.vm.replaying(),
        run.engine_step(program, input).result.is_ok(),
    ensures
        keeps_up(run, program, input, m, text),
{
    let s = run.vm;
    let ready = ready_byte(input, run.input_taken);
    lemma_replay_step_structured(s, ready);
    let bases = choose|bases: Seq<int>| #[trigger] nesting_of(s, bases).ok();
    let n = nesting_of(s, bases);
    let end = s.replay_returns.last();
    if s.cursor < end {
        let at = s.cursor;
        assert(text[at] == s.instruction[at]);
        if !s.skipping() && text[at] == ']' && s.loop_starts.len() > 0 {
            let top = s.loop_starts.len() - 1;
            assert(n.start_ok(top));
            lemma_matching_begins(text, s.instruction, s.loop_starts.last(), at);
        }
        lemma_instruction_agrees(s, text, input, run.input_taken, run.output, m);
    } else {
        lemma_pass_done(n);
        let last = n.returns.len() - 1;
        assert(n.return_ok(last));
        assert(n.start_ok(n.bases[last] - 1));
        let start = s.loop_starts.last();
        lemma_matching_begins(text, s.instruction, start, end);
        lemma_matching_brackets(text, start, end);
        assert(text[end] == ']');
        assert(m.pc == end);
    }
}

proof fn lemma_run_agrees(
    run: Run,
    m: JumpState,
    program: Seq<char>,
    input: Seq<u8>,
    steps: nat,
)
    requires
        balanced(instructions_of(program)),
        agrees(run, m, instructions_of(program)),
        run.wf(program, input),
        run.vm.instruction == instructions_of(program.take(run.source_taken as int)),
    ensures
        ({
            let outcome = run_from(run, program, input, steps);
            let jumps = jump_run(instructions_of(program), input, m, steps);
            &&& outcome.end == RunEnd::Completed ==> {
                &&& jumps.end == JumpEnd::Halted
                &&& jumps.state.pc == instructions_of(program).len()
                &&& jumps.state.data == data_of(outcome.run)
            }
            &&& forall|error: VmError|
                outcome.end == RunEnd::Failed(error) && data_error(error) ==> {
                    &&& jumps.end == JumpEnd::Failed(error)
                    &&& jumps.state.data == data_of(outcome.run)
                }
        }),
    decreases steps,
{
    let text = instructions_of(program);
    if run.at_end(program) {
        assert(program.take(run.source_taken as int) =~= program);
    } else if steps > 0 {
        let ready = ready_byte(input, run.input_taken);
        if let Err(error) = run.engine_step(program, input).result {
            if data_error(error) {
                if run.vm.replaying() {
                    lemma_replay_step_structured(run.vm, ready);
                    assert(run.vm.cursor < run.vm.replay_returns.last());
                    assert(text[run.vm.cursor] == run.vm.instruction[run.vm.cursor]);
                    lemma_failure_agrees(
                        run.vm,
                        text,
                        input,
                        run.input_taken,
                        run.output,
                        m,
                        error,
                    );
                } else {
                    let taken = run.source_taken as int;
                    let c = program[taken];
                    assert(program.take(taken + 1).drop_last() =~= program.take(taken));
                    lemma_instructions_begin(program, taken + 1);
                    assert(is_instruction(c));
                    assert(run.vm.instruction.push(c)[run.vm.instruction.len() as int] == c);
                    lemma_failure_agrees(
                        run.vm.record(c),
                        text,
                        input,
                        run.input_taken,
                        run.output,
                        m,
                        error,
                    );
                }
            }
        }
        if run.engine_step(program, input).result.is_ok() {
            let next = run.after_step(program, input);
            lemma_after_step_wf(run, program, input);
            if run.vm.replaying() {
                lemma_replay_step_structured(run.vm, ready_byte(input, run.input_taken));
                lemma_replay_agrees(run, program, input, m, text);
            } else {
                let taken = run.source_taken as int;
                assert(program.take(taken + 1).drop_last() =~= program.take(taken));
                lemma_instructions_begin(program, taken + 1);
                lemma_dispatch_agrees(run, program, input, m, text);
            }
            if passes(run, program) {
                lemma_run_agrees(next, m, program, input, (steps - 1) as nat);
                if jump_run(text, input, m, (steps - 1) as nat).end != JumpEnd::OutOfSteps {
                    lemma_jump_run_more_steps(text, input, m, (steps - 1) as nat, steps);
                }
            } else {
                let moved = jump_step(text, input, m).unwrap();
                lemma_run_agrees(next, moved, program, input, (steps - 1) as nat);
            }
        }
    }
}

/// A run that completes has computed what the program means: execution by
/// jumps of the program's instructions, from fresh data and on the same input,
/// halts within as many steps, and leaves the tape, the pointer, the number of
/// input bytes read and the output with which the run ended.
pub proof fn lemma_completed_run_agrees_with_jumps(
    program: Seq<char>,
    input: Seq<u8>,
    steps: nat,
)
    requires
        run_of(program, input, steps).end == RunEnd::Completed,
    ensures
        ({
            let outcome = run_of(program, input, steps);
            let jumps = jump_run(instructions_of(program), input, JumpState::start(), steps);
            &&& jumps.end == JumpEnd::Halted
            &&& jumps.state.pc == instructions_of(program).len()
            &&& jumps.state.data == data_of(outcome.run)
        }),
{
    let text = instructions_of(program);
    let outcome = run_of(program, input, steps);
    lemma_completed_run_is_settled(program, input, steps);
    let bases = choose|bases: Seq<int>| #[trigger] nesting_of(outcome.run.vm, bases).ok();
    assert(nesting_of(outcome.run.vm, bases).ok());
    assert(balanced(text));
    lemma_initial_structured();
    assert(program.take(0) =~= Seq::<char>::empty());
    lemma_run_agrees(Run::start(), JumpState::start(), program, input, steps);
}

/// The instructions of a program are as deep as the program.
proof fn lemma_instructions_depth(program: Seq<char>)
    ensures
        depth(instructions_of(program), 0, instructions_of(program).len() as int) == depth(
            program,
            0,
            program.len() as int,
        ),
    decreases program.len(),
{
    if program.len() > 0 {
        let before = program.drop_last();
        let c = program.last();
        lemma_instructions_depth(before);
        lemma_depth_same(before, program, 0, before.len() as int);
        if is_instruction(c) {
            lemma_depth_push(instructions_of(before), c, 0, instructions_of(before).len() as int);
        }
    }
}

/// The instructions of a program with balanced brackets are balanced.
pub proof fn lemma_instructions_balanced(program: Seq<char>)
    requires
        balanced(program),
    ensures
        balanced(instructions_of(program)),
{
    let text = instructions_of(program);
    lemma_instructions_depth(program);
    assert forall|x: int| 0 <= x <= text.len() implies #[trigger] depth(text, 0, x) >= 0 by {
        lemma_prefix_depth(program, x);
    }
}

/// Every beginning of the instructions of a program is as deep as some
/// beginning of the program.
proof fn lemma_prefix_depth(program: Seq<char>, x: int)
    requires
        never_negative(program, 0, program.len() as int),
        0 <= x <= instructions_of(program).len(),
    ensures
        depth(instructions_of(program), 0, x) >= 0,
    decreases program.len(),
{
    if program.len() > 0 {
        let before = program.drop_last();
        let text = instructions_of(program);
        assert forall|y: int| 0 <= y <= before.len() implies #[trigger] depth(before, 0, y)
            >= 0 by {
            lemma_depth_same(before, program, 0, y);
            assert(depth(program, 0, y) >= 0);
        }
        if x <= instructions_of(before).len() {
            lemma_prefix_depth(before, x);
            lemma_depth_same(instructions_of(before), text, 0, x);
        } else {
            lemma_instructions_depth(program);
            assert(depth(program, 0, program.len() as int) >= 0);
        }
    }
}

/// A run of a program with balanced brackets that fails on the data (a cell
/// or the pointer out of range, or no input left) fails where the program
/// fails: execution by jumps fails with the same error, on the same data.
pub proof fn lemma_failed_run_agrees_with_jumps(
    program: Seq<char>,
    input: Seq<u8>,
    steps: nat,
    error: VmError,
)
    requires
        balanced(program),
        run_of(program, input, steps).end == RunEnd::Failed(error),
        data_error(error),
    ensures
        ({
            let outcome = run_of(program, input, steps);
            let jumps = jump_run(instructions_of(program), input, JumpState::start(), steps);
            &&& jumps.end == JumpEnd::Failed(error)
            &&& jumps.state.data == data_of(outcome.run)
        }),
{
    lemma_instructions_balanced(program);
    lemma_initial_structured();
    assert(program.take(0) =~= Seq::<char>::empty());
    lemma_run_agrees(Run::start(), JumpState::start(), program, input, steps);
}

/// How many steps a run can take at most before execution by jumps must take
/// one: the characters left in the program, or in a replay the instructions
/// left in the record.
pub open spec fn room(run: Run, program: Seq<char>) -> int {
    if run.vm.replaying() {
        run.vm.instruction.len() - run.vm.cursor
    } else {
        program.len() - run.source_taken
    }
}

proof fn lemma_run_follows(
    run: Run,
    m: JumpState,
    program: Seq<char>,
    input: Seq<u8>,
    jump_steps: nat,
    steps: nat,
)
    requires
        balanced(instructions_of(program)),
        instructions_of(program).len() <= i32::MAX,
        agrees(run, m, instructions_of(program)),
        run.wf(program, input),
        run.vm.instruction == instructions_of(program.take(run.source_taken as int)),
        jump_run(instructions_of(program), input, m, jump_steps).end != JumpEnd::OutOfSteps,
        steps >= jump_steps * (program.len() + 1) + room(run, program),
    ensures
        ({
            let outcome = run_from(run, program, input, steps);
            match jump_run(instructions_of(program), input, m, jump_steps).end {
                JumpEnd::Halted => outcome.end == RunEnd::Completed,
                JumpEnd::Failed(error) => outcome.end == RunEnd::Failed(error) && data_error(
                    error,
                ),
                JumpEnd::OutOfSteps => true,
            }
        }),
    decreases jump_steps, room(run, program),
{
    let text = instructions_of(program);
    let taken = run.source_taken as int;
    let s = run.vm;
    let ready = ready_byte(input, run.input_taken);
    let bases = choose|bases: Seq<int>| #[trigger] nesting_of(s, bases).ok();
    let nest = nesting_of(s, bases);
    lemma_instructions_bound(program.take(taken));
    if run.at_end(program) {
        assert(program.take(taken) =~= program);
    } else {
        let next = run.after_step(program, input);
        let result = run.engine_step(program, input).result;
        lemma_after_step_wf(run, program, input);
        if s.replaying() {
            lemma_replay_step_structured(s, ready);
            if s.cursor < s.replay_returns.last() {
                assert(text[s.cursor] == s.instruction[s.cursor]);
            }
        } else {
            let c = program[taken];
            assert(program.take(taken + 1).drop_last() =~= program.take(taken));
            lemma_instructions_begin(program, taken + 1);
            lemma_dispatch_structured(s, c, ready);
            if is_instruction(c) {
                let at = s.instruction.len() as int;
                assert(s.instruction.push(c)[at] == c);
                lemma_depth_same(s.instruction, text, 0, at);
                assert(depth(text, 0, at + 1) >= 0);
            }
        }
        if passes(run, program) {
            assert(result.is_ok());
            if s.replaying() {
                if s.cursor >= s.replay_returns.last() {
                    lemma_pass_done(nest);
                }
                lemma_replay_agrees(run, program, input, m, text);
                assert(next.vm.replay_returns == s.replay_returns);
                assert(next.vm.cursor == s.cursor + 1);
            } else {
                lemma_dispatch_agrees(run, program, input, m, text);
                assert(!next.vm.replaying());
            }
            assert(room(next, program) == room(run, program) - 1);
            lemma_run_follows(next, m, program, input, jump_steps, (steps - 1) as nat);
        } else {
            match result {
                Ok(_) => {
                    if s.replaying() {
                        lemma_replay_agrees(run, program, input, m, text);
                    } else {
                        lemma_dispatch_agrees(run, program, input, m, text);
                    }
                    let moved = jump_step(text, input, m).unwrap();
                    lemma_instructions_bound(program.take(next.source_taken as int));
                    assert(room(next, program) <= program.len());
                    assert((jump_steps - 1) * (program.len() + 1) + (program.len() + 1)
                        == jump_steps * (program.len() + 1)) by (nonlinear_arith);
                    lemma_run_follows(
                        next,
                        moved,
                        program,
                        input,
                        (jump_steps - 1) as nat,
                        (steps - 1) as nat,
                    );
                },
                Err(error) => {
                    assert(data_error(error));
                    if s.replaying() {
                        lemma_failure_agrees(s, text, input, run.input_taken, run.output, m, error);
                    } else {
                        lemma_failure_agrees(
                            s.record(program[taken]),
                            text,
                            input,
                            run.input_taken,
                            run.output,
                            m,
                            error,
                        );
                    }
                },
            }
        }
    }
}

/// The engine runs every program that execution by jumps can run. If the
/// brackets of a program are balanced, the record can hold its instructions,
/// and execution by jumps ends within `jump_steps` instructions, then a run
/// that is given `(jump_steps + 1) * (program.len() + 1)` steps ends in the
/// same way: it completes if the jumps halt and fails with the same error if
/// they fail, on the same tape, pointer, input and output.
pub proof fn lemma_run_follows_jumps(
    program: Seq<char>,
    input: Seq<u8>,
    jump_steps: nat,
    steps: nat,
)
    requires
        balanced(program),
        instructions_of(program).len() <= i32::MAX,
        jump_run(instructions_of(program), input, JumpState::start(), jump_steps).end
            != JumpEnd::OutOfSteps,
        steps >= (jump_steps + 1) * (program.len() + 1),
    ensures
        ({
            let outcome = run_of(program, input, steps);
            let jumps = jump_run(instructions_of(program), input, JumpState::start(), jump_steps);
            &&& jumps.state.data == data_of(outcome.run)
            &&& match jumps.end {
                JumpEnd::Halted => outcome.end == RunEnd::Completed,
                JumpEnd::Failed(error) => outcome.end == RunEnd::Failed(error),
                JumpEnd::OutOfSteps => true,
            }
        }),
{
    let text = instructions_of(program);
    lemma_instructions_balanced(program);
    lemma_initial_structured();
    assert(program.take(0) =~= Seq::<char>::empty());
    assert((jump_steps + 1) * (program.len() + 1) == jump_steps * (program.len() + 1)
        + program.len() + 1) by (nonlinear_arith);
    assert(jump_steps <= (jump_steps + 1) * (program.len() + 1)) by (nonlinear_arith);
    lemma_run_follows(Run::start(), JumpState::start(), program, input, jump_steps, steps);
    lemma_run_agrees(Run::start(), JumpState::start(), program, input, steps);
    lemma_jump_run_more_steps(text, input, JumpState::start(), jump_steps, steps);
}

} // verus!
