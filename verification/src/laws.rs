//! Laws of single steps and of whole runs.

use crate::balance::{
    balanced, bracket, depth, lemma_depth_bound, lemma_dispatch_structured,
    lemma_initial_structured, lemma_replay_step_structured, never_negative, structured,
};
use crate::model::{
    dispatch, done, end_of_source, output_byte, replay_step, VmError, VmState,
};
use crate::op::is_instruction;
use crate::run::{ready_byte, run_from, run_of, Run, RunEnd, RunOutcome, RunReport};
use crate::tape::cell_at;
use vstd::prelude::*;

verus! {

/// Output is reduced modulo 256, for negative values too: values that differ
/// by 256 print the same byte, a byte prints as itself, 256 prints as 0 and -1
/// as 255.
pub proof fn lemma_output_wraps(value: int)
    ensures
        output_byte(value + 256) == output_byte(value),
        output_byte(value) == value % 256,
        0 <= value < 256 ==> output_byte(value) == value,
        output_byte(256) == 0,
        output_byte(-1) == 255,
{
    vstd::arithmetic::div_mod::lemma_mod_add_multiples_vanish(value, 256);
}

/// A character that is no instruction is ignored: it is not recorded, moves
/// no cursor and changes nothing, from the source and in a replay alike.
pub proof fn lemma_other_characters_are_ignored(
    s: VmState,
    c: char,
    via_loop: bool,
    input: Option<u8>,
)
    requires
        !is_instruction(c),
    ensures
        dispatch(s, c, via_loop, input) == done(s),
{
}

/// The record only grows, and only by instructions of the source: a dispatch
/// from the source that does not find the record full appends the instruction
/// and moves the cursor onto it, and nothing else ever changes the record.
pub proof fn lemma_record_is_append_only(s: VmState, c: char, via_loop: bool, input: Option<u8>)
    requires
        s.wf(),
        s.accepts(via_loop),
    ensures
        ({
            let after = dispatch(s, c, via_loop, input).state;
            if !via_loop && is_instruction(c) && s.instruction.len() < i32::MAX {
                &&& after.instruction == s.instruction.push(c)
                &&& after.instruction.len() == s.instruction.len() + 1
                &&& !after.replaying() ==> after.cursor == s.cursor + 1
            } else {
                after.instruction == s.instruction
            }
        }),
        replay_step(s, input).state.instruction == s.instruction,
{
}

/// In skip mode no instruction has an effect on the tape, the pointer, the
/// input or the output; only `[` and `]` are counted.
pub proof fn lemma_skipped_instructions_do_nothing(
    s: VmState,
    c: char,
    via_loop: bool,
    input: Option<u8>,
)
    requires
        s.skipping(),
    ensures
        ({
            let step = dispatch(s, c, via_loop, input);
            &&& step.state.tape == s.tape
            &&& step.state.tape_ptr == s.tape_ptr
            &&& step.state.loop_starts == s.loop_starts
            &&& step.state.replay_returns == s.replay_returns
            &&& !s.reads_input(c)
            &&& step.result.is_ok() ==> {
                &&& step.result == Ok::<Option<u8>, VmError>(None)
                &&& step.state.skip_depth == s.skip_depth + bracket(c)
            }
        }),
{
}

/// A loop is left only with its cell at 0: whenever a `]` or a step of a
/// replay takes a loop start away, the selected cell holds 0, and exactly the
/// innermost loop start goes. A replay ends only in this way.
pub proof fn lemma_loops_end_on_zero(s: VmState, c: char, via_loop: bool, input: Option<u8>)
    ensures
        ({
            let after = dispatch(s, c, via_loop, input).state;
            after.loop_starts.len() < s.loop_starts.len() ==> {
                &&& after.cell() == 0
                &&& after.loop_starts == s.loop_starts.drop_last()
            }
        }),
        ({
            let after = replay_step(s, input).state;
            &&& after.loop_starts.len() < s.loop_starts.len() ==> {
                &&& after.cell() == 0
                &&& after.loop_starts == s.loop_starts.drop_last()
            }
            &&& after.replay_returns.len() < s.replay_returns.len() ==> {
                &&& after.cell() == 0
                &&& after.replay_returns == s.replay_returns.drop_last()
                &&& after.loop_starts == s.loop_starts.drop_last()
            }
        }),
{
}

/// A run that ended within `steps` steps ends in the same way, and in the same
/// state, under every larger bound.
pub proof fn lemma_more_steps_change_nothing(
    run: Run,
    program: Seq<char>,
    input: Seq<u8>,
    steps: nat,
    more: nat,
)
    requires
        run_from(run, program, input, steps).end != RunEnd::OutOfSteps,
        steps <= more,
    ensures
        run_from(run, program, input, more) == run_from(run, program, input, steps),
    decreases steps,
{
    if !run.at_end(program) && steps > 0 {
        if run.engine_step(program, input).result.is_ok() {
            lemma_more_steps_change_nothing(
                run.after_step(program, input),
                program,
                input,
                (steps - 1) as nat,
                (more - 1) as nat,
            );
        }
    }
}

/// Determinism: two runs of the same program on fresh engines with the same
/// input bytes, each of which ended within its step bound, printed the same
/// bytes, left the same tape and the same engine state, and ended alike.
pub proof fn lemma_runs_agree(
    program: Seq<char>,
    input: Seq<u8>,
    first_bound: nat,
    second_bound: nat,
    first: RunReport,
    second: RunReport,
)
    requires
        first@ == run_of(program, input, first_bound),
        second@ == run_of(program, input, second_bound),
        first.end != RunEnd::OutOfSteps,
        second.end != RunEnd::OutOfSteps,
    ensures
        first.output@ == second.output@,
        first.status.tape@ == second.status.tape@,
        first.status@ == second.status@,
        first.input_taken == second.input_taken,
        first.end == second.end,
{
    if first_bound <= second_bound {
        lemma_more_steps_change_nothing(Run::start(), program, input, first_bound, second_bound);
    } else {
        lemma_more_steps_change_nothing(Run::start(), program, input, second_bound, first_bound);
    }
}

/// Under one step bound the two runs agree however they ended.
pub proof fn lemma_runs_agree_under_one_bound(
    program: Seq<char>,
    input: Seq<u8>,
    bound: nat,
    first: RunReport,
    second: RunReport,
)
    requires
        first@ == run_of(program, input, bound),
        second@ == run_of(program, input, bound),
    ensures
        first.output@ == second.output@,
        first.status.tape@ == second.status.tape@,
        first.status@ == second.status@,
        first.input_taken == second.input_taken,
        first.source_taken == second.source_taken,
        first.end == second.end,
{
}

/// Whether a program has no loop.
pub open spec fn loop_free(program: Seq<char>) -> bool {
    forall|i: int| 0 <= i < program.len() ==> bracket(#[trigger] program[i]) == 0
}

/// Whether a program has no loop and reads no input: it only moves the
/// pointer, changes cells and prints.
pub open spec fn straight_line(program: Seq<char>) -> bool {
    &&& loop_free(program)
    &&& forall|i: int| 0 <= i < program.len() ==> #[trigger] program[i] != ','
}

/// By how much a character moves the pointer.
pub open spec fn move_of(c: char) -> int {
    if c == '>' {
        1
    } else if c == '<' {
        -1
    } else {
        0
    }
}

/// By how much a character changes the selected cell.
pub open spec fn change_of(c: char) -> int {
    if c == '+' {
        1
    } else if c == '-' {
        -1
    } else {
        0
    }
}

/// Where the pointer stands after a program without loops: the number of `>`
/// less the number of `<`.
pub open spec fn pointer_after(program: Seq<char>) -> int
    decreases program.len(),
{
    if program.len() == 0 {
        0
    } else {
        pointer_after(program.drop_last()) + move_of(program.last())
    }
}

/// How many bytes a program without loops reads: the number of `,`.
pub open spec fn reads_of(program: Seq<char>) -> nat
    decreases program.len(),
{
    if program.len() == 0 {
        0
    } else if program.last() == ',' {
        reads_of(program.drop_last()) + 1
    } else {
        reads_of(program.drop_last())
    }
}

/// The net sum of the increments and decrements that a program without loops
/// applies at `index`: each `+` and `-` counts where the pointer stands when it
/// is reached.
pub open spec fn net_change(program: Seq<char>, index: int) -> int
    decreases program.len(),
{
    if program.len() == 0 {
        0
    } else {
        net_change(program.drop_last(), index) + if pointer_after(program.drop_last()) == index {
            change_of(program.last())
        } else {
            0
        }
    }
}

/// The value that a program without loops leaves at `index`: the byte last
/// read there, or 0 if none was, and the net sum of the increments and
/// decrements applied there since.
pub open spec fn value_left(program: Seq<char>, input: Seq<u8>, index: int) -> int
    decreases program.len(),
{
    if program.len() == 0 {
        0
    } else if pointer_after(program.drop_last()) != index {
        value_left(program.drop_last(), input, index)
    } else if program.last() == ',' {
        input[reads_of(program.drop_last()) as int] as int
    } else {
        value_left(program.drop_last(), input, index) + change_of(program.last())
    }
}

/// The bytes that a program without loops prints.
pub open spec fn printed_by(program: Seq<char>, input: Seq<u8>) -> Seq<u8>
    decreases program.len(),
{
    if program.len() == 0 {
        Seq::empty()
    } else if program.last() == '.' {
        printed_by(program.drop_last(), input).push(
            output_byte(
                value_left(program.drop_last(), input, pointer_after(program.drop_last())),
            ),
        )
    } else {
        printed_by(program.drop_last(), input)
    }
}

/// Neither the pointer nor a value can outgrow the length of the program by
/// more than a byte.
pub proof fn lemma_loop_free_bounds(program: Seq<char>, input: Seq<u8>, index: int)
    ensures
        -program.len() <= pointer_after(program) <= program.len(),
        -program.len() <= value_left(program, input, index) <= program.len() + 255,
        reads_of(program) <= program.len(),
    decreases program.len(),
{
    if program.len() > 0 {
        lemma_loop_free_bounds(program.drop_last(), input, index);
    }
}

/// Where nothing is read, what is left is the net change.
pub proof fn lemma_value_without_reads(program: Seq<char>, input: Seq<u8>, index: int)
    requires
        straight_line(program),
    ensures
        value_left(program, input, index) == net_change(program, index),
        reads_of(program) == 0,
    decreases program.len(),
{
    if program.len() > 0 {
        assert(program.last() == program[program.len() - 1]);
        lemma_value_without_reads(program.drop_last(), input, index);
    }
}

/// The state of a run that has dispatched the first `taken` characters of a
/// program without loops: each cell holds the value left there, the pointer
/// stands where the moves took it, and no loop is open.
pub open spec fn loop_free_progress(
    run: Run,
    program: Seq<char>,
    input: Seq<u8>,
    taken: nat,
) -> bool {
    let done = program.take(taken as int);
    &&& taken <= program.len()
    &&& run.source_taken == taken
    &&& run.input_taken == reads_of(done)
    &&& run.output == printed_by(done, input)
    &&& run.vm.wf()
    &&& !run.vm.replaying()
    &&& run.vm.skip_depth == 0
    &&& run.vm.loop_starts.len() == 0
    &&& run.vm.instruction.len() <= taken
    &&& run.vm.tape_ptr == pointer_after(done)
    &&& forall|i: int| #[trigger] cell_at(run.vm.tape, i) == value_left(done, input, i)
}

proof fn lemma_loop_free_from(
    run: Run,
    program: Seq<char>,
    input: Seq<u8>,
    steps: nat,
    taken: nat,
)
    requires
        loop_free(program),
        loop_free_progress(run, program, input, taken),
    ensures
        ({
            let outcome = run_from(run, program, input, steps);
            &&& outcome.end == RunEnd::Completed ==> loop_free_progress(
                outcome.run,
                program,
                input,
                program.len(),
            )
            &&& program.len() + 255 <= i32::MAX && steps >= program.len() - taken && reads_of(
                program,
            ) <= input.len() ==> outcome.end == RunEnd::Completed
        }),
    decreases program.len() - taken,
{
    if taken >= program.len() {
        assert(program.take(taken as int) =~= program);
    } else if steps > 0 {
        let c = program[taken as int];
        let done = program.take(taken as int);
        let next_done = program.take(taken as int + 1);
        assert(next_done.drop_last() =~= done);
        assert(next_done.last() == c);
        let next = run.after_step(program, input);
        lemma_loop_free_bounds(done, input, run.vm.tape_ptr);
        assert(value_left(done, input, run.vm.tape_ptr) == run.vm.cell());
        lemma_reads_grow(program, taken as int + 1);
        crate::model::lemma_dispatch_wf(run.vm, c, false, ready_byte(input, run.input_taken));
        if run.engine_step(program, input).result.is_ok() {
            assert forall|i: int| #[trigger]
                cell_at(next.vm.tape, i) == value_left(next_done, input, i) by {
                assert(cell_at(run.vm.tape, i) == value_left(done, input, i));
            }
            assert(loop_free_progress(next, program, input, taken + 1));
            lemma_loop_free_from(next, program, input, (steps - 1) as nat, taken + 1);
        }
    }
}

/// A longer beginning of a program reads at least as much.
proof fn lemma_reads_grow(program: Seq<char>, taken: int)
    requires
        0 <= taken <= program.len(),
    ensures
        reads_of(program.take(taken)) <= reads_of(program),
    decreases program.len(),
{
    if taken == program.len() {
        assert(program.take(taken) =~= program);
    } else {
        assert(program.drop_last().take(taken) =~= program.take(taken));
        lemma_reads_grow(program.drop_last(), taken);
    }
}

/// A program without loops that runs to completion leaves in each cell the
/// byte last read there and the net sum of the `+` and `-` applied there since,
/// wherever the moves went in between; it leaves the pointer where the moves
/// took it, has read one byte for each `,` and printed one for each `.`.
pub proof fn lemma_loop_free_run(program: Seq<char>, input: Seq<u8>, steps: nat)
    requires
        loop_free(program),
        run_of(program, input, steps).end == RunEnd::Completed,
    ensures
        ({
            let run = run_of(program, input, steps).run;
            &&& run.vm.tape_ptr == pointer_after(program)
            &&& run.input_taken == reads_of(program)
            &&& run.output == printed_by(program, input)
            &&& forall|i: int| #[trigger] cell_at(run.vm.tape, i) == value_left(program, input, i)
        }),
{
    assert(program.take(0) =~= Seq::<char>::empty());
    lemma_loop_free_from(Run::start(), program, input, steps, 0);
    assert(program.take(program.len() as int) =~= program);
}

/// A program without loops and without `,` that runs to completion leaves in
/// each cell the net sum of the `+` and `-` applied there, wherever the moves
/// went in between, and leaves the pointer where the moves took it.
pub proof fn lemma_straight_line_tape(program: Seq<char>, input: Seq<u8>, steps: nat)
    requires
        straight_line(program),
        run_of(program, input, steps).end == RunEnd::Completed,
    ensures
        run_of(program, input, steps).run.vm.tape_ptr == pointer_after(program),
        run_of(program, input, steps).run.input_taken == 0,
        forall|i: int| #[trigger]
            cell_at(run_of(program, input, steps).run.vm.tape, i) == net_change(program, i),
{
    lemma_loop_free_run(program, input, steps);
    assert forall|i: int| #[trigger]
        cell_at(run_of(program, input, steps).run.vm.tape, i) == net_change(program, i) by {
        lemma_value_without_reads(program, input, i);
    }
    lemma_value_without_reads(program, input, 0);
}

/// A program without loops runs to completion within as many steps as it has
/// characters, if the input holds a byte for each `,` and the program is not
/// so long that a cell, the pointer or the record could overflow.
pub proof fn lemma_loop_free_run_completes(program: Seq<char>, input: Seq<u8>, steps: nat)
    requires
        loop_free(program),
        program.len() + 255 <= i32::MAX,
        reads_of(program) <= input.len(),
        steps >= program.len(),
    ensures
        run_of(program, input, steps).end == RunEnd::Completed,
{
    assert(program.take(0) =~= Seq::<char>::empty());
    lemma_loop_free_from(Run::start(), program, input, steps, 0);
}

/// What holds of a run at every step: the engine is structured, and the
/// brackets dispatched so far are those of the record, none of them a `]` that
/// closes nothing.
pub open spec fn run_structured(run: Run, program: Seq<char>) -> bool {
    &&& structured(run.vm)
    &&& run.source_taken <= program.len()
    &&& depth(program, 0, run.source_taken as int) == depth(
        run.vm.instruction,
        0,
        run.vm.instruction.len() as int,
    )
    &&& never_negative(program, 0, run.source_taken as int)
}

/// How the end of a run reflects the brackets of its program.
pub open spec fn end_reflects_brackets(outcome: RunOutcome, program: Seq<char>) -> bool {
    let taken = outcome.run.source_taken as int;
    &&& outcome.end == RunEnd::Completed ==> balanced(program)
    &&& outcome.end == RunEnd::Failed(VmError::UnmatchedLoopEnd) ==> {
        &&& 0 < taken <= program.len()
        &&& program[taken - 1] == ']'
        &&& depth(program, 0, taken - 1) == 0
    }
    &&& outcome.end == RunEnd::Failed(VmError::UnclosedLoop) ==> {
        &&& taken == program.len()
        &&& depth(program, 0, taken) > 0
        &&& never_negative(program, 0, taken)
    }
    &&& outcome.end != RunEnd::Failed(VmError::SkipOverflow)
}

proof fn lemma_run_structure(run: Run, program: Seq<char>, input: Seq<u8>, steps: nat)
    requires
        run_structured(run, program),
    ensures
        end_reflects_brackets(run_from(run, program, input, steps), program),
        run_from(run, program, input, steps).end == RunEnd::Completed ==> structured(
            run_from(run, program, input, steps).run.vm,
        ),
    decreases steps,
{
    let ready = ready_byte(input, run.input_taken);
    if run.at_end(program) {
        lemma_dispatch_structured(run.vm, ' ', ready);
    } else if steps > 0 {
        let next = run.after_step(program, input);
        if run.vm.replaying() {
            lemma_replay_step_structured(run.vm, ready);
        } else {
            lemma_dispatch_structured(run.vm, program[run.source_taken as int], ready);
        }
        if run.engine_step(program, input).result.is_ok() {
            assert(run_structured(next, program));
            lemma_run_structure(next, program, input, (steps - 1) as nat);
        }
    }
}

/// A run that completes leaves the engine settled: structured, with no loop
/// open, nothing being skipped or replayed, and the whole program recorded.
pub proof fn lemma_completed_run_is_settled(program: Seq<char>, input: Seq<u8>, steps: nat)
    requires
        run_of(program, input, steps).end == RunEnd::Completed,
    ensures
        ({
            let vm = run_of(program, input, steps).run.vm;
            &&& structured(vm)
            &&& !vm.replaying()
            &&& !vm.skipping()
            &&& vm.loop_starts.len() == 0
            &&& vm.instruction == instructions_of(program)
            &&& vm.cursor == vm.instruction.len() - 1
        }),
{
    lemma_initial_structured();
    lemma_run_structure(Run::start(), program, input, steps);
    lemma_record_is_the_source(program, input, steps);
    lemma_completed_run_takes_all(Run::start(), program, input, steps);
    let outcome = run_of(program, input, steps);
    assert(program.take(outcome.run.source_taken as int) =~= program);
}

proof fn lemma_completed_run_takes_all(run: Run, program: Seq<char>, input: Seq<u8>, steps: nat)
    requires
        run.wf(program, input),
        run_from(run, program, input, steps).end == RunEnd::Completed,
    ensures
        run_from(run, program, input, steps).run.at_end(program),
        run_from(run, program, input, steps).run.source_taken == program.len(),
        end_of_source(run_from(run, program, input, steps).run.vm).is_ok(),
    decreases steps,
{
    if !run.at_end(program) && steps > 0 {
        crate::run::lemma_after_step_wf(run, program, input);
        lemma_completed_run_takes_all(
            run.after_step(program, input),
            program,
            input,
            (steps - 1) as nat,
        );
    }
}

/// A run completes only if the brackets of its program are balanced: a program
/// with a `]` that closes nothing, or with a `[` that is never closed, never
/// runs to completion, whatever its input and however many steps it is given.
pub proof fn lemma_unbalanced_program_fails(program: Seq<char>, input: Seq<u8>, steps: nat)
    ensures
        run_of(program, input, steps).end == RunEnd::Completed ==> balanced(program),
        !balanced(program) ==> run_of(program, input, steps).end != RunEnd::Completed,
{
    lemma_initial_structured();
    lemma_run_structure(Run::start(), program, input, steps);
}

/// The structural errors are exact. A run fails with `UnmatchedLoopEnd` only at
/// a `]` of the program before which every `[` has been closed, and with
/// `UnclosedLoop` only when the whole program has been dispatched and leaves a
/// `[` open. A program with balanced brackets fails with neither, and no run
/// fails with `SkipOverflow`.
pub proof fn lemma_structural_errors_are_exact(program: Seq<char>, input: Seq<u8>, steps: nat)
    ensures
        end_reflects_brackets(run_of(program, input, steps), program),
        balanced(program) ==> {
            let end = run_of(program, input, steps).end;
            &&& end != RunEnd::Failed(VmError::UnmatchedLoopEnd)
            &&& end != RunEnd::Failed(VmError::UnclosedLoop)
        },
{
    lemma_initial_structured();
    lemma_run_structure(Run::start(), program, input, steps);
    let outcome = run_of(program, input, steps);
    if balanced(program) && outcome.end == RunEnd::Failed(VmError::UnmatchedLoopEnd) {
        let taken = outcome.run.source_taken as int;
        assert(depth(program, 0, taken) >= 0);
    }
}

/// The instructions among the characters of a text, in order.
pub open spec fn instructions_of(text: Seq<char>) -> Seq<char>
    decreases text.len(),
{
    if text.len() == 0 {
        Seq::empty()
    } else if is_instruction(text.last()) {
        instructions_of(text.drop_last()).push(text.last())
    } else {
        instructions_of(text.drop_last())
    }
}

/// A text holds at most as many instructions as characters.
pub proof fn lemma_instructions_bound(text: Seq<char>)
    ensures
        instructions_of(text).len() <= text.len(),
    decreases text.len(),
{
    if text.len() > 0 {
        lemma_instructions_bound(text.drop_last());
    }
}

proof fn lemma_record_follows_source(run: Run, program: Seq<char>, input: Seq<u8>, steps: nat)
    requires
        run.wf(program, input),
        run.vm.instruction == instructions_of(program.take(run.source_taken as int)),
    ensures
        ({
            let outcome = run_from(run, program, input, steps);
            outcome.end != RunEnd::Failed(VmError::LedgerFull) ==> outcome.run.vm.instruction
                == instructions_of(program.take(outcome.run.source_taken as int))
        }),
    decreases steps,
{
    if !run.at_end(program) && steps > 0 {
        let next = run.after_step(program, input);
        crate::run::lemma_after_step_wf(run, program, input);
        if !run.vm.replaying() {
            let taken = run.source_taken as int;
            assert(program.take(taken + 1).drop_last() =~= program.take(taken));
        }
        if run.engine_step(program, input).result.is_ok() {
            lemma_record_follows_source(next, program, input, (steps - 1) as nat);
        }
    }
}

/// The record is the source without the characters that are no instructions:
/// however a run ends, unless the record was full, the engine has recorded
/// exactly the instructions among the characters dispatched, in their order.
pub proof fn lemma_record_is_the_source(program: Seq<char>, input: Seq<u8>, steps: nat)
    ensures
        ({
            let outcome = run_of(program, input, steps);
            outcome.end != RunEnd::Failed(VmError::LedgerFull) ==> outcome.run.vm.instruction
                == instructions_of(program.take(outcome.run.source_taken as int))
        }),
{
    assert(program.take(0) =~= Seq::<char>::empty());
    lemma_record_follows_source(Run::start(), program, input, steps);
}

/// A run that stands before the `[` of a loop, as it is once the loop up to
/// and including the `]` at `end` has been passed over in skip mode: the
/// instructions of the loop are recorded, and nothing else has changed.
pub open spec fn passed_over(run: Run, program: Seq<char>, end: int) -> Run {
    let passed = instructions_of(program.subrange(run.source_taken as int, end + 1));
    Run {
        vm: VmState {
            instruction: run.vm.instruction + passed,
            cursor: run.vm.cursor + passed.len(),
            ..run.vm
        },
        source_taken: (end + 1) as nat,
        ..run
    }
}

proof fn lemma_skipping(
    run: Run,
    current: Run,
    program: Seq<char>,
    input: Seq<u8>,
    steps: nat,
    end: int,
    at: int,
)
    requires
        !run.vm.replaying(),
        !run.vm.skipping(),
        run.source_taken < at <= end < program.len(),
        program[end] == ']',
        depth(program, run.source_taken as int + 1, end) == 0,
        never_negative(program, run.source_taken as int + 1, end),
        run.vm.instruction.len() + (end + 1 - run.source_taken) <= i32::MAX,
        steps >= end + 1 - at,
        ({
            let passed = instructions_of(program.subrange(run.source_taken as int, at));
            current == Run {
                vm: VmState {
                    instruction: run.vm.instruction + passed,
                    cursor: run.vm.cursor + passed.len(),
                    skip_depth: 1 + depth(program, run.source_taken as int + 1, at),
                    ..run.vm
                },
                source_taken: at as nat,
                ..run
            }
        }),
    ensures
        run_from(current, program, input, steps) == run_from(
            passed_over(run, program, end),
            program,
            input,
            (steps - (end + 1 - at)) as nat,
        ),
    decreases end - at,
{
    let start = run.source_taken as int;
    let c = program[at];
    let passed = instructions_of(program.subrange(start, at));
    let further = instructions_of(program.subrange(start, at + 1));
    assert(program.subrange(start, at + 1).drop_last() =~= program.subrange(start, at));
    lemma_instructions_bound(program.subrange(start, at));
    lemma_depth_bound(program, start + 1, at);
    assert(depth(program, start + 1, at) >= 0);
    let next = current.after_step(program, input);
    if is_instruction(c) {
        assert((run.vm.instruction + passed).push(c) =~= run.vm.instruction + further);
    }
    if at < end {
        assert(depth(program, start + 1, at + 1) >= 0);
        lemma_skipping(run, next, program, input, (steps - 1) as nat, end, at + 1);
    } else {
        assert(next == passed_over(run, program, end));
    }
}

/// A loop whose cell is 0 when its `[` is reached is passed over: the engine
/// goes on behind the matching `]` with the tape, the pointer, the input and
/// the output untouched and no loop opened, having only recorded the
/// instructions of the loop, one step for each character.
pub proof fn lemma_loop_on_zero_is_skipped(
    run: Run,
    program: Seq<char>,
    input: Seq<u8>,
    steps: nat,
    end: int,
)
    requires
        !run.vm.replaying(),
        !run.vm.skipping(),
        run.vm.cell() == 0,
        run.source_taken < end < program.len(),
        program[run.source_taken as int] == '[',
        program[end] == ']',
        depth(program, run.source_taken as int + 1, end) == 0,
        never_negative(program, run.source_taken as int + 1, end),
        run.vm.instruction.len() + (end + 1 - run.source_taken) <= i32::MAX,
        steps >= end + 1 - run.source_taken,
    ensures
        run_from(run, program, input, steps) == run_from(
            passed_over(run, program, end),
            program,
            input,
            (steps - (end + 1 - run.source_taken)) as nat,
        ),
{
    let start = run.source_taken as int;
    let next = run.after_step(program, input);
    let first = program.subrange(start, start + 1);
    assert(first.last() == '[');
    assert(instructions_of(first.drop_last()) =~= Seq::<char>::empty());
    assert(run.vm.instruction.push('[') =~= run.vm.instruction + instructions_of(first));
    lemma_skipping(run, next, program, input, (steps - 1) as nat, end, start + 1);
}

} // verus!
