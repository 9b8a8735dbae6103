//! Running a whole program against a given input.
//!
//! `run_program` drives an engine over a program held in memory: it feeds the
//! characters in order, carries every replay through, takes input bytes from a
//! slice and collects the printed bytes. A program may run forever, so a run is
//! bounded by a number of steps.

use crate::agreement::{
    data_error, data_of, lemma_completed_run_agrees_with_jumps,
    lemma_failed_run_agrees_with_jumps,
};
use crate::balance::balanced;
use crate::jumps::{jump_run, JumpEnd, JumpState};
use crate::laws::{instructions_of, lemma_unbalanced_program_fails};
use crate::model::{dispatch, end_of_source, replay_step, Step, VmError, VmState};
use crate::vm::{
    is_replaying, new_brainfuck_status, pending_op, reads_input, resume_replay, run_vm,
    source_ended, BrainfuckVMStatus,
};
use vstd::prelude::*;

verus! {

/// How a run ended.
#[derive(Clone, Copy, Debug, PartialEq, Eq, Structural)]
pub enum RunEnd {
    /// The source was exhausted with every loop closed.
    Completed,
    /// The engine failed.
    Failed(VmError),
    /// The step bound was reached first.
    OutOfSteps,
}

/// A run in progress.
pub struct Run {
    /// The engine.
    pub vm: VmState,
    /// How many characters of the program have been dispatched.
    pub source_taken: nat,
    /// How many bytes of the input have been read.
    pub input_taken: nat,
    /// The bytes printed so far.
    pub output: Seq<u8>,
}

/// A run that has ended.
pub struct RunOutcome {
    pub run: Run,
    pub end: RunEnd,
}

/// The byte that the input holds ready after `taken` bytes have been read.
pub open spec fn ready_byte(input: Seq<u8>, taken: nat) -> Option<u8> {
    if taken < input.len() {
        Some(input[taken as int])
    } else {
        None
    }
}

impl Run {
    /// The start of every run: a fresh engine, nothing consumed, nothing printed.
    pub open spec fn start() -> Run {
        Run { vm: VmState::initial(), source_taken: 0, input_taken: 0, output: Seq::empty() }
    }

    /// Whether nothing is left to do: no replay is in progress and the program
    /// has been dispatched to its end.
    pub open spec fn at_end(self, program: Seq<char>) -> bool {
        !self.vm.replaying() && self.source_taken >= program.len()
    }

    /// Whether the next step takes the ready byte of the input.
    pub open spec fn reads(self, program: Seq<char>) -> bool {
        if self.vm.replaying() {
            match self.vm.pending_op() {
                Some(c) => self.vm.reads_input(c),
                None => false,
            }
        } else {
            self.source_taken < program.len() && self.vm.reads_input(
                program[self.source_taken as int],
            )
        }
    }

    /// What the engine does next: a step of the replay in progress, or else the
    /// dispatch of the next character of the program.
    pub open spec fn engine_step(self, program: Seq<char>, input: Seq<u8>) -> Step {
        if self.vm.replaying() {
            replay_step(self.vm, ready_byte(input, self.input_taken))
        } else {
            dispatch(
                self.vm,
                program[self.source_taken as int],
                false,
                ready_byte(input, self.input_taken),
            )
        }
    }

    /// The run after its next step. A step that succeeds consumes the
    /// character it dispatched and the byte it read, and appends the byte it
    /// printed to the output.
    pub open spec fn after_step(self, program: Seq<char>, input: Seq<u8>) -> Run {
        let step = self.engine_step(program, input);
        Run {
            vm: step.state,
            source_taken: if self.vm.replaying() {
                self.source_taken
            } else {
                self.source_taken + 1
            },
            input_taken: if step.result.is_ok() && self.reads(program) {
                self.input_taken + 1
            } else {
                self.input_taken
            },
            output: match step.result {
                Ok(Some(byte)) => self.output.push(byte),
                _ => self.output,
            },
        }
    }

    /// Whether the run has the shape of a run in progress: the engine is
    /// well-formed and no more was consumed than there is.
    pub open spec fn wf(self, program: Seq<char>, input: Seq<u8>) -> bool {
        &&& self.vm.wf()
        &&& self.source_taken <= program.len()
        &&& self.input_taken <= input.len()
    }
}

/// The outcome of continuing `run` for at most `steps` steps.
///
/// At the end of the program the run is complete, unless a loop is still open.
/// Otherwise a step is taken, if one is left; the run ends with the first step
/// that fails.
pub open spec fn run_from(run: Run, program: Seq<char>, input: Seq<u8>, steps: nat) -> RunOutcome
    decreases steps,
{
    if run.at_end(program) {
        RunOutcome {
            run,
            end: match end_of_source(run.vm) {
                Ok(_) => RunEnd::Completed,
                Err(error) => RunEnd::Failed(error),
            },
        }
    } else if steps == 0 {
        RunOutcome { run, end: RunEnd::OutOfSteps }
    } else {
        let next = run.after_step(program, input);
        match run.engine_step(program, input).result {
            Ok(_) => run_from(next, program, input, (steps - 1) as nat),
            Err(error) => RunOutcome { run: next, end: RunEnd::Failed(error) },
        }
    }
}

/// The outcome of running `program` on a fresh engine with `input`, for at most
/// `steps` steps.
pub open spec fn run_of(program: Seq<char>, input: Seq<u8>, steps: nat) -> RunOutcome {
    run_from(Run::start(), program, input, steps)
}

/// Every step keeps a run in shape.
pub proof fn lemma_after_step_wf(run: Run, program: Seq<char>, input: Seq<u8>)
    requires
        run.wf(program, input),
        !run.at_end(program),
    ensures
        run.after_step(program, input).wf(program, input),
{
    let ready = ready_byte(input, run.input_taken);
    if run.vm.replaying() {
        crate::model::lemma_replay_step_wf(run.vm, ready);
    } else {
        crate::model::lemma_dispatch_wf(run.vm, program[run.source_taken as int], false, ready);
    }
}

/// What a run leaves behind: the engine, the printed bytes, how much of the
/// program and of the input it consumed, and how it ended.
pub struct RunReport {
    /// The engine as the run left it.
    pub status: BrainfuckVMStatus,
    /// The bytes printed, in order.
    pub output: Vec<u8>,
    /// How many characters of the program were dispatched.
    pub source_taken: usize,
    /// How many bytes of the input were read.
    pub input_taken: usize,
    /// How the run ended.
    pub end: RunEnd,
}

impl View for RunReport {
    type V = RunOutcome;

    open spec fn view(&self) -> RunOutcome {
        RunOutcome {
            run: Run {
                vm: self.status@,
                source_taken: self.source_taken as nat,
                input_taken: self.input_taken as nat,
                output: self.output@,
            },
            end: self.end,
        }
    }
}

/// Whether the end of a run is what the program means: a run completes only
/// if the brackets of the program are balanced, and then with the data that
/// execution by jumps leaves when it halts; and a run of a program with
/// balanced brackets that fails on the data fails as execution by jumps fails.
pub open spec fn as_the_program_means(
    program: Seq<char>,
    input: Seq<u8>,
    steps: nat,
    outcome: RunOutcome,
) -> bool {
    let jumps = jump_run(instructions_of(program), input, JumpState::start(), steps);
    &&& outcome.end == RunEnd::Completed ==> {
        &&& balanced(program)
        &&& jumps.end == JumpEnd::Halted
        &&& jumps.state.data == data_of(outcome.run)
    }
    &&& forall|error: VmError|
        balanced(program) && outcome.end == RunEnd::Failed(error) && #[trigger] data_error(error)
            ==> {
            &&& jumps.end == JumpEnd::Failed(error)
            &&& jumps.state.data == data_of(outcome.run)
        }
}

/// Runs `program` on a fresh engine. Bytes for `,` are taken from `input` in
/// order; the bytes printed by `.` are collected in the report. The run stops
/// when the program is done, at the first failure, or after `max_steps` steps,
/// where each dispatched character and each step of a replay counts as one.
///
/// The report is that of the state machine, run step by step, and its end is
/// what the program means when it is executed with jumps between matching
/// brackets.
pub fn run_program(program: &[char], input: &[u8], max_steps: u64) -> (report: RunReport)
    ensures
        report@ == run_of(program@, input@, max_steps as nat),
        report.status@.wf(),
        as_the_program_means(program@, input@, max_steps as nat, report@),
{
    let report = run_steps(program, input, max_steps);
    proof {
        let steps = max_steps as nat;
        lemma_unbalanced_program_fails(program@, input@, steps);
        if report.end == RunEnd::Completed {
            lemma_completed_run_agrees_with_jumps(program@, input@, steps);
        }
        assert forall|error: VmError|
            balanced(program@) && report.end == RunEnd::Failed(error) && #[trigger] data_error(
                error,
            ) implies {
            let jumps = jump_run(instructions_of(program@), input@, JumpState::start(), steps);
            &&& jumps.end == JumpEnd::Failed(error)
            &&& jumps.state.data == data_of(report@.run)
        } by {
            lemma_failed_run_agrees_with_jumps(program@, input@, steps, error);
        }
    }
    report
}

/// Drives a fresh engine over `program`, step by step.
fn run_steps(program: &[char], input: &[u8], max_steps: u64) -> (report: RunReport)
    ensures
        report@ == run_of(program@, input@, max_steps as nat),
        report.status@.wf(),
{
    let mut status = new_brainfuck_status();
    let mut output: Vec<u8> = Vec::new();
    let mut source_taken: usize = 0;
    let mut input_taken: usize = 0;
    let mut steps_left: u64 = max_steps;
    let ghost mut run = Run::start();
    proof {
        assert(output@ =~= Seq::<u8>::empty());
    }
    loop
        invariant
            run == (Run {
                vm: status@,
                source_taken: source_taken as nat,
                input_taken: input_taken as nat,
                output: output@,
            }),
            run.wf(program@, input@),
            run_from(run, program@, input@, steps_left as nat) == run_of(
                program@,
                input@,
                max_steps as nat,
            ),
        decreases steps_left,
    {
        let replaying = is_replaying(&status);
        if !replaying && source_taken >= program.len() {
            let end = match source_ended(&status) {
                Ok(_) => RunEnd::Completed,
                Err(error) => RunEnd::Failed(error),
            };
            return RunReport { status, output, source_taken, input_taken, end };
        }
        if steps_left == 0 {
            return RunReport { status, output, source_taken, input_taken, end: RunEnd::OutOfSteps };
        }
        let ready = if input_taken < input.len() {
            Some(input[input_taken])
        } else {
            None
        };
        proof {
            lemma_after_step_wf(run, program@, input@);
        }
        let reads = if replaying {
            match pending_op(&status) {
                Some(c) => reads_input(&status, c),
                None => false,
            }
        } else {
            reads_input(&status, program[source_taken])
        };
        let result = if replaying {
            resume_replay(&mut status, ready)
        } else {
            let c = program[source_taken];
            source_taken += 1;
            run_vm(&mut status, c, false, ready)
        };
        match result {
            Ok(printed) => {
                if reads {
                    input_taken += 1;
                }
                if let Some(byte) = printed {
                    output.push(byte);
                }
            },
            Err(error) => {
                return RunReport {
                    status,
                    output,
                    source_taken,
                    input_taken,
                    end: RunEnd::Failed(error),
                };
            },
        }
        steps_left -= 1;
        proof {
            run = run.after_step(program@, input@);
        }
    }
}

} // verus!
