use brainfuck_vm::model::VmError;
use brainfuck_vm::run::{run_program, RunEnd, RunReport};

fn run(source: &str, input: &[u8]) -> RunReport {
    let program: Vec<char> = source.chars().collect();
    run_program(&program, input, 1_000_000)
}

fn cells(report: &RunReport, from: i32, to: i32) -> Vec<i32> {
    (from..=to).map(|i| report.status.tape.get(i)).collect()
}

#[test]
fn straight_line_program_leaves_net_sums() {
    // Pointer path: 0, 1, 2, 1, 0, -1, 0; changes: +2 at 0, +1 at 1, -3 at 2,
    // +1 at 1, -1 at 0, +4 at -1, +1 at 0.
    let report = run("++>+>---<+<-<++++>+", &[]);
    assert_eq!(report.end, RunEnd::Completed);
    assert_eq!(cells(&report, -3, 4), vec![0, 0, 4, 2, 2, -3, 0, 0]);
    assert_eq!(report.status.tape_ptr, 0);
    assert_eq!(report.input_taken, 0);
    assert!(report.output.is_empty());
}

#[test]
fn moves_in_either_direction_reach_the_same_cells() {
    // The same changes at the same indices, reached by different walks.
    let one = run("+>++>+++", &[]);
    let other = run(">>+++<++<+", &[]);
    assert_eq!(cells(&one, -1, 3), vec![0, 1, 2, 3, 0]);
    assert_eq!(cells(&one, -1, 3), cells(&other, -1, 3));
    assert_eq!(one.status.tape_ptr, 2);
    assert_eq!(other.status.tape_ptr, 0);
}

#[test]
fn straight_line_program_takes_one_step_per_character() {
    let program: Vec<char> = "+ - > < .".chars().collect();
    let exact = run_program(&program, &[], program.len() as u64);
    assert_eq!(exact.end, RunEnd::Completed);
    let short = run_program(&program, &[], program.len() as u64 - 1);
    assert_eq!(short.end, RunEnd::OutOfSteps);
    assert_eq!(short.source_taken, program.len() - 1);
}

#[test]
fn three_increments_print_three() {
    let report = run("+++.", &[]);
    assert_eq!(report.end, RunEnd::Completed);
    assert_eq!(report.output, vec![3u8]);
    assert_eq!(report.status.tape.get(0), 3);
}

#[test]
fn loop_on_zero_cell_is_skipped() {
    let report = run("[-]", &[]);
    assert_eq!(report.end, RunEnd::Completed);
    assert_eq!(cells(&report, -3, 3), vec![0; 7]);
    assert_eq!(report.status.tape.stored(), 0);
    assert_eq!(report.status.jump_loop, 0);
    assert!(report.status.instruction_loop_ptr.is_empty());
    assert_eq!(report.status.instruction, vec!['[', '-', ']']);
    assert_eq!(report.status.instruction_ptr_current, 2);
}

#[test]
fn skip_mode_is_entered_and_left() {
    let program: Vec<char> = "[-]".chars().collect();
    let after_start = run_program(&program[..1], &[], 10);
    assert_eq!(after_start.status.jump_loop, 1);
    assert_eq!(after_start.end, RunEnd::Failed(VmError::UnclosedLoop));
    let after_body = run_program(&program[..2], &[], 10);
    assert_eq!(after_body.status.jump_loop, 1);
    assert_eq!(after_body.status.tape.get(0), 0);
    let whole = run_program(&program, &[], 10);
    assert_eq!(whole.status.jump_loop, 0);
    assert_eq!(whole.end, RunEnd::Completed);
}

#[test]
fn skipped_loop_counts_nested_brackets() {
    let program: Vec<char> = "[+[.,>]-[<]]+.".chars().collect();
    let inside = run_program(&program[..3], &[], 100);
    assert_eq!(inside.status.jump_loop, 2);
    let after_inner = run_program(&program[..7], &[], 100);
    assert_eq!(after_inner.status.jump_loop, 1);
    let report = run_program(&program, &[7], 100);
    assert_eq!(report.end, RunEnd::Completed);
    assert_eq!(report.output, vec![1u8]);
    assert_eq!(report.input_taken, 0);
    assert_eq!(report.status.tape_ptr, 0);
    assert_eq!(report.status.tape.get(0), 1);
    assert_eq!(report.status.jump_loop, 0);
    assert!(report.status.instruction_loop_ptr.is_empty());
}

#[test]
fn clear_loop_runs_its_body_three_times() {
    let report = run("+++[-]", &[]);
    assert_eq!(report.end, RunEnd::Completed);
    assert_eq!(report.status.tape.get(0), 0);
    assert!(report.status.instruction_loop_ptr.is_empty());
    // Printing the cell at the top of the body shows each pass: 3, 2, 1.
    let traced = run("+++[.-]", &[]);
    assert_eq!(traced.end, RunEnd::Completed);
    assert_eq!(traced.output, vec![3u8, 2, 1]);
    assert_eq!(traced.status.tape.get(0), 0);
}

#[test]
fn clear_loop_takes_ten_steps() {
    // Six characters, then two replays of the body: each is one instruction
    // and one look at the cell.
    let program: Vec<char> = "+++[-]".chars().collect();
    assert_eq!(run_program(&program, &[], 10).end, RunEnd::Completed);
    let short = run_program(&program, &[], 9);
    assert_eq!(short.end, RunEnd::OutOfSteps);
    assert_eq!(short.status.tape.get(0), 0);
    assert_eq!(short.status.replay_return, vec![5]);
}

#[test]
fn nested_loops_leave_the_traced_tape() {
    let report = run("++[>++[>+<-]<-]", &[]);
    assert_eq!(report.end, RunEnd::Completed);
    assert_eq!(cells(&report, -2, 4), vec![0, 0, 0, 0, 4, 0, 0]);
    assert_eq!(report.status.tape_ptr, 0);
    assert_eq!(report.status.instruction.len(), 15);
    assert_eq!(report.status.instruction_ptr_current, 14);
    assert!(report.status.instruction_loop_ptr.is_empty());
    assert!(report.status.replay_return.is_empty());
    assert_eq!(report.status.jump_loop, 0);
    assert!(report.output.is_empty());
}

#[test]
fn multiplication_by_nested_loops() {
    // 3 * 4 * 5 accumulated in cell 3.
    let report = run("+++[>++++[>+++++[>+<-]<-]<-]", &[]);
    assert_eq!(report.end, RunEnd::Completed);
    assert_eq!(cells(&report, 0, 4), vec![0, 0, 0, 60, 0]);
}

#[test]
fn loop_skipped_inside_a_replayed_body() {
    // The inner loop is entered on the first pass only.
    let report = run("++>+<[>[-.]<-.]", &[]);
    assert_eq!(report.end, RunEnd::Completed);
    assert_eq!(report.output, vec![0u8, 1, 0]);
    assert_eq!(cells(&report, 0, 1), vec![0, 0]);
}

#[test]
fn hello_world() {
    let source = "++++++++[>++++[>++>+++>+++>+<<<<-]>+>+>->>+[<]<-]>>.>---.+++++++..+++.>>.<-.<.+++.------.--------.>>+.>++.";
    let report = run(source, &[]);
    assert_eq!(report.end, RunEnd::Completed);
    assert_eq!(report.output, b"Hello World!\n".to_vec());
}

#[test]
fn echo_until_a_zero_byte() {
    let report = run(",[.,]", &[72, 105, 0, 33]);
    assert_eq!(report.end, RunEnd::Completed);
    assert_eq!(report.output, vec![72u8, 105]);
    assert_eq!(report.input_taken, 3);
    assert_eq!(report.status.tape.get(0), 0);
}

#[test]
fn input_byte_becomes_the_cell_value() {
    let report = run("+++,>,", &[255, 0]);
    assert_eq!(report.end, RunEnd::Completed);
    assert_eq!(cells(&report, 0, 1), vec![255, 0]);
    assert_eq!(report.input_taken, 2);
    assert_eq!(report.status.tape.stored(), 2);
}

#[test]
fn read_without_input_is_fatal() {
    let report = run("+,+", &[]);
    assert_eq!(report.end, RunEnd::Failed(VmError::InputUnavailable));
    assert_eq!(report.status.tape.get(0), 1);
    assert_eq!(report.source_taken, 2);
    assert_eq!(report.input_taken, 0);
    let later = run(",,", &[9]);
    assert_eq!(later.end, RunEnd::Failed(VmError::InputUnavailable));
    assert_eq!(later.input_taken, 1);
    assert_eq!(later.status.tape.get(0), 9);
}

#[test]
fn read_in_a_replay_without_input_is_fatal() {
    let report = run("+[,]", &[3]);
    assert_eq!(report.end, RunEnd::Failed(VmError::InputUnavailable));
    assert_eq!(report.input_taken, 1);
    assert_eq!(report.status.tape.get(0), 3);
}

#[test]
fn same_program_and_input_give_the_same_run() {
    let source = ",[>+.<-],.";
    let first = run(source, &[5, 9]);
    let second = run(source, &[5, 9]);
    assert_eq!(first.end, RunEnd::Completed);
    assert_eq!(first.end, second.end);
    assert_eq!(first.output, vec![1u8, 2, 3, 4, 5, 9]);
    assert_eq!(first.output, second.output);
    assert_eq!(cells(&first, -4, 4), cells(&second, -4, 4));
    assert_eq!(cells(&first, 0, 1), vec![9, 5]);
    assert_eq!(first.input_taken, 2);
    assert_eq!(second.input_taken, 2);
    assert_eq!(first.status.instruction, second.status.instruction);
}

#[test]
fn a_larger_step_bound_changes_nothing() {
    let program: Vec<char> = "++[>++[>+<-]<-]>>.".chars().collect();
    let tight = run_program(&program, &[], 200);
    let loose = run_program(&program, &[], 2_000_000);
    assert_eq!(tight.end, RunEnd::Completed);
    assert_eq!(loose.end, RunEnd::Completed);
    assert_eq!(tight.output, vec![4u8]);
    assert_eq!(tight.output, loose.output);
    assert_eq!(cells(&tight, -1, 3), cells(&loose, -1, 3));
    assert_eq!(tight.status.instruction_ptr_current, loose.status.instruction_ptr_current);
}

#[test]
fn endless_loop_runs_out_of_steps() {
    let report = run("+[]", &[]);
    assert_eq!(report.end, RunEnd::OutOfSteps);
    assert_eq!(report.status.tape.get(0), 1);
    assert_eq!(report.source_taken, 3);
    assert_eq!(report.status.replay_return, vec![2]);
    let none = run_program(&['+'], &[], 0);
    assert_eq!(none.end, RunEnd::OutOfSteps);
    assert_eq!(none.source_taken, 0);
    let empty = run_program(&[], &[], 0);
    assert_eq!(empty.end, RunEnd::Completed);
}

#[test]
fn unmatched_loop_end_is_fatal() {
    let report = run("+]", &[]);
    assert_eq!(report.end, RunEnd::Failed(VmError::UnmatchedLoopEnd));
    let after_skip = run("[]]", &[]);
    assert_eq!(after_skip.end, RunEnd::Failed(VmError::UnmatchedLoopEnd));
    assert_eq!(after_skip.source_taken, 3);
    let on_zero = run("]", &[]);
    assert_eq!(on_zero.end, RunEnd::Failed(VmError::UnmatchedLoopEnd));
    let after_loop = run("+[-]]+", &[]);
    assert_eq!(after_loop.end, RunEnd::Failed(VmError::UnmatchedLoopEnd));
    assert_eq!(after_loop.source_taken, 5);
    assert_eq!(after_loop.status.tape.get(0), 0);
}

#[test]
fn unclosed_loop_is_fatal() {
    let entered = run("+[-", &[]);
    assert_eq!(entered.end, RunEnd::Failed(VmError::UnclosedLoop));
    assert_eq!(entered.status.instruction_loop_ptr, vec![1]);
    let skipped = run("[+", &[]);
    assert_eq!(skipped.end, RunEnd::Failed(VmError::UnclosedLoop));
    assert_eq!(skipped.status.tape.get(0), 0);
    let nested = run("+[[-]", &[]);
    assert_eq!(nested.end, RunEnd::Failed(VmError::UnclosedLoop));
}

#[test]
fn output_is_reduced_modulo_256() {
    let wrapped: String = "+".repeat(256) + ".";
    let report = run(&wrapped, &[]);
    assert_eq!(report.status.tape.get(0), 256);
    assert_eq!(report.output, vec![0u8]);
    let below = run("-.", &[]);
    assert_eq!(below.status.tape.get(0), -1);
    assert_eq!(below.output, vec![255u8]);
    let top: String = "+".repeat(255) + ".";
    assert_eq!(run(&top, &[]).output, vec![255u8]);
    let far_below: String = "-".repeat(257) + ".";
    assert_eq!(run(&far_below, &[]).output, vec![255u8]);
}

#[test]
fn cells_are_not_masked_to_a_byte() {
    let source: String = "+".repeat(300) + "[-]";
    let program: Vec<char> = source.chars().collect();
    let report = run_program(&program, &[], 10_000);
    assert_eq!(report.end, RunEnd::Completed);
    assert_eq!(report.status.tape.get(0), 0);
    let counted: String = "-".repeat(3) + "[+.]";
    assert_eq!(run(&counted, &[]).output, vec![254u8, 255, 0]);
}

#[test]
fn other_characters_take_no_place_in_the_record() {
    let report = run("a +\n\tb+ c.\u{e9}!", &[]);
    assert_eq!(report.end, RunEnd::Completed);
    assert_eq!(report.output, vec![2u8]);
    assert_eq!(report.status.instruction, vec!['+', '+', '.']);
    assert_eq!(report.status.instruction_ptr_current, 2);
    assert_eq!(report.source_taken, 12);
}

#[test]
fn comments_inside_a_replayed_loop_are_not_replayed() {
    let report = run("++ two [ body > + < - done ] end", &[]);
    assert_eq!(report.end, RunEnd::Completed);
    assert_eq!(cells(&report, 0, 1), vec![0, 2]);
    assert_eq!(report.status.instruction, vec!['+', '+', '[', '>', '+', '<', '-', ']']);
}

#[test]
fn only_written_cells_are_stored() {
    let report = run(">>>+<<<<<<-.>.", &[]);
    assert_eq!(report.end, RunEnd::Completed);
    assert_eq!(report.status.tape.stored(), 2);
    assert_eq!(cells(&report, -3, 3), vec![-1, 0, 0, 0, 0, 0, 1]);
    assert_eq!(report.output, vec![255u8, 0]);
}

/// What a program with balanced brackets computes when it is executed the
/// usual way, with a table of matching brackets: the printed bytes, the cells
/// from -40 to 40, the pointer, the number of bytes read and the number of
/// instructions executed. `None` if it reads past the end of the input.
fn by_jumps(source: &str, input: &[u8]) -> Option<(Vec<u8>, Vec<i32>, i32, usize, u64)> {
    let text: Vec<char> = source.chars().filter(|c| "+-<>.,[]".contains(*c)).collect();
    let mut partner = vec![0usize; text.len()];
    let mut open = Vec::new();
    for (i, c) in text.iter().enumerate() {
        if *c == '[' {
            open.push(i);
        } else if *c == ']' {
            let start = open.pop().unwrap();
            partner[start] = i;
            partner[i] = start;
        }
    }
    assert!(open.is_empty());
    let mut tape = std::collections::HashMap::new();
    let (mut pointer, mut pc, mut taken, mut executed) = (0i32, 0usize, 0usize, 0u64);
    let mut printed = Vec::new();
    while pc < text.len() {
        let cell = *tape.get(&pointer).unwrap_or(&0i32);
        match text[pc] {
            '+' => {
                tape.insert(pointer, cell + 1);
            }
            '-' => {
                tape.insert(pointer, cell - 1);
            }
            '>' => pointer += 1,
            '<' => pointer -= 1,
            '.' => printed.push(cell.rem_euclid(256) as u8),
            ',' => {
                tape.insert(pointer, *input.get(taken)? as i32);
                taken += 1;
            }
            '[' if cell == 0 => pc = partner[pc],
            ']' if cell != 0 => pc = partner[pc],
            _ => {}
        }
        pc += 1;
        executed += 1;
    }
    let window = (-40..=40).map(|i| *tape.get(&i).unwrap_or(&0)).collect();
    Some((printed, window, pointer, taken, executed))
}

const SAMPLES: [(&str, &[u8]); 12] = [
    ("", &[]),
    ("+++[-]", &[]),
    ("++[>++[>+<-]<-]", &[]),
    ("[[[+]]]>+.", &[]),
    (",[.,]", &[1, 2, 3, 0]),
    (",>,<[->+<]>.", &[200, 100]),
    ("+[>[<-]<[->+<]]>.", &[]),
    ("-[+>+<]>.", &[]),
    ("++++[>+++[>++[>+<-]<-]<-]>>>.", &[]),
    (">+>+>+>+[<]<<[>>[>]+[<]<-]", &[]),
    ("a loop [ that is never run , . ] and + one . that is", &[]),
    ("++++++++[>++++[>++>+++>+++>+<<<<-]>+>+>->>+[<]<-]>>.>---.+++++++..+++.>>.<-.<.+++.------.--------.>>+.>++.", &[]),
];

#[test]
fn completed_runs_agree_with_execution_by_jumps() {
    for (source, input) in SAMPLES {
        let (printed, window, pointer, taken, _) = by_jumps(source, input).unwrap();
        let report = run(source, input);
        assert_eq!(report.end, RunEnd::Completed, "{}", source);
        assert_eq!(report.output, printed, "{}", source);
        assert_eq!(cells(&report, -40, 40), window, "{}", source);
        assert_eq!(report.status.tape_ptr, pointer, "{}", source);
        assert_eq!(report.input_taken, taken, "{}", source);
    }
}

#[test]
fn runs_complete_within_the_bound_on_steps() {
    for (source, input) in SAMPLES {
        let (_, _, _, _, executed) = by_jumps(source, input).unwrap();
        let program: Vec<char> = source.chars().collect();
        let bound = (executed + 1) * (program.len() as u64 + 1);
        assert_eq!(run_program(&program, input, bound).end, RunEnd::Completed, "{}", source);
    }
}

#[test]
fn failing_runs_agree_with_execution_by_jumps() {
    // Both read the first byte, print it twice and then find no input left.
    let source = ",[..,]";
    assert!(by_jumps(source, &[6]).is_none());
    let report = run(source, &[6]);
    assert_eq!(report.end, RunEnd::Failed(VmError::InputUnavailable));
    assert_eq!(report.output, vec![6u8, 6]);
    assert_eq!(report.input_taken, 1);
    assert_eq!(report.status.tape.get(0), 6);
}
