use brainfuck_vm::model::VmError;
use brainfuck_vm::op::{classify, BrainfuckOp};
use brainfuck_vm::vm::{
    is_replaying, is_well_formed, new_brainfuck_status, next_op, pending_op, reads_input,
    resume_replay, run_vm, source_ended, BrainfuckVMStatus, LEDGER_CAPACITY,
};

/// Feeds `source` to the engine, one character at a time, without input, and
/// carries every replay through.
fn feed(status: &mut BrainfuckVMStatus, source: &str) -> Vec<u8> {
    let mut printed = Vec::new();
    for c in source.chars() {
        assert!(!is_replaying(status));
        if let Some(byte) = run_vm(status, c, false, None).unwrap() {
            printed.push(byte);
        }
        while is_replaying(status) {
            if let Some(byte) = resume_replay(status, None).unwrap() {
                printed.push(byte);
            }
        }
    }
    printed
}

#[test]
fn classify_knows_the_eight_instructions() {
    assert_eq!(classify('+'), BrainfuckOp::IncrementValueOp);
    assert_eq!(classify('-'), BrainfuckOp::DecrementValueOp);
    assert_eq!(classify('>'), BrainfuckOp::IncrementPtrOp);
    assert_eq!(classify('<'), BrainfuckOp::DecrementPtrOp);
    assert_eq!(classify('.'), BrainfuckOp::PrintOp);
    assert_eq!(classify(','), BrainfuckOp::ReadOp);
    assert_eq!(classify('['), BrainfuckOp::LoopStartOp);
    assert_eq!(classify(']'), BrainfuckOp::LoopEndOp);
}

#[test]
fn classify_maps_everything_else_to_no_instruction() {
    for c in [' ', '\n', '\t', 'a', '0', '#', '{', '}', '(', '*', '/', '\u{0}', '\u{ff0b}'] {
        assert_eq!(classify(c), BrainfuckOp::MonoStateOp);
    }
}

#[test]
fn fresh_engine_is_blank() {
    let status = new_brainfuck_status();
    assert_eq!(status.tape.stored(), 0);
    assert_eq!(status.tape_ptr, 0);
    assert!(status.instruction.is_empty());
    assert_eq!(status.instruction_ptr_current, -1);
    assert!(status.instruction_loop_ptr.is_empty());
    assert_eq!(status.jump_loop, 0);
    assert!(status.replay_return.is_empty());
    assert!(!is_replaying(&status));
    assert_eq!(pending_op(&status), None);
    assert_eq!(source_ended(&status), Ok(()));
}

#[test]
fn next_op_records_source_instructions() {
    let mut status = new_brainfuck_status();
    assert_eq!(next_op(&mut status, '+', false), BrainfuckOp::IncrementValueOp);
    assert_eq!(status.instruction, vec!['+']);
    assert_eq!(status.instruction_ptr_current, 0);
    assert_eq!(next_op(&mut status, ']', false), BrainfuckOp::LoopEndOp);
    assert_eq!(status.instruction, vec!['+', ']']);
    assert_eq!(status.instruction_ptr_current, 1);
    // Recording alone has no other effect.
    assert_eq!(status.tape.get(0), 0);
    assert!(status.instruction_loop_ptr.is_empty());
}

#[test]
fn next_op_records_nothing_else() {
    let mut status = new_brainfuck_status();
    assert_eq!(next_op(&mut status, 'x', false), BrainfuckOp::MonoStateOp);
    assert!(status.instruction.is_empty());
    assert_eq!(status.instruction_ptr_current, -1);
    assert_eq!(next_op(&mut status, '-', true), BrainfuckOp::DecrementValueOp);
    assert_eq!(next_op(&mut status, ' ', true), BrainfuckOp::MonoStateOp);
    assert!(status.instruction.is_empty());
    assert_eq!(status.instruction_ptr_current, -1);
}

#[test]
fn each_instruction_has_its_effect() {
    let mut status = new_brainfuck_status();
    assert_eq!(run_vm(&mut status, '+', false, None), Ok(None));
    assert_eq!(status.tape.get(0), 1);
    assert_eq!(run_vm(&mut status, '>', false, None), Ok(None));
    assert_eq!(status.tape_ptr, 1);
    assert_eq!(run_vm(&mut status, '-', false, None), Ok(None));
    assert_eq!(status.tape.get(1), -1);
    assert_eq!(run_vm(&mut status, '.', false, None), Ok(Some(255)));
    assert_eq!(run_vm(&mut status, '<', false, None), Ok(None));
    assert_eq!(run_vm(&mut status, '<', false, None), Ok(None));
    assert_eq!(status.tape_ptr, -1);
    assert_eq!(run_vm(&mut status, ',', false, Some(200)), Ok(None));
    assert_eq!(status.tape.get(-1), 200);
    assert_eq!(run_vm(&mut status, '.', false, Some(1)), Ok(Some(200)));
    assert_eq!(run_vm(&mut status, '?', false, Some(1)), Ok(None));
    assert_eq!(status.instruction, vec!['+', '>', '-', '.', '<', '<', ',', '.']);
    assert_eq!(status.instruction_ptr_current, 7);
}

#[test]
fn input_is_wanted_only_by_a_read_outside_skip_mode() {
    let mut status = new_brainfuck_status();
    assert!(reads_input(&status, ','));
    assert!(!reads_input(&status, '.'));
    assert!(!reads_input(&status, 'x'));
    assert_eq!(run_vm(&mut status, '[', false, None), Ok(None));
    assert_eq!(status.jump_loop, 1);
    assert!(!reads_input(&status, ','));
    // In skip mode a read takes nothing and needs nothing.
    assert_eq!(run_vm(&mut status, ',', false, None), Ok(None));
    assert_eq!(run_vm(&mut status, ',', false, Some(5)), Ok(None));
    assert_eq!(status.tape.get(0), 0);
    assert_eq!(status.tape.stored(), 0);
}

#[test]
fn skip_mode_suspends_every_effect() {
    let mut status = new_brainfuck_status();
    let printed = feed(&mut status, "[+>-<.");
    assert!(printed.is_empty());
    assert_eq!(status.tape.stored(), 0);
    assert_eq!(status.tape_ptr, 0);
    assert_eq!(status.jump_loop, 1);
    assert_eq!(status.instruction.len(), 6);
    assert_eq!(source_ended(&status), Err(VmError::UnclosedLoop));
    feed(&mut status, "]");
    assert_eq!(status.jump_loop, 0);
    assert_eq!(source_ended(&status), Ok(()));
}

#[test]
fn loop_start_records_its_own_position() {
    let mut status = new_brainfuck_status();
    feed(&mut status, "+[>+[");
    assert_eq!(status.instruction_loop_ptr, vec![1, 4]);
    assert_eq!(status.jump_loop, 0);
    assert_eq!(source_ended(&status), Err(VmError::UnclosedLoop));
}

#[test]
fn loop_end_on_zero_closes_the_loop_at_once() {
    let mut status = new_brainfuck_status();
    feed(&mut status, "+[-");
    assert_eq!(status.instruction_loop_ptr, vec![1]);
    assert_eq!(run_vm(&mut status, ']', false, None), Ok(None));
    assert!(!is_replaying(&status));
    assert!(status.instruction_loop_ptr.is_empty());
    assert_eq!(status.instruction_ptr_current, 3);
}

#[test]
fn replay_of_a_clear_loop_step_by_step() {
    let mut status = new_brainfuck_status();
    feed(&mut status, "+++[-");
    assert_eq!(status.tape.get(0), 2);
    assert_eq!(run_vm(&mut status, ']', false, None), Ok(None));
    assert!(is_replaying(&status));
    assert_eq!(status.replay_return, vec![5]);
    assert_eq!(status.instruction_ptr_current, 4);
    assert_eq!(pending_op(&status), Some('-'));

    assert_eq!(resume_replay(&mut status, None), Ok(None));
    assert_eq!(status.tape.get(0), 1);
    assert_eq!(status.instruction_ptr_current, 5);
    assert_eq!(pending_op(&status), None);

    assert_eq!(resume_replay(&mut status, None), Ok(None));
    assert_eq!(status.instruction_ptr_current, 4);
    assert_eq!(status.instruction_loop_ptr, vec![3]);

    assert_eq!(resume_replay(&mut status, None), Ok(None));
    assert_eq!(status.tape.get(0), 0);
    assert_eq!(status.instruction_ptr_current, 5);

    assert_eq!(resume_replay(&mut status, None), Ok(None));
    assert!(!is_replaying(&status));
    assert!(status.instruction_loop_ptr.is_empty());
    assert_eq!(status.instruction_ptr_current, 5);
    assert_eq!(status.instruction.len(), 6);
}

#[test]
fn nested_replay_saves_and_restores_the_cursor() {
    let mut status = new_brainfuck_status();
    feed(&mut status, "++[>++[-]<-");
    assert_eq!(status.instruction_loop_ptr, vec![2]);
    assert_eq!(status.tape.get(0), 1);
    assert_eq!(run_vm(&mut status, ']', false, None), Ok(None));
    assert_eq!(status.replay_return, vec![11]);
    assert_eq!(status.instruction_ptr_current, 3);
    for _ in 0..5 {
        assert_eq!(resume_replay(&mut status, None), Ok(None));
    }
    // `> + + [ -` have been replayed; the inner `]` is next.
    assert_eq!(status.instruction_ptr_current, 8);
    assert_eq!(status.instruction_loop_ptr, vec![2, 6]);
    assert_eq!(status.tape.get(1), 1);
    assert_eq!(resume_replay(&mut status, None), Ok(None));
    assert_eq!(status.replay_return, vec![11, 8]);
    assert_eq!(status.instruction_ptr_current, 7);
    assert_eq!(resume_replay(&mut status, None), Ok(None));
    assert_eq!(status.tape.get(1), 0);
    assert_eq!(status.instruction_ptr_current, 8);
    // The inner replay ends: the outer one goes on behind the inner `]`.
    assert_eq!(resume_replay(&mut status, None), Ok(None));
    assert_eq!(status.replay_return, vec![11]);
    assert_eq!(status.instruction_loop_ptr, vec![2]);
    assert_eq!(status.instruction_ptr_current, 9);
    assert_eq!(resume_replay(&mut status, None), Ok(None));
    assert_eq!(resume_replay(&mut status, None), Ok(None));
    assert_eq!(status.tape.get(0), 0);
    assert_eq!(status.instruction_ptr_current, 11);
    assert_eq!(resume_replay(&mut status, None), Ok(None));
    assert!(!is_replaying(&status));
    assert!(status.instruction_loop_ptr.is_empty());
    assert_eq!(status.instruction_ptr_current, 11);
    assert_eq!(status.instruction.len(), 12);
    assert_eq!(source_ended(&status), Ok(()));
}

#[test]
fn replay_does_not_record() {
    let mut status = new_brainfuck_status();
    let printed = feed(&mut status, "+++[.-]");
    assert_eq!(printed, vec![3, 2, 1]);
    assert_eq!(status.instruction, vec!['+', '+', '+', '[', '.', '-', ']']);
    assert_eq!(status.instruction_ptr_current, 6);
}

#[test]
fn replay_reads_input_when_it_reaches_a_read() {
    let mut status = new_brainfuck_status();
    feed(&mut status, "+[");
    assert_eq!(run_vm(&mut status, ',', false, Some(4)), Ok(None));
    assert_eq!(run_vm(&mut status, ']', false, None), Ok(None));
    assert!(is_replaying(&status));
    assert_eq!(pending_op(&status), Some(','));
    assert!(reads_input(&status, ','));
    assert_eq!(resume_replay(&mut status, Some(0)), Ok(None));
    assert_eq!(status.tape.get(0), 0);
    assert_eq!(pending_op(&status), None);
    assert_eq!(resume_replay(&mut status, Some(9)), Ok(None));
    assert!(!is_replaying(&status));
    assert_eq!(status.tape.get(0), 0);
}

#[test]
fn resume_outside_a_replay_does_nothing() {
    let mut status = new_brainfuck_status();
    feed(&mut status, "+>");
    assert_eq!(resume_replay(&mut status, Some(3)), Ok(None));
    assert_eq!(status.tape.get(0), 1);
    assert_eq!(status.tape_ptr, 1);
    assert_eq!(status.instruction_ptr_current, 1);
    assert!(!is_replaying(&status));
}

#[test]
fn read_without_a_byte_fails() {
    let mut status = new_brainfuck_status();
    assert_eq!(run_vm(&mut status, ',', false, None), Err(VmError::InputUnavailable));
    assert_eq!(status.tape.stored(), 0);
}

#[test]
fn loop_end_without_a_loop_fails() {
    let mut status = new_brainfuck_status();
    assert_eq!(run_vm(&mut status, ']', false, None), Err(VmError::UnmatchedLoopEnd));
    let mut other = new_brainfuck_status();
    feed(&mut other, "+[-]");
    assert_eq!(run_vm(&mut other, ']', false, None), Err(VmError::UnmatchedLoopEnd));
}

#[test]
fn cell_out_of_range_fails() {
    let mut status = new_brainfuck_status();
    status.tape.set(0, i32::MAX);
    assert_eq!(run_vm(&mut status, '-', false, None), Ok(None));
    assert_eq!(run_vm(&mut status, '+', false, None), Ok(None));
    assert_eq!(run_vm(&mut status, '+', false, None), Err(VmError::CellOverflow));
    assert_eq!(status.tape.get(0), i32::MAX);
    status.tape.set(0, i32::MIN);
    assert_eq!(run_vm(&mut status, '-', false, None), Err(VmError::CellOverflow));
    assert_eq!(status.tape.get(0), i32::MIN);
}

#[test]
fn pointer_out_of_range_fails() {
    let mut status = new_brainfuck_status();
    status.tape_ptr = i32::MAX;
    assert_eq!(run_vm(&mut status, '+', false, None), Ok(None));
    assert_eq!(status.tape.get(i32::MAX), 1);
    assert_eq!(run_vm(&mut status, '>', false, None), Err(VmError::PointerOverflow));
    assert_eq!(status.tape_ptr, i32::MAX);
    status.tape_ptr = i32::MIN;
    assert_eq!(run_vm(&mut status, '<', false, None), Err(VmError::PointerOverflow));
    assert_eq!(status.tape_ptr, i32::MIN);
    assert_eq!(run_vm(&mut status, '>', false, None), Ok(None));
    assert_eq!(status.tape_ptr, i32::MIN + 1);
}

#[test]
fn skip_counter_out_of_range_fails() {
    let mut status = new_brainfuck_status();
    status.jump_loop = i32::MAX;
    assert_eq!(run_vm(&mut status, '[', false, None), Err(VmError::SkipOverflow));
    assert_eq!(status.jump_loop, i32::MAX);
    assert_eq!(run_vm(&mut status, ']', false, None), Ok(None));
    assert_eq!(status.jump_loop, i32::MAX - 1);
}

#[test]
fn record_capacity_is_the_range_of_positions() {
    assert_eq!(LEDGER_CAPACITY, i32::MAX as usize);
}

#[test]
fn engine_states_are_well_formed() {
    let mut status = new_brainfuck_status();
    assert!(is_well_formed(&status));
    feed(&mut status, "++[>++[-");
    assert!(is_well_formed(&status));
    assert_eq!(run_vm(&mut status, ']', false, None), Ok(None));
    assert!(is_replaying(&status));
    assert!(is_well_formed(&status));
    while is_replaying(&status) {
        assert_eq!(resume_replay(&mut status, None), Ok(None));
        assert!(is_well_formed(&status));
    }
}

#[test]
fn corrupt_states_are_recognised() {
    let mut status = new_brainfuck_status();
    feed(&mut status, "+[-");
    status.instruction_ptr_current = 0;
    assert!(!is_well_formed(&status));
    status.instruction_ptr_current = 2;
    assert!(is_well_formed(&status));
    status.instruction_loop_ptr.push(3);
    assert!(!is_well_formed(&status));
    status.instruction_loop_ptr.pop();
    status.jump_loop = -1;
    assert!(!is_well_formed(&status));
    status.jump_loop = 0;
    status.replay_return.push(1);
    assert!(!is_well_formed(&status));
    status.replay_return[0] = 2;
    assert!(is_well_formed(&status));
    status.instruction_ptr_current = 4;
    assert!(!is_well_formed(&status));
    status.instruction_ptr_current = -1;
    assert!(!is_well_formed(&status));
}
