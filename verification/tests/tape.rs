use brainfuck_vm::tape::Tape;

#[test]
fn untouched_cells_read_zero() {
    let tape = Tape::new();
    assert_eq!(tape.get(0), 0);
    assert_eq!(tape.get(-1), 0);
    assert_eq!(tape.get(i32::MAX), 0);
    assert_eq!(tape.get(i32::MIN), 0);
    assert_eq!(tape.stored(), 0);
}

#[test]
fn reading_stores_nothing() {
    let mut tape = Tape::new();
    tape.set(4, 1);
    assert_eq!(tape.get(5), 0);
    assert_eq!(tape.get(4), 1);
    assert_eq!(tape.stored(), 1);
}

#[test]
fn set_overwrites_one_cell() {
    let mut tape = Tape::new();
    tape.set(2, 10);
    tape.set(-2, -10);
    tape.set(2, 11);
    assert_eq!(tape.get(2), 11);
    assert_eq!(tape.get(-2), -10);
    assert_eq!(tape.get(0), 0);
    assert_eq!(tape.stored(), 2);
    tape.set(2, 0);
    assert_eq!(tape.get(2), 0);
    assert_eq!(tape.stored(), 2);
}

#[test]
fn modify_adds_to_a_cell() {
    let mut tape = Tape::new();
    assert!(tape.modify(7, 5));
    assert!(tape.modify(7, -8));
    assert_eq!(tape.get(7), -3);
    assert!(tape.modify(i32::MIN, 1));
    assert_eq!(tape.get(i32::MIN), 1);
    assert!(tape.modify(i32::MAX, -1));
    assert_eq!(tape.get(i32::MAX), -1);
    assert_eq!(tape.stored(), 3);
}

#[test]
fn modify_refuses_a_sum_out_of_range() {
    let mut tape = Tape::new();
    tape.set(0, i32::MAX);
    assert!(!tape.modify(0, 1));
    assert_eq!(tape.get(0), i32::MAX);
    assert!(tape.modify(0, -1));
    assert_eq!(tape.get(0), i32::MAX - 1);
    tape.set(1, i32::MIN);
    assert!(!tape.modify(1, -1));
    assert_eq!(tape.get(1), i32::MIN);
    assert!(tape.modify(1, i32::MAX));
    assert_eq!(tape.get(1), -1);
}
