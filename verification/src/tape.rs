//! The tape: unbounded in both directions, stored sparsely.

use std::collections::HashMap;
use vstd::prelude::*;

verus! {

/// A tape on which nothing has been written: no cell is stored.
pub open spec fn blank_tape() -> Map<int, int> {
    Map::empty()
}

/// The value that a tape holds at `index`: what was last written there, and 0
/// where nothing was written.
pub open spec fn cell_at(tape: Map<int, int>, index: int) -> int {
    if tape.contains_key(index) {
        tape[index]
    } else {
        0
    }
}

/// Whether `tape` can be the contents of a tape: finitely many cells are
/// stored, each at an index and with a value in the range of `i32`.
pub open spec fn tape_contents(tape: Map<int, int>) -> bool {
    &&& tape.dom().finite()
    &&& forall|i: int| #[trigger]
        tape.contains_key(i) ==> i32::MIN <= i <= i32::MAX && i32::MIN <= tape[i] <= i32::MAX
}

/// A tape of `i32` cells addressed by `i32` indices. Only cells that have been
/// written occupy storage; every other cell reads as 0.
pub struct Tape {
    cells: HashMap<i32, i32>,
}

impl View for Tape {
    type V = Map<int, int>;

    /// The cells that have been written, each with its value.
    closed spec fn view(&self) -> Map<int, int> {
        Map::new(
            |i: int| i32::MIN <= i <= i32::MAX && self.cells@.contains_key(i as i32),
            |i: int| self.cells@[i as i32] as int,
        )
    }
}

impl Tape {
    proof fn lemma_stored(&self)
        ensures
            self@.dom().finite(),
            self@.dom().len() == self.cells@.dom().len(),
    {
        let widen = |k: i32| k as int;
        assert(self.cells@.dom().map(widen) =~= self@.dom()) by {
            assert forall|i: int| self@.dom().contains(i) implies self.cells@.dom().map(
                widen,
            ).contains(i) by {
                assert(self.cells@.dom().contains(i as i32) && widen(i as i32) == i);
            }
        }
        vstd::set_lib::lemma_map_size(self.cells@.dom(), self@.dom(), widen);
    }

    /// The stored cells are finitely many, and indices and values fit `i32`.
    pub proof fn lemma_contents(&self)
        ensures
            tape_contents(self@),
    {
        self.lemma_stored();
    }

    /// A tape on which nothing has been written.
    pub fn new() -> (tape: Tape)
        ensures
            tape@ == blank_tape(),
    {
        let tape = Tape { cells: HashMap::new() };
        assert(tape@ =~= blank_tape());
        tape
    }

    /// The value of the cell at `index`; 0 if it was never written. Reading
    /// stores nothing.
    pub fn get(&self, index: i32) -> (value: i32)
        ensures
            value == cell_at(self@, index as int),
    {
        match self.cells.get(&index) {
            Some(v) => *v,
            None => 0,
        }
    }

    /// Stores `value` in the cell at `index` and leaves every other cell as it was.
    pub fn set(&mut self, index: i32, value: i32)
        ensures
            final(self)@ == old(self)@.insert(index as int, value as int),
    {
        self.cells.insert(index, value);
        assert(self@ =~= old(self)@.insert(index as int, value as int));
    }

    /// Adds `delta` to the cell at `index` if the sum fits a cell, and says
    /// whether it did. A sum that does not fit leaves the tape unchanged.
    pub fn modify(&mut self, index: i32, delta: i32) -> (fits: bool)
        ensures
            fits == (i32::MIN <= cell_at(old(self)@, index as int) + delta <= i32::MAX),
            fits ==> final(self)@ == old(self)@.insert(
                index as int,
                cell_at(old(self)@, index as int) + delta,
            ),
            !fits ==> final(self)@ == old(self)@,
    {
        let current = self.get(index);
        match current.checked_add(delta) {
            Some(sum) => {
                self.set(index, sum);
                true
            },
            None => false,
        }
    }

    /// How many cells occupy storage: those that have been written.
    pub fn stored(&self) -> (count: usize)
        ensures
            count == self@.dom().len(),
    {
        proof {
            self.lemma_stored();
        }
        self.cells.len()
    }
}

} // verus!
