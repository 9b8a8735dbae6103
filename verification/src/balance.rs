//! Bracket structure: how the loop bookkeeping of the engine follows the
//! nesting of `[` and `]` in the recorded instructions.

use crate::model::{
    dispatch, lemma_dispatch_wf, lemma_replay_step_wf, replay_step, VmError, VmState,
};
use crate::op::{is_instruction, op_of, BrainfuckOp};
use vstd::prelude::*;

verus! {

/// What a character adds to the nesting depth: `[` opens a loop, `]` closes one.
pub open spec fn bracket(c: char) -> int {
    if c == '[' {
        1
    } else if c == ']' {
        -1
    } else {
        0
    }
}

/// The number of `[` less the number of `]` among `text[from..to]`.
pub open spec fn depth(text: Seq<char>, from: int, to: int) -> int
    decreases to - from,
{
    if to <= from {
        0
    } else {
        depth(text, from, to - 1) + bracket(text[to - 1])
    }
}

/// Whether no prefix of `text[from..to]` closes more loops than it opens.
pub open spec fn never_negative(text: Seq<char>, from: int, to: int) -> bool {
    forall|x: int| from <= x <= to ==> #[trigger] depth(text, from, x) >= 0
}

/// Whether every `]` of `text` closes a `[` before it and every `[` is closed.
pub open spec fn balanced(text: Seq<char>) -> bool {
    &&& depth(text, 0, text.len() as int) == 0
    &&& never_negative(text, 0, text.len() as int)
}

/// The depth of a range is the sum of the depths of its two parts.
pub proof fn lemma_depth_split(text: Seq<char>, from: int, mid: int, to: int)
    requires
        from <= mid <= to,
    ensures
        depth(text, from, to) == depth(text, from, mid) + depth(text, mid, to),
    decreases to - mid,
{
    if mid < to {
        lemma_depth_split(text, from, mid, to - 1);
    }
}

/// A range is at most as deep as it is long.
pub proof fn lemma_depth_bound(text: Seq<char>, from: int, to: int)
    requires
        from <= to,
    ensures
        -(to - from) <= depth(text, from, to) <= to - from,
    decreases to - from,
{
    if from < to {
        lemma_depth_bound(text, from, to - 1);
    }
}

/// Appending to a text changes the depth of no range inside it.
pub proof fn lemma_depth_push(text: Seq<char>, c: char, from: int, to: int)
    requires
        0 <= from,
        to <= text.len(),
    ensures
        depth(text.push(c), from, to) == depth(text, from, to),
    decreases to - from,
{
    if from < to {
        lemma_depth_push(text, c, from, to - 1);
    }
}

/// Two texts that agree on a range have the same depth there.
pub proof fn lemma_depth_same(a: Seq<char>, b: Seq<char>, from: int, to: int)
    requires
        0 <= from,
        to <= a.len(),
        to <= b.len(),
        forall|i: int| from <= i < to ==> a[i] == b[i],
    ensures
        depth(a, from, to) == depth(b, from, to),
    decreases to - from,
{
    if from < to {
        lemma_depth_same(a, b, from, to - 1);
    }
}

/// The loop bookkeeping of an engine that is about to execute position `here`
/// of the record `text`.
pub struct Nesting {
    /// The recorded instructions.
    pub text: Seq<char>,
    /// The positions of the loop starts being executed.
    pub starts: Seq<int>,
    /// The number of loop starts being skipped.
    pub skip: int,
    /// The loop ends whose bodies are being replayed.
    pub returns: Seq<int>,
    /// For each replay, how many loop starts were open when it began.
    pub bases: Seq<int>,
    /// The position that is executed next.
    pub here: int,
}

impl Nesting {
    /// Loop start `i` stands at a `[` before `here`, and the text from there
    /// to `here` opens exactly the loops that are counted after it.
    pub open spec fn start_ok(self, i: int) -> bool {
        let p = self.starts[i];
        &&& 0 <= p < self.here
        &&& self.text[p] == '['
        &&& depth(self.text, p + 1, self.here) == self.starts.len() - 1 - i + self.skip
        &&& never_negative(self.text, p + 1, self.here)
    }

    /// Replay `j` returns to a `]` whose loop start is the one that was
    /// innermost when the replay began, with a balanced body in between.
    pub open spec fn return_ok(self, j: int) -> bool {
        let end = self.returns[j];
        let base = self.bases[j];
        &&& 1 <= base <= self.starts.len()
        &&& self.starts[base - 1] < end < self.text.len()
        &&& self.text[end] == ']'
        &&& depth(self.text, self.starts[base - 1] + 1, end) == 0
        &&& never_negative(self.text, self.starts[base - 1] + 1, end)
    }

    /// The bookkeeping matches the bracket structure of the text before `here`.
    pub open spec fn ok(self) -> bool {
        &&& 0 <= self.here <= self.text.len()
        &&& 0 <= self.skip
        &&& self.bases.len() == self.returns.len()
        &&& depth(self.text, 0, self.here) == self.starts.len() + self.skip
        &&& never_negative(self.text, 0, self.here)
        &&& forall|i: int| 0 <= i < self.starts.len() ==> #[trigger] self.start_ok(i)
        &&& forall|i: int, j: int|
            0 <= i < j < self.starts.len() ==> #[trigger] self.starts[i] < #[trigger] self.starts[j]
        &&& forall|j: int| 0 <= j < self.returns.len() ==> #[trigger] self.return_ok(j)
        &&& forall|i: int, j: int|
            0 <= i < j < self.returns.len() ==> #[trigger] self.returns[j]
                < #[trigger] self.returns[i]
        &&& forall|i: int, j: int|
            0 <= i < j < self.bases.len() ==> #[trigger] self.bases[i] < #[trigger] self.bases[j]
        &&& self.returns.len() > 0 ==> self.here <= self.returns.last() && self.returns[0]
            == self.text.len() - 1
    }

    /// Whether the instruction at `here` can be executed: it exists, and in a
    /// replay it comes before the loop end that the replay returns to.
    pub open spec fn ready(self) -> bool {
        &&& self.ok()
        &&& self.here < self.text.len()
        &&& self.returns.len() > 0 ==> self.here < self.returns.last()
    }
}

/// Appending an instruction outside a replay leaves the bookkeeping in order,
/// with the new instruction next to be executed.
pub proof fn lemma_record(n: Nesting, c: char)
    requires
        n.ok(),
        n.returns.len() == 0,
        n.here == n.text.len(),
    ensures
        (Nesting { text: n.text.push(c), ..n }).ready(),
{
    let m = Nesting { text: n.text.push(c), ..n };
    lemma_depth_push(n.text, c, 0, n.here);
    assert forall|x: int| 0 <= x <= m.here implies #[trigger] depth(m.text, 0, x) >= 0 by {
        lemma_depth_push(n.text, c, 0, x);
    }
    assert forall|i: int| 0 <= i < m.starts.len() implies #[trigger] m.start_ok(i) by {
        assert(n.start_ok(i));
        let p = n.starts[i];
        lemma_depth_push(n.text, c, p + 1, n.here);
        assert forall|x: int| p + 1 <= x <= m.here implies #[trigger] depth(m.text, p + 1, x)
            >= 0 by {
            lemma_depth_push(n.text, c, p + 1, x);
        }
    }
}

/// Executing an instruction that is no bracket moves on and changes nothing else.
pub proof fn lemma_plain(n: Nesting)
    requires
        n.ready(),
        bracket(n.text[n.here]) == 0,
    ensures
        (Nesting { here: n.here + 1, ..n }).ok(),
{
    let m = Nesting { here: n.here + 1, ..n };
    assert forall|i: int| 0 <= i < m.starts.len() implies #[trigger] m.start_ok(i) by {
        assert(n.start_ok(i));
    }
    assert forall|j: int| 0 <= j < m.returns.len() implies #[trigger] m.return_ok(j) by {
        assert(n.return_ok(j));
    }
}

/// Entering a loop at a `[` puts its position on top of the loop starts.
pub proof fn lemma_start_entered(n: Nesting)
    requires
        n.ready(),
        n.skip == 0,
        n.text[n.here] == '[',
    ensures
        (Nesting { starts: n.starts.push(n.here), here: n.here + 1, ..n }).ok(),
{
    let m = Nesting { starts: n.starts.push(n.here), here: n.here + 1, ..n };
    assert forall|i: int| 0 <= i < m.starts.len() implies #[trigger] m.start_ok(i) by {
        if i < n.starts.len() {
            assert(n.start_ok(i));
        }
    }
    assert forall|i: int, j: int| 0 <= i < j < m.starts.len() implies #[trigger] m.starts[i]
        < #[trigger] m.starts[j] by {
        assert(n.start_ok(i));
    }
    assert forall|j: int| 0 <= j < m.returns.len() implies #[trigger] m.return_ok(j) by {
        assert(n.return_ok(j));
    }
}

/// Passing a `[` without entering its loop counts one more loop to skip.
pub proof fn lemma_start_skipped(n: Nesting)
    requires
        n.ready(),
        n.text[n.here] == '[',
    ensures
        (Nesting { skip: n.skip + 1, here: n.here + 1, ..n }).ok(),
{
    let m = Nesting { skip: n.skip + 1, here: n.here + 1, ..n };
    assert forall|i: int| 0 <= i < m.starts.len() implies #[trigger] m.start_ok(i) by {
        assert(n.start_ok(i));
    }
    assert forall|j: int| 0 <= j < m.returns.len() implies #[trigger] m.return_ok(j) by {
        assert(n.return_ok(j));
    }
}

/// A `]` in skip mode closes one skipped loop.
pub proof fn lemma_end_skipped(n: Nesting)
    requires
        n.ready(),
        n.skip > 0,
        n.text[n.here] == ']',
    ensures
        (Nesting { skip: n.skip - 1, here: n.here + 1, ..n }).ok(),
{
    let m = Nesting { skip: n.skip - 1, here: n.here + 1, ..n };
    assert forall|i: int| 0 <= i < m.starts.len() implies #[trigger] m.start_ok(i) by {
        assert(n.start_ok(i));
    }
    assert forall|j: int| 0 <= j < m.returns.len() implies #[trigger] m.return_ok(j) by {
        assert(n.return_ok(j));
    }
}

/// Inside a replay, a `]` outside skip mode before the end of the body closes
/// a loop that was entered during this pass: a loop start lies above those that
/// were open when the replay began.
pub proof fn lemma_end_inside_replay(n: Nesting)
    requires
        n.ready(),
        n.skip == 0,
        n.text[n.here] == ']',
        n.returns.len() > 0,
    ensures
        n.starts.len() > n.bases.last() >= 1,
{
    let j = n.returns.len() - 1;
    assert(n.return_ok(j));
    let base = n.bases[j];
    assert(n.start_ok(base - 1));
    let t = n.starts[base - 1];
    assert(depth(n.text, t + 1, n.here + 1) >= 0);
}

/// A `]` that finds its loop finished takes the innermost loop start away.
pub proof fn lemma_end_closed(n: Nesting)
    requires
        n.ready(),
        n.skip == 0,
        n.text[n.here] == ']',
        n.starts.len() > 0,
    ensures
        (Nesting { starts: n.starts.drop_last(), here: n.here + 1, ..n }).ok(),
{
    let m = Nesting { starts: n.starts.drop_last(), here: n.here + 1, ..n };
    assert forall|i: int| 0 <= i < m.starts.len() implies #[trigger] m.start_ok(i) by {
        assert(n.start_ok(i));
    }
    if n.returns.len() > 0 {
        lemma_end_inside_replay(n);
    }
    assert forall|j: int| 0 <= j < m.returns.len() implies #[trigger] m.return_ok(j) by {
        assert(n.return_ok(j));
        assert(n.bases[j] <= n.bases.last());
    }
}

/// A `]` that finds its loop unfinished begins a replay of the body: the
/// bookkeeping is in order at the first instruction behind the loop start.
pub proof fn lemma_end_replayed(n: Nesting)
    requires
        n.ready(),
        n.skip == 0,
        n.text[n.here] == ']',
        n.starts.len() > 0,
        n.returns.len() == 0 ==> n.here == n.text.len() - 1,
    ensures
        (Nesting {
            returns: n.returns.push(n.here),
            bases: n.bases.push(n.starts.len() as int),
            here: n.starts.last() + 1,
            ..n
        }).ok(),
{
    let m = Nesting {
        returns: n.returns.push(n.here),
        bases: n.bases.push(n.starts.len() as int),
        here: n.starts.last() + 1,
        ..n
    };
    let top = n.starts.len() - 1;
    let t = n.starts[top];
    assert(n.start_ok(top));
    lemma_depth_split(n.text, 0, t + 1, n.here);
    assert forall|i: int| 0 <= i < m.starts.len() implies #[trigger] m.start_ok(i) by {
        assert(n.start_ok(i));
        if i < top {
            assert(n.starts[i] < n.starts[top]);
            lemma_depth_split(n.text, n.starts[i] + 1, t + 1, n.here);
        }
    }
    if n.returns.len() > 0 {
        lemma_end_inside_replay(n);
    }
    assert forall|j: int| 0 <= j < m.returns.len() implies #[trigger] m.return_ok(j) by {
        if j < n.returns.len() {
            assert(n.return_ok(j));
        }
    }
    assert forall|i: int, j: int| 0 <= i < j < m.returns.len() implies #[trigger] m.returns[j]
        < #[trigger] m.returns[i] by {
        if j == n.returns.len() {
            assert(n.returns.last() <= n.returns[i]);
        }
    }
    assert forall|i: int, j: int| 0 <= i < j < m.bases.len() implies #[trigger] m.bases[i]
        < #[trigger] m.bases[j] by {
        if j == n.bases.len() {
            assert(n.bases[i] <= n.bases.last());
        }
    }
}

/// When a replay has reached the `]` that it returns to, nothing is being
/// skipped and the loop starts are those that were open when it began.
pub proof fn lemma_pass_done(n: Nesting)
    requires
        n.ok(),
        n.returns.len() > 0,
        n.here == n.returns.last(),
    ensures
        n.skip == 0,
        n.starts.len() == n.bases.last(),
        n.starts.len() > 0,
        n.text[n.here] == ']',
{
    let j = n.returns.len() - 1;
    assert(n.return_ok(j));
    assert(n.start_ok(n.bases[j] - 1));
}

/// Replaying the body once more starts behind the innermost loop start.
pub proof fn lemma_pass_again(n: Nesting)
    requires
        n.ok(),
        n.returns.len() > 0,
        n.here == n.returns.last(),
    ensures
        (Nesting { here: n.starts.last() + 1, ..n }).ok(),
{
    lemma_pass_done(n);
    let m = Nesting { here: n.starts.last() + 1, ..n };
    let top = n.starts.len() - 1;
    let t = n.starts[top];
    assert(n.start_ok(top));
    assert(n.return_ok(n.returns.len() - 1));
    lemma_depth_split(n.text, 0, t + 1, n.here);
    assert forall|i: int| 0 <= i < m.starts.len() implies #[trigger] m.start_ok(i) by {
        assert(n.start_ok(i));
        if i < top {
            assert(n.starts[i] < n.starts[top]);
            lemma_depth_split(n.text, n.starts[i] + 1, t + 1, n.here);
        }
    }
    assert forall|j: int| 0 <= j < m.returns.len() implies #[trigger] m.return_ok(j) by {
        assert(n.return_ok(j));
    }
}

/// Ending a replay closes its loop and goes on behind the `]`, in the
/// enclosing replay if there is one.
pub proof fn lemma_pass_over(n: Nesting)
    requires
        n.ok(),
        n.returns.len() > 0,
        n.here == n.returns.last(),
    ensures
        (Nesting {
            starts: n.starts.drop_last(),
            returns: n.returns.drop_last(),
            bases: n.bases.drop_last(),
            here: n.here + 1,
            ..n
        }).ok(),
{
    lemma_pass_done(n);
    let m = Nesting {
        starts: n.starts.drop_last(),
        returns: n.returns.drop_last(),
        bases: n.bases.drop_last(),
        here: n.here + 1,
        ..n
    };
    let last = n.returns.len() - 1;
    assert(n.return_ok(last));
    assert forall|i: int| 0 <= i < m.starts.len() implies #[trigger] m.start_ok(i) by {
        assert(n.start_ok(i));
    }
    assert forall|j: int| 0 <= j < m.returns.len() implies #[trigger] m.return_ok(j) by {
        assert(n.return_ok(j));
        assert(n.bases[j] < n.bases[last]);
    }
    if m.returns.len() > 0 {
        assert(n.returns[last] < n.returns[last - 1]);
    }
}

/// The position that an engine executes next: in a replay the one at the
/// cursor, otherwise the one that the next instruction of the source will have.
pub open spec fn here(s: VmState) -> int {
    if s.replaying() {
        s.cursor
    } else {
        s.instruction.len() as int
    }
}

/// The loop bookkeeping of an engine state, with `bases` for what the state
/// itself does not hold: how many loop starts were open when each replay began.
pub open spec fn nesting_of(s: VmState, bases: Seq<int>) -> Nesting {
    Nesting {
        text: s.instruction,
        starts: s.loop_starts,
        skip: s.skip_depth,
        returns: s.replay_returns,
        bases,
        here: here(s),
    }
}

/// Whether the loop bookkeeping of a state matches the bracket structure of its
/// record: the open loop starts and the skip counter account for every
/// unclosed `[` before the position that is executed next, and every replay
/// runs between a `[` and its own `]`.
pub open spec fn structured(s: VmState) -> bool {
    &&& s.wf()
    &&& exists|bases: Seq<int>| #[trigger] nesting_of(s, bases).ok()
}

/// A fresh engine is structured.
pub proof fn lemma_initial_structured()
    ensures
        structured(VmState::initial()),
{
    let s = VmState::initial();
    assert(nesting_of(s, Seq::<int>::empty()).ok());
}

/// Dispatching a source character keeps the engine structured.
///
/// A `]` is accepted only if a `[` before it is still open, and refused as
/// unmatched only if none is; the skip counter never overflows; and the depth
/// of the record grows by what the character opens or closes.
pub proof fn lemma_dispatch_structured(s: VmState, c: char, input: Option<u8>)
    requires
        structured(s),
        !s.replaying(),
    ensures
        ({
            let step = dispatch(s, c, false, input);
            let before = depth(s.instruction, 0, s.instruction.len() as int);
            let after = depth(step.state.instruction, 0, step.state.instruction.len() as int);
            &&& before == s.loop_starts.len() + s.skip_depth
            &&& step.result.is_ok() ==> structured(step.state) && after == before + bracket(c)
            &&& step.result != Err::<Option<u8>, VmError>(VmError::SkipOverflow)
            &&& step.result == Err::<Option<u8>, VmError>(VmError::UnmatchedLoopEnd) ==> c == ']'
                && before == 0
            &&& step.result.is_ok() && c == ']' ==> before >= 1
        }),
{
    let bases = choose|bases: Seq<int>| #[trigger] nesting_of(s, bases).ok();
    let n0 = nesting_of(s, bases);
    let step = dispatch(s, c, false, input);
    let len = s.instruction.len() as int;
    lemma_dispatch_wf(s, c, false, input);
    if !is_instruction(c) {
        assert(nesting_of(step.state, bases) == n0);
    } else if s.instruction.len() + 1 > i32::MAX {
    } else {
        let r = s.record(c);
        lemma_record(n0, c);
        let n1 = Nesting { text: n0.text.push(c), ..n0 };
        assert(n1.text[n1.here] == c);
        lemma_depth_push(s.instruction, c, 0, len);
        lemma_depth_bound(n1.text, 0, len);
        let op = op_of(c);
        if step.result.is_ok() {
            if op == BrainfuckOp::LoopStartOp {
                if !r.skipping() && r.cell() != 0 {
                    lemma_start_entered(n1);
                    let m = Nesting { starts: n1.starts.push(n1.here), here: n1.here + 1, ..n1 };
                    assert(nesting_of(step.state, bases) == m);
                } else {
                    lemma_start_skipped(n1);
                    let m = Nesting { skip: n1.skip + 1, here: n1.here + 1, ..n1 };
                    assert(nesting_of(step.state, bases) == m);
                }
            } else if op == BrainfuckOp::LoopEndOp {
                if r.skipping() {
                    lemma_end_skipped(n1);
                    let m = Nesting { skip: n1.skip - 1, here: n1.here + 1, ..n1 };
                    assert(nesting_of(step.state, bases) == m);
                } else if r.cell() == 0 {
                    lemma_end_closed(n1);
                    let m = Nesting { starts: n1.starts.drop_last(), here: n1.here + 1, ..n1 };
                    assert(nesting_of(step.state, bases) == m);
                } else {
                    lemma_end_replayed(n1);
                    let grown = bases.push(n1.starts.len() as int);
                    let m = Nesting {
                        returns: n1.returns.push(n1.here),
                        bases: grown,
                        here: n1.starts.last() + 1,
                        ..n1
                    };
                    assert(nesting_of(step.state, grown) == m);
                }
            } else {
                lemma_plain(n1);
                let m = Nesting { here: n1.here + 1, ..n1 };
                assert(nesting_of(step.state, bases) == m);
            }
        }
    }
}

/// A step of a replay keeps the engine structured and leaves the record as it
/// is. Inside a replay no `]` is ever unmatched and the skip counter never
/// overflows.
pub proof fn lemma_replay_step_structured(s: VmState, input: Option<u8>)
    requires
        structured(s),
        s.replaying(),
    ensures
        ({
            let step = replay_step(s, input);
            &&& step.state.instruction == s.instruction
            &&& step.result.is_ok() ==> structured(step.state)
            &&& step.result != Err::<Option<u8>, VmError>(VmError::SkipOverflow)
            &&& step.result != Err::<Option<u8>, VmError>(VmError::UnmatchedLoopEnd)
            &&& step.result != Err::<Option<u8>, VmError>(VmError::LedgerFull)
        }),
{
    let bases = choose|bases: Seq<int>| #[trigger] nesting_of(s, bases).ok();
    let n = nesting_of(s, bases);
    let step = replay_step(s, input);
    lemma_replay_step_wf(s, input);
    if s.cursor < s.replay_returns.last() {
        let c = s.instruction[s.cursor];
        let op = op_of(c);
        assert(n.ready());
        lemma_depth_bound(n.text, 0, n.here);
        if op == BrainfuckOp::LoopStartOp {
            if !s.skipping() && s.cell() != 0 {
                lemma_start_entered(n);
                let m = Nesting { starts: n.starts.push(n.here), here: n.here + 1, ..n };
                assert(nesting_of(step.state, bases) == m);
            } else {
                lemma_start_skipped(n);
                let m = Nesting { skip: n.skip + 1, here: n.here + 1, ..n };
                assert(nesting_of(step.state, bases) == m);
            }
        } else if op == BrainfuckOp::LoopEndOp {
            if s.skipping() {
                lemma_end_skipped(n);
                let m = Nesting { skip: n.skip - 1, here: n.here + 1, ..n };
                assert(nesting_of(step.state, bases) == m);
            } else {
                lemma_end_inside_replay(n);
                if s.cell() == 0 {
                    lemma_end_closed(n);
                    let m = Nesting { starts: n.starts.drop_last(), here: n.here + 1, ..n };
                    assert(nesting_of(step.state, bases) == m);
                } else {
                    lemma_end_replayed(n);
                    let grown = bases.push(n.starts.len() as int);
                    let m = Nesting {
                        returns: n.returns.push(n.here),
                        bases: grown,
                        here: n.starts.last() + 1,
                        ..n
                    };
                    assert(nesting_of(step.state, grown) == m);
                }
            }
        } else if step.result.is_ok() {
            lemma_plain(n);
            let m = Nesting { here: n.here + 1, ..n };
            assert(nesting_of(step.state, bases) == m);
        }
    } else {
        lemma_pass_done(n);
        let back = s.at(s.replay_returns.last());
        if back.cell() != 0 {
            lemma_pass_again(n);
            let m = Nesting { here: n.starts.last() + 1, ..n };
            assert(nesting_of(step.state, bases) == m);
        } else {
            lemma_pass_over(n);
            let shrunk = bases.drop_last();
            let m = Nesting {
                starts: n.starts.drop_last(),
                returns: n.returns.drop_last(),
                bases: shrunk,
                here: n.here + 1,
                ..n
            };
            assert(nesting_of(step.state, shrunk) == m);
        }
    }
}

} // verus!
