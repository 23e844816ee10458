//! The state of a translation and the effect of one production on it, as values.

use vstd::prelude::*;
use crate::code::{lemma_render_concat, render, Line};
use crate::error::Fault;

verus! {

/// What a translation holds at one moment.
pub struct State {
    /// The whole input, consumed or not.
    pub input: Seq<char>,
    /// The place of the lookahead character; the length of the input once it is used up.
    pub pos: int,
    /// How many labels were handed out.
    pub labels: nat,
    /// The text written so far.
    pub output: Seq<char>,
}

/// What one production does: where it leaves the cursor, how many labels it takes, the
/// lines it writes, and the fault that stopped it, if one did.
pub struct Step {
    /// The place of the cursor behind the step.
    pub pos: int,
    /// How many labels the step took.
    pub fresh: nat,
    /// The lines that the step wrote, in their order.
    pub code: Seq<Line>,
    /// The fault that stopped the step; none where it went through.
    pub fault: Option<Fault>,
}

/// The character at `pos`, if the input reaches that far.
pub open spec fn look_at(input: Seq<char>, pos: int) -> Option<char> {
    if 0 <= pos < input.len() {
        Some(input[pos])
    } else {
        None
    }
}

impl State {
    /// The cursor lies within the input or right behind it.
    pub open spec fn wf(self) -> bool {
        0 <= self.pos <= self.input.len()
    }

    /// The lookahead character; none once the input is used up.
    pub open spec fn look(self) -> Option<char> {
        look_at(self.input, self.pos)
    }

    /// The same state with the cursor at `pos`.
    pub open spec fn at(self, pos: int) -> State {
        State { pos, ..self }
    }

    /// The same state with `text` written behind the output.
    pub open spec fn wrote(self, text: Seq<char>) -> State {
        State { output: self.output + text, ..self }
    }

    /// The state that `step` leaves behind.
    pub open spec fn after(self, step: Step) -> State {
        State {
            input: self.input,
            pos: step.pos,
            labels: self.labels + step.fresh,
            output: self.output + render(step.code),
        }
    }

    /// The label counter can still number two labels for every character that is left.
    pub open spec fn label_room(self) -> bool {
        self.labels + 2 * (self.input.len() - self.pos) <= usize::MAX
    }
}

impl Step {
    /// The step that leaves the cursor at `pos` and writes nothing.
    pub open spec fn go(pos: int) -> Step {
        Step { pos, fresh: 0, code: Seq::empty(), fault: None }
    }

    /// The step that stops at `pos` with `fault`.
    pub open spec fn fail(pos: int, fault: Fault) -> Step {
        Step { pos, fresh: 0, code: Seq::empty(), fault: Some(fault) }
    }

    /// The step that writes `line` at `pos`.
    pub open spec fn emit(pos: int, line: Line) -> Step {
        Step { pos, fresh: 0, code: seq![line], fault: None }
    }

    /// The step that writes the lines of `code` at `pos`.
    pub open spec fn write(pos: int, code: Seq<Line>) -> Step {
        Step { pos, fresh: 0, code, fault: None }
    }

    /// The step that takes `n` labels at `pos`.
    pub open spec fn take(pos: int, n: nat) -> Step {
        Step { pos, fresh: n, code: Seq::empty(), fault: None }
    }

    /// The step went through.
    pub open spec fn ok(self) -> bool {
        self.fault is None
    }

    /// This step, and `next` behind it unless this one was stopped.
    pub open spec fn and_then(self, next: Step) -> Step {
        if self.fault is Some {
            self
        } else {
            Step {
                pos: next.pos,
                fresh: self.fresh + next.fresh,
                code: self.code + next.code,
                fault: next.fault,
            }
        }
    }

    /// This step, and `line` written behind it unless this one was stopped.
    pub open spec fn and_emit(self, line: Line) -> Step {
        self.and_then(Step::emit(self.pos, line))
    }

    /// The step went through and moved the cursor forward from `from`, within `input`.
    pub open spec fn advanced(self, input: Seq<char>, from: int) -> bool {
        self.fault is None && from < self.pos <= input.len()
    }

    /// The cursor did not move back from `from` nor past the end of `input`.
    pub open spec fn within(self, input: Seq<char>, from: int) -> bool {
        from <= self.pos <= input.len()
    }

    /// This step, and `n` labels taken behind it unless this one was stopped.
    pub open spec fn and_take(self, n: nat) -> Step {
        self.and_then(Step::take(self.pos, n))
    }

    /// This step, stopped by `fault` behind it unless it was stopped before.
    pub open spec fn and_fail(self, fault: Fault) -> Step {
        self.and_then(Step::fail(self.pos, fault))
    }

    /// This step, and the lines of `code` written behind it unless this one was stopped.
    pub open spec fn and_write(self, code: Seq<Line>) -> Step {
        self.and_then(Step::write(self.pos, code))
    }

    /// What holds of every step of a production that starts at `from`: the cursor stays
    /// within the input and does not move back, it has moved forward where the step
    /// went through, and no more than two labels were taken for each character consumed.
    pub open spec fn sound(self, input: Seq<char>, from: int) -> bool {
        &&& self.bounded(input, from)
        &&& self.ok() ==> from < self.pos
    }

    /// The cursor stays within the input and does not move back from `from`, and no
    /// more than two labels were taken for each character consumed.
    pub open spec fn bounded(self, input: Seq<char>, from: int) -> bool {
        &&& self.within(input, from)
        &&& self.fresh <= 2 * (self.pos - from)
    }
}

/// Two steps in a row leave what their composition leaves; behind a step that was
/// stopped nothing follows.
pub proof fn lemma_after_both(s: State, a: Step, b: Step)
    ensures
        a.ok() ==> s.after(a).after(b) == s.after(a.and_then(b)),
        !a.ok() ==> a.and_then(b) == a,
{
    lemma_render_concat(a.code, b.code);
    if a.ok() {
        assert(s.after(a).after(b).output =~= s.after(a.and_then(b)).output);
    }
}

/// A step that writes nothing and takes no label leaves the state with the cursor at
/// its end.
pub proof fn lemma_after_nothing(s: State)
    ensures
        forall|pos: int| #[trigger] s.after(Step::go(pos)) == s.at(pos),
        forall|pos: int, fault: Fault| #[trigger] s.after(Step::fail(pos, fault)) == s.at(pos),
        forall|pos: int, n: nat| #[trigger]
            s.after(Step::take(pos, n)) == (State { pos, labels: s.labels + n, ..s }),
{
    assert(render(Seq::empty()) =~= Seq::<char>::empty());
    assert(s.output + Seq::<char>::empty() =~= s.output);
}

/// Two lines written one after the other behind a step leave what the step followed by
/// both lines leaves.
pub proof fn lemma_after_pair(s: State, a: Step, first: Line, second: Line)
    ensures
        a.ok() ==> s.after(a).after(Step::emit(a.pos, first)).after(Step::emit(a.pos, second))
            == s.after(a.and_write(seq![first].push(second))),
        a.ok() ==> s.after(a).after(Step::emit(a.pos, first)).after(Step::emit(a.pos, second))
            == s.after(a.and_emit(first).and_emit(second)),
        !a.ok() ==> a.and_write(seq![first].push(second)) == a,
        !a.ok() ==> a.and_emit(first).and_emit(second) == a,
{
    let one = Step::emit(a.pos, first);
    let two = Step::emit(a.pos, second);
    lemma_after_both(s.after(a), one, two);
    assert(one.and_then(two).code =~= seq![first].push(second));
    assert(one.and_then(two) == Step::write(a.pos, seq![first].push(second)));
    lemma_after_both(s, a, Step::write(a.pos, seq![first].push(second)));
    lemma_after_both(s, a, one);
    lemma_after_both(s, a.and_then(one), two);
}

/// Composition of steps is associative.
pub proof fn lemma_chain_assoc(a: Step, b: Step, c: Step)
    ensures
        a.and_then(b).and_then(c) == a.and_then(b.and_then(c)),
{
    if a.fault is None && b.fault is None {
        assert(a.and_then(b).and_then(c).code =~= a.and_then(b.and_then(c)).code);
    }
}

/// A step that does nothing changes nothing before or behind another.
pub proof fn lemma_chain_stay(a: Step)
    ensures
        a.and_then(Step::go(a.pos)) == a,
        a.fault is None ==> Step::go(a.pos).and_then(a) == a,
{
    if a.fault is None {
        assert(a.and_then(Step::go(a.pos)).code =~= a.code);
        assert(Step::go(a.pos).and_then(a).code =~= a.code);
    }
}

/// A label taken behind a step leaves what the step with one more label leaves.
pub proof fn lemma_after_take(s: State, a: Step, n: nat)
    requires
        a.ok(),
    ensures
        s.after(a).after(Step::take(a.pos, n)) == s.after(a.and_take(n)),
        a.and_take(n).ok(),
        a.and_take(n).pos == a.pos,
        a.and_take(n).fresh == a.fresh + n,
{
    lemma_after_both(s, a, Step::take(a.pos, n));
}

/// A line written behind a step leaves what the step followed by the line leaves.
pub proof fn lemma_after_emit(s: State, a: Step, line: Line)
    requires
        a.ok(),
    ensures
        s.after(a).after(Step::emit(a.pos, line)) == s.after(a.and_emit(line)),
        a.and_emit(line).ok(),
        a.and_emit(line).pos == a.pos,
        a.and_emit(line).fresh == a.fresh,
{
    lemma_after_both(s, a, Step::emit(a.pos, line));
}

} // verus!
