//! The lines that a translation writes, as values, and the text that stands for them.

use vstd::prelude::*;
use crate::label::label_name;

verus! {

/// One line of output. The accumulator is `D0`; operands wait on the stack `SP`.
pub enum Line {
    /// Clears the accumulator.
    Clear,
    /// Loads a number into the accumulator.
    LoadConst(Seq<char>),
    /// Loads a variable into the accumulator.
    LoadVar(Seq<char>),
    /// Calls a subroutine.
    Call(Seq<char>),
    /// Pushes the accumulator.
    Push,
    /// Adds the top of the stack into the accumulator and pops it.
    PopAdd,
    /// Subtracts the top of the stack from the accumulator and pops it.
    PopSub,
    /// Negates the accumulator.
    Negate,
    /// Multiplies the accumulator by the top of the stack and pops it.
    PopMul,
    /// Pops the top of the stack into the second register.
    PopDivisor,
    /// Divides by the second register.
    Divide,
    /// Takes the address of a variable.
    Address(Seq<char>),
    /// Stores the accumulator at the address taken.
    Store,
    /// An identifier that stands alone as a statement.
    Bare(Seq<char>),
    /// The marker that stands for a condition.
    Condition,
    /// Jumps to a label.
    Jump(Seq<char>),
    /// Jumps to a label where the condition was false.
    JumpIfFalse(Seq<char>),
    /// Jumps to a label where the counter went past the limit.
    JumpIfAbove(Seq<char>),
    /// Counts the accumulator down and jumps to a label while it is not spent.
    CountDown(Seq<char>),
    /// Places the label with the given number.
    Label(nat),
    /// Takes one from the accumulator.
    Decrement,
    /// Stores the counter of a `for` at the address taken.
    StoreCounter,
    /// Pushes the limit of a `for`.
    PushLimit,
    /// Loads the counter of a `for` from the address taken.
    Reload,
    /// Steps the counter of a `for`.
    Increment,
    /// Compares the counter of a `for` with the limit on the stack.
    CompareLimit,
    /// Pops the counter of a `do` into the accumulator.
    PopCounter,
    /// Makes room for one value on the stack.
    Reserve,
    /// Drops one value from the stack.
    Release,
    /// Ends the program.
    End,
}

impl Line {
    /// The instruction as text, without indentation and line break. A label has none.
    pub open spec fn text(self) -> Seq<char> {
        match self {
            Line::Clear => "CLR D0"@,
            Line::LoadConst(n) => "MOVE #"@ + n + ",D0"@,
            Line::LoadVar(x) => "MOVE "@ + x + "(PC),D0"@,
            Line::Call(x) => "BSR "@ + x,
            Line::Push => "MOVE D0,-(SP)"@,
            Line::PopAdd => "ADD (SP)+,D0"@,
            Line::PopSub => "SUB (SP)+,D0"@,
            Line::Negate => "NEG D0"@,
            Line::PopMul => "MULS (SP)+,D0"@,
            Line::PopDivisor => "MOVE (SP)+,D1"@,
            Line::Divide => "DIVS D1,D0"@,
            Line::Address(x) => "LEA "@ + x + "(PC),A0"@,
            Line::Store => "MOVE D0,(A0)"@,
            Line::Bare(x) => x,
            Line::Condition => "<condition>"@,
            Line::Jump(l) => "BRA "@ + l,
            Line::JumpIfFalse(l) => "BEQ "@ + l,
            Line::JumpIfAbove(l) => "BGT "@ + l,
            Line::CountDown(l) => "DBRA D0,"@ + l,
            Line::Label(_) => Seq::empty(),
            Line::Decrement => "SUBQ #1,D0"@,
            Line::StoreCounter => "MOVE DO,(A0)"@,
            Line::PushLimit => "MOVE DO,-(SP)"@,
            Line::Reload => "MOVE (A0),D0"@,
            Line::Increment => "MOVE #1,D0"@,
            Line::CompareLimit => "CMP (SP),(A0)"@,
            Line::PopCounter => "MOVE (SP)+,D0"@,
            Line::Reserve => "SUBQ #2,SP"@,
            Line::Release => "ADDQ #2,SP"@,
            Line::End => "END"@,
        }
    }

    /// The line as it is written: an instruction after one tab, a label at the margin
    /// and followed by a colon; either ends with a line break.
    pub open spec fn written(self) -> Seq<char> {
        match self {
            Line::Label(n) => label_line(label_name(n)),
            _ => instruction_line(self.text()),
        }
    }
}

/// An instruction after one tab, without a line break.
pub open spec fn indented(s: Seq<char>) -> Seq<char> {
    seq!['\t'] + s
}

/// An instruction after one tab and before a line break.
pub open spec fn instruction_line(s: Seq<char>) -> Seq<char> {
    indented(s) + seq!['\n']
}

/// The definition of the label `name`: the name at the margin, a colon, a line break.
pub open spec fn label_line(name: Seq<char>) -> Seq<char> {
    name + seq![':', '\n']
}

/// The text of a sequence of lines, in their order.
pub open spec fn render(code: Seq<Line>) -> Seq<char>
    decreases code.len(),
{
    if code.len() == 0 {
        Seq::empty()
    } else {
        render(code.drop_last()) + code.last().written()
    }
}

/// The text of one line is the line as written.
pub proof fn lemma_render_one(line: Line)
    ensures
        render(seq![line]) == line.written(),
{
    reveal_with_fuel(render, 2);
    assert(seq![line].drop_last() =~= Seq::<Line>::empty());
    assert(render(seq![line]) =~= line.written());
}

/// Rendering keeps the order: the text of two pieces of code is the text of the first
/// followed by the text of the second.
pub proof fn lemma_render_concat(a: Seq<Line>, b: Seq<Line>)
    ensures
        render(a + b) == render(a) + render(b),
    decreases b.len(),
{
    if b.len() == 0 {
        assert(a + b =~= a);
        assert(render(a) + render(b) =~= render(a));
    } else {
        lemma_render_concat(a, b.drop_last());
        assert((a + b).drop_last() =~= a + b.drop_last());
        assert((a + b).last() == b.last());
        assert(render(a + b) =~= render(a) + render(b));
    }
}

impl Line {
    /// Whether the line pushes the accumulator as the left operand of an operator.
    pub open spec fn is_push(self) -> bool {
        self is Push
    }

    /// Whether the line takes the left operand of an operator back from the stack.
    pub open spec fn is_pop(self) -> bool {
        self is PopAdd || self is PopSub || self is PopMul || self is PopDivisor
    }

    /// The name that the line jumps to, where it is a jump.
    pub open spec fn operand(self) -> Option<Seq<char>> {
        match self {
            Line::Jump(l) => Some(l),
            Line::JumpIfFalse(l) => Some(l),
            Line::JumpIfAbove(l) => Some(l),
            Line::CountDown(l) => Some(l),
            _ => None,
        }
    }

    /// Whether the line places a label or jumps to one.
    pub open spec fn is_mark(self) -> bool {
        self is Label || self.operand() is Some
    }

    /// Whether the line jumps to a name that is neither `target`, the exit of a loop
    /// around the code, nor that of a label with a number from `base` up to `end`.
    pub open spec fn is_stray(self, base: nat, end: nat, target: Seq<char>) -> bool {
        match self.operand() {
            Some(l) => !lands(l, base, end, target),
            None => false,
        }
    }
}

/// Whether the name `l` is `target`, the exit of a loop around the code, or that of a
/// label with a number from `base` up to `end`.
pub open spec fn lands(l: Seq<char>, base: nat, end: nat, target: Seq<char>) -> bool {
    ||| target.len() > 0 && l == target
    ||| exists|k: nat| base <= k < end && l == #[trigger] label_name(k)
}

/// How many lines of `code` push the left operand of an operator.
pub open spec fn pushes(code: Seq<Line>) -> nat
    decreases code.len(),
{
    if code.len() == 0 {
        0
    } else {
        pushes(code.drop_last()) + if code.last().is_push() { 1nat } else { 0nat }
    }
}

/// How many lines of `code` take the left operand of an operator back from the stack.
pub open spec fn pops(code: Seq<Line>) -> nat
    decreases code.len(),
{
    if code.len() == 0 {
        0
    } else {
        pops(code.drop_last()) + if code.last().is_pop() { 1nat } else { 0nat }
    }
}

/// How many lines of `code` place the label with number `n`.
pub open spec fn placed(code: Seq<Line>, n: nat) -> nat
    decreases code.len(),
{
    if code.len() == 0 {
        0
    } else {
        placed(code.drop_last(), n) + if code.last() == Line::Label(n) { 1nat } else { 0nat }
    }
}

/// How many lines of `code` place a label or jump to one.
pub open spec fn marks(code: Seq<Line>) -> nat
    decreases code.len(),
{
    if code.len() == 0 {
        0
    } else {
        marks(code.drop_last()) + if code.last().is_mark() { 1nat } else { 0nat }
    }
}

/// How many lines of `code` jump to a name that is neither `target` nor that of a
/// label with a number from `base` up to `end`.
pub open spec fn strays(code: Seq<Line>, base: nat, end: nat, target: Seq<char>) -> nat
    decreases code.len(),
{
    if code.len() == 0 {
        0
    } else {
        strays(code.drop_last(), base, end, target) + if code.last().is_stray(base, end, target) {
            1nat
        } else {
            0nat
        }
    }
}

/// How many pushes a sequence of lines has with one more line behind it.
pub broadcast proof fn lemma_pushes_push(code: Seq<Line>, line: Line)
    ensures
        #[trigger] pushes(code.push(line)) == pushes(code) + if line.is_push() {
            1nat
        } else {
            0nat
        },
{
    assert(code.push(line).drop_last() =~= code);
}

/// How many combining lines a sequence of lines has with one more line behind it.
pub broadcast proof fn lemma_pops_push(code: Seq<Line>, line: Line)
    ensures
        #[trigger] pops(code.push(line)) == pops(code) + if line.is_pop() { 1nat } else { 0nat },
{
    assert(code.push(line).drop_last() =~= code);
}

/// How many labels and jumps a sequence of lines has with one more line behind it.
pub broadcast proof fn lemma_marks_push(code: Seq<Line>, line: Line)
    ensures
        #[trigger] marks(code.push(line)) == marks(code) + if line.is_mark() {
            1nat
        } else {
            0nat
        },
{
    assert(code.push(line).drop_last() =~= code);
}

/// How often a sequence of lines places a label with one more line behind it.
pub broadcast proof fn lemma_placed_push(code: Seq<Line>, line: Line, n: nat)
    ensures
        #[trigger] placed(code.push(line), n) == placed(code, n) + if line == Line::Label(n) {
            1nat
        } else {
            0nat
        },
{
    assert(code.push(line).drop_last() =~= code);
}

/// How many stray jumps a sequence of lines has with one more line behind it.
pub broadcast proof fn lemma_strays_push(
    code: Seq<Line>,
    line: Line,
    base: nat,
    end: nat,
    target: Seq<char>,
)
    ensures
        #[trigger] strays(code.push(line), base, end, target) == strays(code, base, end, target)
            + if line.is_stray(base, end, target) { 1nat } else { 0nat },
{
    assert(code.push(line).drop_last() =~= code);
}

/// Two pieces of code in a row have the pushes of both.
pub broadcast proof fn lemma_pushes_concat(a: Seq<Line>, b: Seq<Line>)
    ensures
        #[trigger] pushes(a + b) == pushes(a) + pushes(b),
    decreases b.len(),
{
    if b.len() == 0 {
        assert(a + b =~= a);
    } else {
        lemma_pushes_concat(a, b.drop_last());
        assert((a + b).drop_last() =~= a + b.drop_last());
    }
}

/// Two pieces of code in a row have the combining lines of both.
pub broadcast proof fn lemma_pops_concat(a: Seq<Line>, b: Seq<Line>)
    ensures
        #[trigger] pops(a + b) == pops(a) + pops(b),
    decreases b.len(),
{
    if b.len() == 0 {
        assert(a + b =~= a);
    } else {
        lemma_pops_concat(a, b.drop_last());
        assert((a + b).drop_last() =~= a + b.drop_last());
    }
}

/// Two pieces of code in a row have the labels and jumps of both.
pub broadcast proof fn lemma_marks_concat(a: Seq<Line>, b: Seq<Line>)
    ensures
        #[trigger] marks(a + b) == marks(a) + marks(b),
    decreases b.len(),
{
    if b.len() == 0 {
        assert(a + b =~= a);
    } else {
        lemma_marks_concat(a, b.drop_last());
        assert((a + b).drop_last() =~= a + b.drop_last());
    }
}

/// Two pieces of code in a row place a label as often as both together.
pub broadcast proof fn lemma_placed_concat(a: Seq<Line>, b: Seq<Line>, n: nat)
    ensures
        #[trigger] placed(a + b, n) == placed(a, n) + placed(b, n),
    decreases b.len(),
{
    if b.len() == 0 {
        assert(a + b =~= a);
    } else {
        lemma_placed_concat(a, b.drop_last(), n);
        assert((a + b).drop_last() =~= a + b.drop_last());
    }
}

/// Two pieces of code in a row have the stray jumps of both.
pub broadcast proof fn lemma_strays_concat(
    a: Seq<Line>,
    b: Seq<Line>,
    base: nat,
    end: nat,
    target: Seq<char>,
)
    ensures
        #[trigger] strays(a + b, base, end, target) == strays(a, base, end, target) + strays(
            b,
            base,
            end,
            target,
        ),
    decreases b.len(),
{
    if b.len() == 0 {
        assert(a + b =~= a);
    } else {
        lemma_strays_concat(a, b.drop_last(), base, end, target);
        assert((a + b).drop_last() =~= a + b.drop_last());
    }
}

/// Code without labels and jumps places no label.
pub proof fn lemma_no_marks_placed(code: Seq<Line>, n: nat)
    requires
        marks(code) == 0,
    ensures
        placed(code, n) == 0,
    decreases code.len(),
{
    if code.len() > 0 {
        lemma_no_marks_placed(code.drop_last(), n);
    }
}

/// Code without labels and jumps has no jump that goes astray.
pub proof fn lemma_no_marks_strays(code: Seq<Line>, base: nat, end: nat, target: Seq<char>)
    requires
        marks(code) == 0,
    ensures
        strays(code, base, end, target) == 0,
    decreases code.len(),
{
    if code.len() > 0 {
        lemma_no_marks_strays(code.drop_last(), base, end, target);
    }
}

/// A jump that lands on a label of a range, or on the exit of a loop that is a label
/// of a wider range, lands in the wider range too: code that has no stray jump for
/// the labels from `base` up to `end` and the target `target` has none for the labels
/// from `low` up to `high` and the target `outer`.
pub proof fn lemma_strays_widen(
    code: Seq<Line>,
    base: nat,
    end: nat,
    target: Seq<char>,
    low: nat,
    high: nat,
    outer: Seq<char>,
)
    requires
        low <= base,
        end <= high,
        target.len() > 0 ==> lands(target, low, high, outer),
        strays(code, base, end, target) == 0,
    ensures
        strays(code, low, high, outer) == 0,
    decreases code.len(),
{
    if code.len() > 0 {
        lemma_strays_widen(code.drop_last(), base, end, target, low, high, outer);
        match code.last().operand() {
            Some(l) => {
                assert(lands(l, base, end, target));
                if !(target.len() > 0 && l == target) {
                    let k = choose|k: nat| base <= k < end && l == #[trigger] label_name(k);
                    assert(low <= k < high && l == label_name(k));
                }
            },
            None => {},
        }
    }
}

pub broadcast group group_counts {
    lemma_pushes_push,
    lemma_pops_push,
    lemma_marks_push,
    lemma_placed_push,
    lemma_strays_push,
    lemma_pushes_concat,
    lemma_pops_concat,
    lemma_marks_concat,
    lemma_placed_concat,
    lemma_strays_concat,
}

} // verus!
