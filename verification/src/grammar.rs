//! What the translator of expressions does, as functions of the input and a place in
//! it.
//!
//! ```text
//! expression := [ addop ] term { addop term }
//! term       := factor { mulop factor }
//! factor     := '(' expression ')' | identifier [ '(' ')' ] | number
//! ```
//!
//! Every production leaves its value in the accumulator. A binary operator pushes the
//! accumulator, has its right operand translated, and combines the two.

use vstd::prelude::*;
use crate::chars::{is_addop_char, is_alpha_char, is_mulop_char};
use crate::code::Line;
use crate::error::Fault;
use crate::scan::{
    lemma_match_step, lemma_name_at, lemma_number_at, match_step, name_at, number_at,
};
use crate::step::{lemma_after_both, lemma_chain_assoc, look_at, State, Step};

verus! {

/// The four operators, and what is none of them.
#[derive(Debug, PartialEq, Eq, Structural, Clone, Copy)]
pub enum Ops {
    Add,
    Sub,
    Mul,
    Div,
    Invalid,
}

impl Ops {
    /// The operator that `c` writes.
    pub open spec fn of(c: char) -> Ops {
        if c == '+' {
            Ops::Add
        } else if c == '-' {
            Ops::Sub
        } else if c == '*' {
            Ops::Mul
        } else if c == '/' {
            Ops::Div
        } else {
            Ops::Invalid
        }
    }

    /// The character that writes the operator. What is no operator has none, and the
    /// blank stands for it.
    pub open spec fn symbol(self) -> char {
        match self {
            Ops::Add => '+',
            Ops::Sub => '-',
            Ops::Mul => '*',
            Ops::Div => '/',
            Ops::Invalid => ' ',
        }
    }

    /// `+` and `-` bind terms.
    pub open spec fn is_additive(self) -> bool {
        self == Ops::Add || self == Ops::Sub
    }

    /// The lines that combine the pushed left operand with the right operand in the
    /// accumulator. The stack gives the left operand second, so subtraction negates
    /// what it gets and division moves the left operand out first.
    pub open spec fn combine(self) -> Seq<Line> {
        match self {
            Ops::Add => seq![Line::PopAdd],
            Ops::Sub => seq![Line::PopSub].push(Line::Negate),
            Ops::Mul => seq![Line::PopMul],
            Ops::Div => seq![Line::PopDivisor].push(Line::Divide),
            Ops::Invalid => Seq::empty(),
        }
    }

    /// The operator that `c` writes.
    pub fn from(c: char) -> (r: Ops)
        ensures
            r == Ops::of(c),
    {
        match c {
            '+' => Ops::Add,
            '-' => Ops::Sub,
            '*' => Ops::Mul,
            '/' => Ops::Div,
            _ => Ops::Invalid,
        }
    }
}

/// Whether an additive operator stands at `pos`.
pub open spec fn addop_at(input: Seq<char>, pos: int) -> bool {
    match look_at(input, pos) {
        Some(c) => is_addop_char(c),
        None => false,
    }
}

/// Whether a multiplicative operator stands at `pos`.
pub open spec fn mulop_at(input: Seq<char>, pos: int) -> bool {
    match look_at(input, pos) {
        Some(c) => is_mulop_char(c),
        None => false,
    }
}

/// A number: loaded into the accumulator.
pub open spec fn number_step(input: Seq<char>, pos: int) -> Step {
    match number_at(input, pos) {
        Some(t) => Step::emit(t.next, Line::LoadConst(t.text)),
        None => Step::fail(pos, Fault::Expected("Integer"@)),
    }
}

/// An identifier: called as a subroutine where `(` and `)` follow it, loaded as a
/// variable anywhere else.
pub open spec fn ident_step(input: Seq<char>, pos: int) -> Step {
    match name_at(input, pos) {
        Some(t) => {
            if look_at(input, t.next) == Some('(') {
                let open = match_step(input, t.next, '(');
                let close = match_step(input, open.pos, ')');
                open.and_then(close).and_emit(Line::Call(t.text))
            } else {
                Step::emit(t.next, Line::LoadVar(t.text))
            }
        },
        None => Step::fail(pos, Fault::Expected("Name"@)),
    }
}

/// A factor: an expression in parentheses, an identifier, or else a number.
pub open spec fn factor_step(input: Seq<char>, pos: int) -> Step
    decreases input.len() - pos, 0int,
{
    match look_at(input, pos) {
        Some(c) => {
            if c == '(' {
                let open = match_step(input, pos, '(');
                proof {
                    lemma_match_step(input, pos, '(');
                }
                let inner = expression_step(input, open.pos);
                open.and_then(inner).and_then(match_step(input, inner.pos, ')'))
            } else if is_alpha_char(c) {
                ident_step(input, pos)
            } else {
                number_step(input, pos)
            }
        },
        None => number_step(input, pos),
    }
}

/// An operator and its right operand, behind a left operand that was pushed: the
/// operator is read, the operand translated (a term behind `+` and `-`, a factor behind
/// `*` and `/`), and the two are combined.
pub open spec fn operation_step(input: Seq<char>, pos: int, op: Ops) -> Step
    decreases input.len() - pos, 0int,
{
    let sign = match_step(input, pos, op.symbol());
    if sign.ok() {
        proof {
            lemma_match_step(input, pos, op.symbol());
        }
        let operand = if op.is_additive() {
            term_step(input, sign.pos)
        } else {
            factor_step(input, sign.pos)
        };
        sign.and_then(operand).and_write(op.combine())
    } else {
        sign
    }
}

/// The operator at `pos` with its operand, behind the push of the left operand.
pub open spec fn pushed_step(input: Seq<char>, pos: int) -> Step
    decreases input.len() - pos, 1int,
{
    Step::emit(pos, Line::Push).and_then(operation_step(input, pos, Ops::of(input[pos])))
}

/// The operators and factors behind the first factor of a term.
pub open spec fn mulops_step(input: Seq<char>, pos: int) -> Step
    decreases input.len() - pos, 2int,
{
    if mulop_at(input, pos) {
        let one = pushed_step(input, pos);
        if one.advanced(input, pos) {
            one.and_then(mulops_step(input, one.pos))
        } else {
            one
        }
    } else {
        Step::go(pos)
    }
}

/// A term: a factor, and the factors that `*` and `/` bind to it.
pub open spec fn term_step(input: Seq<char>, pos: int) -> Step
    decreases input.len() - pos, 3int,
{
    let first = factor_step(input, pos);
    if first.advanced(input, pos) {
        first.and_then(mulops_step(input, first.pos))
    } else {
        first
    }
}

/// The operators and terms behind the first term of an expression.
pub open spec fn addops_step(input: Seq<char>, pos: int) -> Step
    decreases input.len() - pos, 4int,
{
    if addop_at(input, pos) {
        let one = pushed_step(input, pos);
        if one.advanced(input, pos) {
            one.and_then(addops_step(input, one.pos))
        } else {
            one
        }
    } else {
        Step::go(pos)
    }
}

/// An expression: a term, and the terms that `+` and `-` bind to it. In front of a
/// leading sign the accumulator is cleared in place of a first term, so that `-x` is
/// translated as `0 - x`.
pub open spec fn expression_step(input: Seq<char>, pos: int) -> Step
    decreases input.len() - pos, 5int,
{
    if addop_at(input, pos) {
        Step::emit(pos, Line::Clear).and_then(addops_step(input, pos))
    } else {
        let first = term_step(input, pos);
        if first.advanced(input, pos) {
            first.and_then(addops_step(input, first.pos))
        } else {
            first
        }
    }
}

/// What follows the name `name` in an assignment: `=`, an expression, and the store of
/// its value under the name.
pub open spec fn store_step(input: Seq<char>, pos: int, name: Seq<char>) -> Step {
    let eq = match_step(input, pos, '=');
    let value = expression_step(input, eq.pos);
    eq.and_then(value).and_emit(Line::Address(name)).and_emit(Line::Store)
}

/// An assignment: a name, `=`, an expression, and the store of its value under the
/// name.
pub open spec fn assignment_step(input: Seq<char>, pos: int) -> Step {
    match name_at(input, pos) {
        Some(t) => Step::go(t.next).and_then(store_step(input, t.next, t.text)),
        None => Step::fail(pos, Fault::Expected("Name"@)),
    }
}

/// A number moves the cursor forward within the input, or stops where it began.
pub proof fn lemma_number_sound(input: Seq<char>, pos: int)
    requires
        0 <= pos <= input.len(),
    ensures
        number_step(input, pos).sound(input, pos),
        number_step(input, pos).fresh == 0,
{
    lemma_number_at(input, pos);
}

/// An identifier moves the cursor forward within the input, or stops where it began.
pub proof fn lemma_ident_sound(input: Seq<char>, pos: int)
    requires
        0 <= pos <= input.len(),
    ensures
        ident_step(input, pos).sound(input, pos),
        ident_step(input, pos).fresh == 0,
{
    lemma_name_at(input, pos);
    if let Some(t) = name_at(input, pos) {
        lemma_match_step(input, t.next, '(');
        lemma_match_step(input, match_step(input, t.next, '(').pos, ')');
    }
}

/// A factor moves the cursor forward within the input, or stops at or behind the place
/// where it began.
pub proof fn lemma_factor_sound(input: Seq<char>, pos: int)
    requires
        0 <= pos <= input.len(),
    ensures
        factor_step(input, pos).sound(input, pos),
        factor_step(input, pos).fresh == 0,
    decreases input.len() - pos, 0int,
{
    lemma_number_sound(input, pos);
    lemma_ident_sound(input, pos);
    if look_at(input, pos) == Some('(') {
        let open = match_step(input, pos, '(');
        lemma_match_step(input, pos, '(');
        lemma_expression_sound(input, open.pos);
        lemma_match_step(input, expression_step(input, open.pos).pos, ')');
    }
}

/// An operator with its operand moves the cursor forward within the input, or stops at
/// or behind the place where it began.
pub proof fn lemma_operation_sound(input: Seq<char>, pos: int, op: Ops)
    requires
        0 <= pos <= input.len(),
    ensures
        operation_step(input, pos, op).sound(input, pos),
        operation_step(input, pos, op).fresh == 0,
    decreases input.len() - pos, 0int,
{
    let sign = match_step(input, pos, op.symbol());
    lemma_match_step(input, pos, op.symbol());
    if sign.ok() {
        if op.is_additive() {
            lemma_term_sound(input, sign.pos);
        } else {
            lemma_factor_sound(input, sign.pos);
        }
    }
}

/// An operator with its operand, behind the push, moves the cursor forward within the
/// input, or stops at or behind the place where it began.
pub proof fn lemma_pushed_sound(input: Seq<char>, pos: int)
    requires
        0 <= pos <= input.len(),
    ensures
        pushed_step(input, pos).sound(input, pos),
        pushed_step(input, pos).fresh == 0,
        pushed_step(input, pos).fault == operation_step(input, pos, Ops::of(input[pos])).fault,
        pushed_step(input, pos).pos == operation_step(input, pos, Ops::of(input[pos])).pos,
    decreases input.len() - pos, 1int,
{
    lemma_operation_sound(input, pos, Ops::of(input[pos]));
}

/// The operators behind a factor leave the cursor within the input, at or behind the
/// place where they began.
pub proof fn lemma_mulops_within(input: Seq<char>, pos: int)
    requires
        0 <= pos <= input.len(),
    ensures
        mulops_step(input, pos).within(input, pos),
        mulops_step(input, pos).fresh == 0,
    decreases input.len() - pos, 2int,
{
    if mulop_at(input, pos) {
        let one = pushed_step(input, pos);
        lemma_pushed_sound(input, pos);
        if one.ok() {
            lemma_mulops_within(input, one.pos);
        }
    }
}

/// A term moves the cursor forward within the input, or stops at or behind the place
/// where it began.
pub proof fn lemma_term_sound(input: Seq<char>, pos: int)
    requires
        0 <= pos <= input.len(),
    ensures
        term_step(input, pos).sound(input, pos),
        term_step(input, pos).fresh == 0,
    decreases input.len() - pos, 3int,
{
    let first = factor_step(input, pos);
    lemma_factor_sound(input, pos);
    if first.ok() {
        lemma_mulops_within(input, first.pos);
    }
}

/// The operators behind a term leave the cursor within the input, at or behind the
/// place where they began.
pub proof fn lemma_addops_within(input: Seq<char>, pos: int)
    requires
        0 <= pos <= input.len(),
    ensures
        addops_step(input, pos).within(input, pos),
        addops_step(input, pos).fresh == 0,
        addop_at(input, pos) && addops_step(input, pos).ok() ==> pos < addops_step(input, pos).pos,
    decreases input.len() - pos, 4int,
{
    if addop_at(input, pos) {
        let one = pushed_step(input, pos);
        lemma_pushed_sound(input, pos);
        if one.ok() {
            lemma_addops_within(input, one.pos);
        }
    }
}

/// An expression moves the cursor forward within the input, or stops at or behind the
/// place where it began.
pub proof fn lemma_expression_sound(input: Seq<char>, pos: int)
    requires
        0 <= pos <= input.len(),
    ensures
        expression_step(input, pos).sound(input, pos),
        expression_step(input, pos).fresh == 0,
    decreases input.len() - pos, 5int,
{
    if addop_at(input, pos) {
        lemma_addops_within(input, pos);
    } else {
        let first = term_step(input, pos);
        lemma_term_sound(input, pos);
        if first.ok() {
            lemma_addops_within(input, first.pos);
        }
    }
}

/// The rest of an assignment leaves the cursor within the input, and behind `=` where
/// it went through.
pub proof fn lemma_store_sound(input: Seq<char>, pos: int, name: Seq<char>)
    requires
        0 <= pos <= input.len(),
    ensures
        store_step(input, pos, name).sound(input, pos),
        store_step(input, pos, name).fresh == 0,
{
    lemma_match_step(input, pos, '=');
    let eq = match_step(input, pos, '=');
    if eq.ok() {
        lemma_expression_sound(input, eq.pos);
    }
}

/// An assignment moves the cursor forward within the input, or stops at or behind the
/// place where it began.
pub proof fn lemma_assignment_sound(input: Seq<char>, pos: int)
    requires
        0 <= pos <= input.len(),
    ensures
        assignment_step(input, pos).sound(input, pos),
        assignment_step(input, pos).fresh == 0,
{
    lemma_name_at(input, pos);
    if let Some(t) = name_at(input, pos) {
        lemma_store_sound(input, t.next, t.text);
    }
}

/// One round of the loop of a term or of an expression, on a state `s` that the step
/// `done` has led to a place where an operator stands: the push and the operation leave
/// what `done` followed by both leaves, the rest of the loop goes on behind them, and a
/// round that was stopped ends the loop.
pub proof fn lemma_round(s: State, done: Step)
    requires
        0 <= done.pos <= s.input.len(),
        done.ok(),
        addop_at(s.input, done.pos) || mulop_at(s.input, done.pos),
    ensures
        ({
            let one = pushed_step(s.input, done.pos);
            let body = operation_step(s.input, done.pos, Ops::of(s.input[done.pos]));
            &&& s.after(done).after(Step::emit(done.pos, Line::Push)).after(body) == s.after(
                done.and_then(one),
            )
            &&& one.fault == body.fault
            &&& one.pos == body.pos
            &&& one.ok() ==> done.pos < one.pos <= s.input.len()
            &&& !one.ok() ==> forall|next: Step| #[trigger] one.and_then(next) == one
            &&& forall|next: Step| #[trigger]
                done.and_then(one).and_then(next) == done.and_then(one.and_then(next))
        }),
{
    let p = done.pos;
    let push = Step::emit(p, Line::Push);
    let body = operation_step(s.input, p, Ops::of(s.input[p]));
    let one = pushed_step(s.input, p);
    lemma_pushed_sound(s.input, p);
    lemma_after_both(s, done, push);
    lemma_after_both(s, done.and_then(push), body);
    lemma_chain_assoc(done, push, body);
    assert forall|next: Step| #[trigger]
        done.and_then(one).and_then(next) == done.and_then(one.and_then(next)) by {
        lemma_chain_assoc(done, one, next);
    }
}

} // verus!
