//! What holds of the lines that an expression is translated to: one push for each
//! operator, each push met by the line that combines the operands, no label and no
//! jump.

use vstd::prelude::*;
use crate::chars::{in_class, is_addop_char, is_digit_char, is_mulop_char, Class};
use crate::code::{group_counts, marks, pops, pushes, Line};
use crate::grammar::{
    addop_at, addops_step, assignment_step, expression_step, factor_step, ident_step,
    lemma_addops_within, lemma_expression_sound, lemma_factor_sound, lemma_mulops_within,
    lemma_pushed_sound, lemma_store_sound, lemma_term_sound, mulop_at, mulops_step, number_step,
    operation_step, pushed_step, store_step, term_step, Ops,
};
use crate::scan::{
    lemma_match_step, lemma_name_at, lemma_run_end, match_step, name_at, number_at, run_end,
    slice, white_end,
};
use crate::step::{lemma_chain_stay, look_at, Step};

verus! {

broadcast use group_counts;

/// Whether `c` writes one of the four operators.
pub open spec fn is_operator_char(c: char) -> bool {
    is_addop_char(c) || is_mulop_char(c)
}

/// How many operators stand in `input` from `from` up to `to`.
pub open spec fn operators(input: Seq<char>, from: int, to: int) -> nat
    decreases to - from,
{
    if to <= from {
        0
    } else {
        operators(input, from, to - 1) + if is_operator_char(input[to - 1]) { 1nat } else { 0nat }
    }
}

/// What holds of the lines of a production from `from`: they hold no label and no jump,
/// and never more combining lines than pushes and the `owed` pushes in front of them.
/// Where the production went through, every push, those `owed` too, has its combining
/// line, and there are as many of them as operators were consumed.
pub open spec fn balanced(s: Step, input: Seq<char>, from: int, owed: nat) -> bool {
    &&& marks(s.code) == 0
    &&& pops(s.code) <= pushes(s.code) + owed
    &&& s.ok() ==> {
        &&& pops(s.code) == pushes(s.code) + owed
        &&& pushes(s.code) + owed == operators(input, from, s.pos)
    }
}

/// The operators of two stretches in a row are those of both.
pub proof fn lemma_operators_split(input: Seq<char>, from: int, mid: int, to: int)
    requires
        from <= mid <= to,
    ensures
        operators(input, from, to) == operators(input, from, mid) + operators(input, mid, to),
    decreases to - mid,
{
    if mid < to {
        lemma_operators_split(input, from, mid, to - 1);
    }
}

/// A stretch without an operator has none.
pub proof fn lemma_operators_none(input: Seq<char>, from: int, to: int)
    requires
        forall|i: int| from <= i < to ==> !is_operator_char(#[trigger] input[i]),
    ensures
        operators(input, from, to) == 0,
    decreases to - from,
{
    if from < to {
        lemma_operators_none(input, from, to - 1);
    }
}

/// A run of blanks, of digits or of letters and digits holds no operator.
pub proof fn lemma_operators_run(input: Seq<char>, pos: int, class: Class)
    requires
        0 <= pos <= input.len(),
    ensures
        operators(input, pos, run_end(input, pos, class)) == 0,
{
    lemma_run_end(input, pos, class);
    assert forall|i: int| pos <= i < run_end(input, pos, class) implies !is_operator_char(
        #[trigger] input[i],
    ) by {
        assert(in_class(input[i], class));
    }
    lemma_operators_none(input, pos, run_end(input, pos, class));
}

/// A character that was read and the blanks behind it hold one operator where the
/// character is one, and else none.
pub proof fn lemma_operators_match(input: Seq<char>, pos: int, x: char)
    requires
        0 <= pos <= input.len(),
        match_step(input, pos, x).ok(),
    ensures
        operators(input, pos, match_step(input, pos, x).pos) == if is_operator_char(x) {
            1nat
        } else {
            0nat
        },
{
    lemma_run_end(input, pos + 1, Class::White);
    lemma_operators_run(input, pos + 1, Class::White);
    lemma_operators_split(input, pos, pos + 1, white_end(input, pos + 1));
    assert(operators(input, pos, pos + 1) == operators(input, pos, pos) + if is_operator_char(
        input[pos],
    ) { 1nat } else { 0nat });
}

/// A name or a number and the blanks behind it hold no operator.
pub proof fn lemma_operators_token(input: Seq<char>, pos: int)
    requires
        0 <= pos <= input.len(),
    ensures
        match name_at(input, pos) {
            Some(t) => operators(input, pos, t.next) == 0,
            None => true,
        },
        match number_at(input, pos) {
            Some(t) => operators(input, pos, t.next) == 0,
            None => true,
        },
{
    if name_at(input, pos) is Some {
        let end = run_end(input, pos, Class::Alnum);
        lemma_run_end(input, pos, Class::Alnum);
        lemma_run_end(input, end, Class::White);
        lemma_operators_run(input, pos, Class::Alnum);
        lemma_operators_run(input, end, Class::White);
        lemma_operators_split(input, pos, end, white_end(input, end));
    }
    if number_at(input, pos) is Some {
        let end = run_end(input, pos, Class::Digit);
        lemma_run_end(input, pos, Class::Digit);
        lemma_run_end(input, end, Class::White);
        lemma_operators_run(input, pos, Class::Digit);
        lemma_operators_run(input, end, Class::White);
        lemma_operators_split(input, pos, end, white_end(input, end));
    }
}

/// A number is translated to one line, which is no push, no combining line, no label
/// and no jump.
pub proof fn lemma_number_balanced(input: Seq<char>, pos: int)
    requires
        0 <= pos <= input.len(),
    ensures
        balanced(number_step(input, pos), input, pos, 0),
{
    lemma_operators_token(input, pos);
}

/// An identifier is translated to one line, which is no push, no combining line, no
/// label and no jump.
pub proof fn lemma_ident_balanced(input: Seq<char>, pos: int)
    requires
        0 <= pos <= input.len(),
    ensures
        balanced(ident_step(input, pos), input, pos, 0),
{
    lemma_operators_token(input, pos);
    lemma_name_at(input, pos);
    if let Some(t) = name_at(input, pos) {
        if look_at(input, t.next) == Some('(') {
            let open = match_step(input, t.next, '(');
            let close = match_step(input, open.pos, ')');
            lemma_match_step(input, t.next, '(');
            lemma_operators_match(input, t.next, '(');
            lemma_operators_split(input, pos, t.next, open.pos);
            if close.ok() {
                lemma_match_step(input, open.pos, ')');
                lemma_operators_match(input, open.pos, ')');
                lemma_operators_split(input, pos, open.pos, close.pos);
            }
        }
    }
}

/// The lines of a factor hold as many pushes as operators were consumed, and a
/// combining line for each.
pub proof fn lemma_factor_balanced(input: Seq<char>, pos: int)
    requires
        0 <= pos <= input.len(),
    ensures
        balanced(factor_step(input, pos), input, pos, 0),
    decreases input.len() - pos, 0int,
{
    lemma_number_balanced(input, pos);
    lemma_ident_balanced(input, pos);
    if look_at(input, pos) == Some('(') {
        let open = match_step(input, pos, '(');
        lemma_match_step(input, pos, '(');
        lemma_operators_match(input, pos, '(');
        let inner = expression_step(input, open.pos);
        lemma_expression_sound(input, open.pos);
        lemma_expression_balanced(input, open.pos);
        let close = match_step(input, inner.pos, ')');
        if inner.ok() && close.ok() {
            lemma_match_step(input, inner.pos, ')');
            lemma_operators_match(input, inner.pos, ')');
            lemma_operators_split(input, pos, open.pos, inner.pos);
            lemma_operators_split(input, pos, inner.pos, close.pos);
        }
    }
}

/// The lines of an operator with its operand hold one combining line more than
/// pushes: the one that meets the push in front of the operator.
pub proof fn lemma_operation_balanced(input: Seq<char>, pos: int, op: Ops)
    requires
        0 <= pos <= input.len(),
        op != Ops::Invalid,
    ensures
        balanced(operation_step(input, pos, op), input, pos, 1),
    decreases input.len() - pos, 0int,
{
    let sign = match_step(input, pos, op.symbol());
    lemma_match_step(input, pos, op.symbol());
    if sign.ok() {
        lemma_operators_match(input, pos, op.symbol());
        let operand = if op.is_additive() {
            term_step(input, sign.pos)
        } else {
            factor_step(input, sign.pos)
        };
        if op.is_additive() {
            lemma_term_sound(input, sign.pos);
            lemma_term_balanced(input, sign.pos);
        } else {
            lemma_factor_sound(input, sign.pos);
            lemma_factor_balanced(input, sign.pos);
        }
        if operand.ok() {
            lemma_operators_split(input, pos, sign.pos, operand.pos);
        }
    }
}

/// The lines of a push and of the operator with its operand behind it hold as many
/// pushes as operators were consumed, and a combining line for each.
pub proof fn lemma_pushed_balanced(input: Seq<char>, pos: int)
    requires
        0 <= pos <= input.len(),
        addop_at(input, pos) || mulop_at(input, pos),
    ensures
        balanced(pushed_step(input, pos), input, pos, 0),
    decreases input.len() - pos, 1int,
{
    lemma_operation_balanced(input, pos, Ops::of(input[pos]));
}

/// The lines of the operators behind a factor hold as many pushes as operators were
/// consumed, and a combining line for each.
pub proof fn lemma_mulops_balanced(input: Seq<char>, pos: int)
    requires
        0 <= pos <= input.len(),
    ensures
        balanced(mulops_step(input, pos), input, pos, 0),
    decreases input.len() - pos, 2int,
{
    if mulop_at(input, pos) {
        let one = pushed_step(input, pos);
        lemma_pushed_sound(input, pos);
        lemma_pushed_balanced(input, pos);
        if one.ok() {
            lemma_mulops_within(input, one.pos);
            lemma_mulops_balanced(input, one.pos);
            lemma_operators_split(input, pos, one.pos, mulops_step(input, one.pos).pos);
        }
    }
}

/// The lines of a term hold as many pushes as operators were consumed, and a
/// combining line for each.
pub proof fn lemma_term_balanced(input: Seq<char>, pos: int)
    requires
        0 <= pos <= input.len(),
    ensures
        balanced(term_step(input, pos), input, pos, 0),
    decreases input.len() - pos, 3int,
{
    let first = factor_step(input, pos);
    lemma_factor_sound(input, pos);
    lemma_factor_balanced(input, pos);
    if first.ok() {
        lemma_mulops_within(input, first.pos);
        lemma_mulops_balanced(input, first.pos);
        lemma_operators_split(input, pos, first.pos, mulops_step(input, first.pos).pos);
    }
}

/// The lines of the operators behind a term hold as many pushes as operators were
/// consumed, and a combining line for each.
pub proof fn lemma_addops_balanced(input: Seq<char>, pos: int)
    requires
        0 <= pos <= input.len(),
    ensures
        balanced(addops_step(input, pos), input, pos, 0),
    decreases input.len() - pos, 4int,
{
    if addop_at(input, pos) {
        let one = pushed_step(input, pos);
        lemma_pushed_sound(input, pos);
        lemma_pushed_balanced(input, pos);
        if one.ok() {
            lemma_addops_within(input, one.pos);
            lemma_addops_balanced(input, one.pos);
            lemma_operators_split(input, pos, one.pos, addops_step(input, one.pos).pos);
        }
    }
}

/// The lines of an expression hold one push for each operator that was consumed, a
/// leading sign too, and never more combining lines than pushes. Where the expression
/// went through, every push has its combining line. They hold no label and no jump.
pub proof fn lemma_expression_balanced(input: Seq<char>, pos: int)
    requires
        0 <= pos <= input.len(),
    ensures
        balanced(expression_step(input, pos), input, pos, 0),
    decreases input.len() - pos, 5int,
{
    if addop_at(input, pos) {
        lemma_addops_within(input, pos);
        lemma_addops_balanced(input, pos);
    } else {
        let first = term_step(input, pos);
        lemma_term_sound(input, pos);
        lemma_term_balanced(input, pos);
        if first.ok() {
            lemma_addops_within(input, first.pos);
            lemma_addops_balanced(input, first.pos);
            lemma_operators_split(input, pos, first.pos, addops_step(input, first.pos).pos);
        }
    }
}

/// The lines of an assignment hold one push for each operator that was consumed, and
/// where it went through a combining line for each. They hold no label and no jump.
pub proof fn lemma_assignment_balanced(input: Seq<char>, pos: int)
    requires
        0 <= pos <= input.len(),
    ensures
        balanced(assignment_step(input, pos), input, pos, 0),
{
    lemma_operators_token(input, pos);
    lemma_name_at(input, pos);
    if let Some(t) = name_at(input, pos) {
        lemma_store_balanced(input, t.next, t.text);
        lemma_store_sound(input, t.next, t.text);
        let rest = store_step(input, t.next, t.text);
        if rest.ok() {
            lemma_operators_split(input, pos, t.next, rest.pos);
        }
    }
}

/// The lines of what follows the name in an assignment hold one push for each operator
/// that was consumed, and where it went through a combining line for each.
pub proof fn lemma_store_balanced(input: Seq<char>, pos: int, name: Seq<char>)
    requires
        0 <= pos <= input.len(),
    ensures
        balanced(store_step(input, pos, name), input, pos, 0),
{
    let eq = match_step(input, pos, '=');
    lemma_match_step(input, pos, '=');
    if eq.ok() {
        lemma_operators_match(input, pos, '=');
        let value = expression_step(input, eq.pos);
        lemma_expression_sound(input, eq.pos);
        lemma_expression_balanced(input, eq.pos);
        if value.ok() {
            lemma_operators_split(input, pos, eq.pos, value.pos);
        }
    }
}

/// A number that is the whole input is translated to one line, which loads it.
pub proof fn lemma_number_alone(n: Seq<char>)
    requires
        n.len() > 0,
        forall|i: int| 0 <= i < n.len() ==> is_digit_char(#[trigger] n[i]),
    ensures
        expression_step(n, 0) == Step::emit(n.len() as int, Line::LoadConst(n)),
{
    let len = n.len() as int;
    lemma_run_end(n, 0, Class::Digit);
    assert(run_end(n, 0, Class::Digit) == len) by {
        let e = run_end(n, 0, Class::Digit);
        if e < len {
            assert(is_digit_char(n[e]));
        }
    }
    assert(white_end(n, len) == len);
    assert(slice(n, 0, len) =~= n);
    let load = Step::emit(len, Line::LoadConst(n));
    assert(number_step(n, 0) == load);
    assert(factor_step(n, 0) == load);
    assert(mulops_step(n, len) == Step::go(len));
    assert(addops_step(n, len) == Step::go(len));
    lemma_chain_stay(load);
    assert(term_step(n, 0) == load);
}

} // verus!
