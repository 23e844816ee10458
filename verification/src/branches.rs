//! What holds of the labels and jumps that statements are translated to: every label
//! that was taken is placed once, no other label is placed, and every jump goes to one
//! of them or to the exit of a loop around the statement.

use vstd::prelude::*;
use crate::balance::{lemma_expression_balanced, lemma_store_balanced};
use crate::code::{
    group_counts, lands, lemma_no_marks_placed, lemma_no_marks_strays, lemma_strays_widen, marks,
    placed, strays,
};
use crate::flow::{
    block_end_at, block_step, break_step, do_step, for_head_step, for_step, if_step,
    lemma_block_bounded, lemma_for_head_sound, lemma_statement_sound, loop_step, other_step,
    program_step, repeat_step, simple_step, statement_step, while_step,
};
use crate::grammar::{expression_step, lemma_expression_sound};
use crate::label::{label_name, lemma_label_name_injective};
use crate::scan::{lemma_match_step, lemma_name_at, match_step, name_at};
use crate::step::{look_at, Step};

verus! {

broadcast use group_counts;

/// How often `code` may place the label with number `n`, where the labels from `base`
/// up to `end` are its own: once where `n` is one of them, and else never.
pub open spec fn share(n: nat, base: nat, end: nat) -> nat {
    if base <= n < end {
        1
    } else {
        0
    }
}

/// What holds of the label with number `n` and of the jumps in the lines of a
/// statement that takes its labels from `base` on, in a loop with the exit `target`: the
/// label is placed once at most, and only where it is one of those that were taken;
/// where the statement went through, it is placed if it is one of them; and every jump
/// goes to a label that was taken or to `target`.
pub open spec fn labelled_at(s: Step, base: nat, target: Seq<char>, n: nat) -> bool {
    &&& placed(s.code, n) <= share(n, base, base + s.fresh)
    &&& s.ok() ==> placed(s.code, n) == share(n, base, base + s.fresh)
    &&& strays(s.code, base, base + s.fresh, target) == 0
}

/// What holds of the lines of a statement that takes its labels from `base` on, in a
/// loop with the exit `target`: they place no label but those that were taken, and none
/// of them twice; every jump in them goes to one of those labels or to `target`; and
/// where the statement went through, each of those labels is placed.
pub open spec fn labelled(s: Step, base: nat, target: Seq<char>) -> bool {
    forall|n: nat| #[trigger] labelled_at(s, base, target, n)
}

/// Lines without labels and jumps, of a step that takes no label, are in order
/// whatever labels and exit are around them.
pub proof fn lemma_plain_labelled(s: Step, base: nat, target: Seq<char>, n: nat)
    requires
        marks(s.code) == 0,
        s.fresh == 0,
    ensures
        labelled_at(s, base, target, n),
{
    lemma_no_marks_placed(s.code, n);
    lemma_no_marks_strays(s.code, base, base, target);
}

/// A `break` jumps to the exit of the loop around it and nowhere else.
pub proof fn lemma_break_labelled(input: Seq<char>, pos: int, base: nat, target: Seq<char>, n: nat)
    requires
        0 <= pos <= input.len(),
    ensures
        labelled_at(break_step(input, pos, target), base, target, n),
{
    lemma_match_step(input, pos, 'b');
}

/// A statement that begins with a name holds no label and no jump.
pub proof fn lemma_simple_labelled(
    input: Seq<char>,
    pos: int,
    base: nat,
    target: Seq<char>,
    n: nat,
)
    requires
        0 <= pos <= input.len(),
    ensures
        labelled_at(simple_step(input, pos), base, target, n),
        labelled_at(other_step(input, pos), base, target, n),
{
    lemma_name_at(input, pos);
    if let Some(t) = name_at(input, pos) {
        lemma_store_balanced(input, t.next, t.text);
        crate::grammar::lemma_store_sound(input, t.next, t.text);
    }
    lemma_plain_labelled(simple_step(input, pos), base, target, n);
    lemma_plain_labelled(other_step(input, pos), base, target, n);
}

/// The head of a `for` places the label of the top, which is `base`, and no other.
pub proof fn lemma_for_head_placed(input: Seq<char>, pos: int, base: nat, n: nat)
    requires
        0 <= pos <= input.len(),
    ensures
        placed(for_head_step(input, pos, base).code, n) <= share(n, base, base + 1),
        for_head_step(input, pos, base).ok() ==> placed(for_head_step(input, pos, base).code, n)
            == share(n, base, base + 1),
{
    lemma_name_at(input, pos);
    if let Some(t) = name_at(input, pos) {
        let eq = match_step(input, t.next, '=');
        lemma_match_step(input, t.next, '=');
        if eq.ok() {
            let first = expression_step(input, eq.pos);
            lemma_expression_sound(input, eq.pos);
            lemma_expression_balanced(input, eq.pos);
            lemma_no_marks_placed(first.code, n);
            if first.ok() {
                let limit = expression_step(input, first.pos);
                lemma_expression_sound(input, first.pos);
                lemma_expression_balanced(input, first.pos);
                lemma_no_marks_placed(limit.code, n);
            }
        }
    }
}

/// The head of a `for` jumps to the exit, which is the label `base + 1`, and nowhere
/// else.
pub proof fn lemma_for_head_strays(
    input: Seq<char>,
    pos: int,
    base: nat,
    end: nat,
    target: Seq<char>,
)
    requires
        0 <= pos <= input.len(),
        base + 2 <= end,
    ensures
        strays(for_head_step(input, pos, base).code, base, end, target) == 0,
{
    lemma_name_at(input, pos);
    if let Some(t) = name_at(input, pos) {
        let eq = match_step(input, t.next, '=');
        lemma_match_step(input, t.next, '=');
        if eq.ok() {
            let first = expression_step(input, eq.pos);
            lemma_expression_sound(input, eq.pos);
            lemma_expression_balanced(input, eq.pos);
            lemma_no_marks_strays(first.code, base, end, target);
            if first.ok() {
                let limit = expression_step(input, first.pos);
                lemma_expression_sound(input, first.pos);
                lemma_expression_balanced(input, first.pos);
                lemma_no_marks_strays(limit.code, base, end, target);
                assert(lands(label_name(base + 1), base, end, target));
            }
        }
    }
}

/// The lines of an `if` place each of its labels once and jump to no other.
pub proof fn lemma_if_labelled(input: Seq<char>, pos: int, base: nat, target: Seq<char>, n: nat)
    requires
        0 <= pos <= input.len(),
    ensures
        labelled_at(if_step(input, pos, base, target), base, target, n),
    decreases input.len() - pos, 0int,
{
    let key = match_step(input, pos, 'i');
    lemma_match_step(input, pos, 'i');
    if key.ok() {
        let body = block_step(input, key.pos, base + 1, target);
        lemma_block_bounded(input, key.pos, base + 1, target);
        lemma_block_labelled(input, key.pos, base + 1, target, n);
        let whole = if_step(input, pos, base, target);
        let end = base + whole.fresh;
        assert(lands(label_name(base), base, end, target));
        lemma_strays_widen(body.code, base + 1, base + 1 + body.fresh, target, base, end, target);
        if body.ok() && look_at(input, body.pos) == Some('l') {
            let other = match_step(input, body.pos, 'l');
            lemma_match_step(input, body.pos, 'l');
            let past = base + 1 + body.fresh;
            let second = block_step(input, other.pos, past + 1, target);
            lemma_block_bounded(input, other.pos, past + 1, target);
            lemma_block_labelled(input, other.pos, past + 1, target, n);
            lemma_match_step(input, second.pos, 'e');
            assert(lands(label_name(past), base, end, target));
            lemma_strays_widen(
                second.code,
                past + 1,
                past + 1 + second.fresh,
                target,
                base,
                end,
                target,
            );
        } else if body.ok() {
            lemma_match_step(input, body.pos, 'e');
        }
    }
}

/// The lines of a `while` place each of its labels once and jump to no other.
pub proof fn lemma_while_labelled(input: Seq<char>, pos: int, base: nat, target: Seq<char>, n: nat)
    requires
        0 <= pos <= input.len(),
    ensures
        labelled_at(while_step(input, pos, base), base, target, n),
    decreases input.len() - pos, 0int,
{
    let key = match_step(input, pos, 'w');
    lemma_match_step(input, pos, 'w');
    if key.ok() {
        let exit = label_name(base + 1);
        let body = block_step(input, key.pos, base + 2, exit);
        lemma_block_bounded(input, key.pos, base + 2, exit);
        lemma_block_labelled(input, key.pos, base + 2, exit, n);
        let end = base + while_step(input, pos, base).fresh;
        assert(lands(label_name(base), base, end, target));
        assert(lands(exit, base, end, target));
        lemma_strays_widen(body.code, base + 2, base + 2 + body.fresh, exit, base, end, target);
        if body.ok() {
            lemma_match_step(input, body.pos, 'e');
        }
    }
}

/// The lines of a `loop` place each of its labels once and jump to no other.
pub proof fn lemma_loop_labelled(input: Seq<char>, pos: int, base: nat, target: Seq<char>, n: nat)
    requires
        0 <= pos <= input.len(),
    ensures
        labelled_at(loop_step(input, pos, base), base, target, n),
    decreases input.len() - pos, 0int,
{
    let key = match_step(input, pos, 'p');
    lemma_match_step(input, pos, 'p');
    if key.ok() {
        let exit = label_name(base + 1);
        let body = block_step(input, key.pos, base + 2, exit);
        lemma_block_bounded(input, key.pos, base + 2, exit);
        lemma_block_labelled(input, key.pos, base + 2, exit, n);
        let end = base + loop_step(input, pos, base).fresh;
        assert(lands(label_name(base), base, end, target));
        assert(lands(exit, base, end, target));
        lemma_strays_widen(body.code, base + 2, base + 2 + body.fresh, exit, base, end, target);
        if body.ok() {
            lemma_match_step(input, body.pos, 'e');
        }
    }
}

/// The lines of a `repeat` place each of its labels once and jump to no other.
pub proof fn lemma_repeat_labelled(input: Seq<char>, pos: int, base: nat, target: Seq<char>, n: nat)
    requires
        0 <= pos <= input.len(),
    ensures
        labelled_at(repeat_step(input, pos, base), base, target, n),
    decreases input.len() - pos, 0int,
{
    let key = match_step(input, pos, 'r');
    lemma_match_step(input, pos, 'r');
    if key.ok() {
        let exit = label_name(base + 1);
        let body = block_step(input, key.pos, base + 2, exit);
        lemma_block_bounded(input, key.pos, base + 2, exit);
        lemma_block_labelled(input, key.pos, base + 2, exit, n);
        let end = base + repeat_step(input, pos, base).fresh;
        assert(lands(label_name(base), base, end, target));
        assert(lands(exit, base, end, target));
        lemma_strays_widen(body.code, base + 2, base + 2 + body.fresh, exit, base, end, target);
        if body.ok() {
            lemma_match_step(input, body.pos, 'u');
        }
    }
}

/// The lines of a `for` place each of its labels once and jump to no other.
pub proof fn lemma_for_labelled(input: Seq<char>, pos: int, base: nat, target: Seq<char>, n: nat)
    requires
        0 <= pos <= input.len(),
    ensures
        labelled_at(for_step(input, pos, base), base, target, n),
    decreases input.len() - pos, 0int,
{
    let key = match_step(input, pos, 'f');
    lemma_match_step(input, pos, 'f');
    if key.ok() {
        let exit = label_name(base + 1);
        let head = for_head_step(input, key.pos, base);
        lemma_for_head_sound(input, key.pos, base);
        let end = base + for_step(input, pos, base).fresh;
        lemma_for_head_strays(input, key.pos, base, end, target);
        lemma_for_head_placed(input, key.pos, base, n);
        if head.ok() {
            let body = block_step(input, head.pos, base + 2, exit);
            lemma_block_bounded(input, head.pos, base + 2, exit);
            lemma_block_labelled(input, head.pos, base + 2, exit, n);
            assert(lands(label_name(base), base, end, target));
            assert(lands(exit, base, end, target));
            lemma_strays_widen(body.code, base + 2, base + 2 + body.fresh, exit, base, end, target);
            if body.ok() {
                lemma_match_step(input, body.pos, 'e');
            }
        }
    }
}

/// The lines of a `do` place each of its labels once and jump to no other.
pub proof fn lemma_do_labelled(input: Seq<char>, pos: int, base: nat, target: Seq<char>, n: nat)
    requires
        0 <= pos <= input.len(),
    ensures
        labelled_at(do_step(input, pos, base), base, target, n),
    decreases input.len() - pos, 0int,
{
    let key = match_step(input, pos, 'd');
    lemma_match_step(input, pos, 'd');
    if key.ok() {
        let exit = label_name(base + 1);
        let count = expression_step(input, key.pos);
        lemma_expression_sound(input, key.pos);
        lemma_expression_balanced(input, key.pos);
        let end = base + do_step(input, pos, base).fresh;
        lemma_no_marks_placed(count.code, n);
        lemma_no_marks_strays(count.code, base, end, target);
        if count.ok() {
            let body = block_step(input, count.pos, base + 2, exit);
            lemma_block_bounded(input, count.pos, base + 2, exit);
            lemma_block_labelled(input, count.pos, base + 2, exit, n);
            assert(lands(label_name(base), base, end, target));
            lemma_strays_widen(body.code, base + 2, base + 2 + body.fresh, exit, base, end, target);
            if body.ok() {
                lemma_match_step(input, body.pos, 'e');
            }
        }
    }
}

/// The lines of a statement place each of its labels once and jump to no other.
pub proof fn lemma_statement_labelled(input: Seq<char>, pos: int, base: nat, target: Seq<char>, n: nat)
    requires
        0 <= pos <= input.len(),
    ensures
        labelled_at(statement_step(input, pos, base, target), base, target, n),
    decreases input.len() - pos, 1int,
{
    lemma_simple_labelled(input, pos, base, target, n);
    lemma_break_labelled(input, pos, base, target, n);
    match look_at(input, pos) {
        Some(c) => {
            if c == 'i' {
                lemma_if_labelled(input, pos, base, target, n);
            } else if c == 'w' {
                lemma_while_labelled(input, pos, base, target, n);
            } else if c == 'p' {
                lemma_loop_labelled(input, pos, base, target, n);
            } else if c == 'r' {
                lemma_repeat_labelled(input, pos, base, target, n);
            } else if c == 'f' {
                lemma_for_labelled(input, pos, base, target, n);
            } else if c == 'd' {
                lemma_do_labelled(input, pos, base, target, n);
            }
        },
        None => {},
    }
}

/// The lines of a block place each label that the block took once, and no other; and
/// every jump in them goes to one of those labels or to the exit of the loop around
/// the block.
pub proof fn lemma_block_labelled(input: Seq<char>, pos: int, base: nat, target: Seq<char>, n: nat)
    requires
        0 <= pos <= input.len(),
    ensures
        labelled_at(block_step(input, pos, base, target), base, target, n),
    decreases input.len() - pos, 2int,
{
    if !block_end_at(input, pos) {
        let one = statement_step(input, pos, base, target);
        lemma_statement_sound(input, pos, base, target);
        lemma_statement_labelled(input, pos, base, target, n);
        if one.ok() {
            let rest = block_step(input, one.pos, base + one.fresh, target);
            lemma_block_labelled(input, one.pos, base + one.fresh, target, n);
            let end = base + one.fresh + rest.fresh;
            lemma_strays_widen(one.code, base, base + one.fresh, target, base, end, target);
            lemma_strays_widen(rest.code, base + one.fresh, end, target, base, end, target);
        }
    }
}

/// In the lines of a block every label that the block took is placed once and no
/// other label is placed, nor any twice; every jump in them goes to one of those labels
/// or to the exit of the loop around the block. Where the block was stopped, the labels
/// that were not reached are missing.
pub proof fn lemma_block_labels(input: Seq<char>, pos: int, base: nat, target: Seq<char>)
    requires
        0 <= pos <= input.len(),
    ensures
        labelled(block_step(input, pos, base, target), base, target),
{
    assert forall|n: nat| #[trigger]
        labelled_at(block_step(input, pos, base, target), base, target, n) by {
        lemma_block_labelled(input, pos, base, target, n);
    }
}

/// In the lines of a program every label that was taken is placed once and no other
/// label is placed, nor any twice; every jump in them goes to one of those labels.
/// Labels of different numbers have different names, so no name is placed twice.
pub proof fn lemma_program_labels(input: Seq<char>, pos: int, base: nat)
    requires
        0 <= pos <= input.len(),
    ensures
        labelled(program_step(input, pos, base), base, Seq::empty()),
        forall|a: nat, b: nat| label_name(a) == label_name(b) ==> a == b,
{
    assert forall|n: nat| #[trigger]
        labelled_at(program_step(input, pos, base), base, Seq::empty(), n) by {
        lemma_block_labelled(input, pos, base, Seq::empty(), n);
    }
    assert forall|a: nat, b: nat| label_name(a) == label_name(b) implies a == b by {
        lemma_label_name_injective(a, b);
    }
}

} // verus!
