//! What the translator of statements does, as functions of the input, a place in it,
//! the number of the next label and the label that `break` leaves to.
//!
//! A block is a sequence of statements in front of `e` (end), `l` (else) or `u`
//! (until). The first character of a statement tells what it is:
//!
//! ```text
//! i  condition block [ l block ] e      if
//! w  condition block e                  while
//! p  block e                            loop
//! r  block u condition                  repeat
//! f  name = expression expression block e    for
//! d  expression block e                 do
//! b                                     break
//! ```
//!
//! Any other statement begins with a name: an assignment where `=` follows the name,
//! and else the name alone, which is written as it is.

use vstd::prelude::*;
use crate::code::Line;
use crate::error::Fault;
use crate::grammar::{expression_step, lemma_expression_sound, lemma_store_sound, store_step};
use crate::label::label_name;
use crate::scan::{lemma_match_step, lemma_name_at, match_step, name_at};
use crate::step::{look_at, Step};

verus! {

/// Whether `c` ends a block.
pub open spec fn is_block_end(c: char) -> bool {
    c == 'e' || c == 'l' || c == 'u'
}

/// Whether the block that is translated ends at `pos`.
pub open spec fn block_end_at(input: Seq<char>, pos: int) -> bool {
    match look_at(input, pos) {
        Some(c) => is_block_end(c),
        None => false,
    }
}

/// The condition of a construct, for which a marker stands.
pub open spec fn condition_step(pos: int) -> Step {
    Step::emit(pos, Line::Condition)
}

/// A name that stands alone: written as it is.
pub open spec fn other_step(input: Seq<char>, pos: int) -> Step {
    match name_at(input, pos) {
        Some(t) => Step::emit(t.next, Line::Bare(t.text)),
        None => Step::fail(pos, Fault::Expected("Name"@)),
    }
}

/// A statement that begins with a name: an assignment where `=` follows the name, and
/// else the name alone.
pub open spec fn simple_step(input: Seq<char>, pos: int) -> Step {
    match name_at(input, pos) {
        Some(t) => {
            if look_at(input, t.next) == Some('=') {
                Step::go(t.next).and_then(store_step(input, t.next, t.text))
            } else {
                Step::emit(t.next, Line::Bare(t.text))
            }
        },
        None => Step::fail(pos, Fault::Expected("Name"@)),
    }
}

/// A `break`: a jump to `target`, the exit of the innermost loop around it. With no loop
/// around it, which the empty target says, it is a fault.
pub open spec fn break_step(input: Seq<char>, pos: int, target: Seq<char>) -> Step {
    let key = match_step(input, pos, 'b');
    if target.len() > 0 {
        key.and_emit(Line::Jump(target))
    } else {
        key.and_fail(Fault::NoLoop)
    }
}

/// An `if`: the condition, a jump past the block where it is false, the block, and the
/// label that the jump goes to. With an `else`, the first block ends with a jump past
/// the second, and the jump of the condition goes to the second.
pub open spec fn if_step(input: Seq<char>, pos: int, base: nat, target: Seq<char>) -> Step
    decreases input.len() - pos, 0int,
{
    let key = match_step(input, pos, 'i');
    if key.ok() {
        proof {
            lemma_match_step(input, pos, 'i');
        }
        let head = key.and_take(1).and_emit(Line::Condition).and_emit(
            Line::JumpIfFalse(label_name(base)),
        );
        let body = block_step(input, key.pos, base + 1, target);
        if body.ok() && look_at(input, body.pos) == Some('l') && body.within(input, key.pos) {
            let other = match_step(input, body.pos, 'l');
            proof {
                lemma_match_step(input, body.pos, 'l');
            }
            let past = base + 1 + body.fresh;
            let turn = other.and_take(1).and_emit(Line::Jump(label_name(past))).and_emit(
                Line::Label(base),
            );
            let second = block_step(input, other.pos, past + 1, target);
            head.and_then(body).and_then(turn).and_then(second).and_then(
                match_step(input, second.pos, 'e'),
            ).and_emit(Line::Label(past))
        } else {
            head.and_then(body).and_then(match_step(input, body.pos, 'e')).and_emit(
                Line::Label(base),
            )
        }
    } else {
        key
    }
}

/// A `while`: the label of the top, the condition, a jump to the exit where it is
/// false, the block, a jump to the top, and the label of the exit.
pub open spec fn while_step(input: Seq<char>, pos: int, base: nat) -> Step
    decreases input.len() - pos, 0int,
{
    let key = match_step(input, pos, 'w');
    if key.ok() {
        proof {
            lemma_match_step(input, pos, 'w');
        }
        let top = label_name(base);
        let exit = label_name(base + 1);
        let body = block_step(input, key.pos, base + 2, exit);
        key.and_take(2).and_emit(Line::Label(base)).and_emit(Line::Condition).and_emit(
            Line::JumpIfFalse(exit),
        ).and_then(body).and_then(match_step(input, body.pos, 'e')).and_emit(
            Line::Jump(top),
        ).and_emit(Line::Label(base + 1))
    } else {
        key
    }
}

/// A `loop`: the label of the top, the block, a jump to the top, and the label of the
/// exit, which only a `break` reaches.
pub open spec fn loop_step(input: Seq<char>, pos: int, base: nat) -> Step
    decreases input.len() - pos, 0int,
{
    let key = match_step(input, pos, 'p');
    if key.ok() {
        proof {
            lemma_match_step(input, pos, 'p');
        }
        let top = label_name(base);
        let exit = label_name(base + 1);
        let body = block_step(input, key.pos, base + 2, exit);
        key.and_take(2).and_emit(Line::Label(base)).and_then(body).and_then(
            match_step(input, body.pos, 'e'),
        ).and_emit(Line::Jump(top)).and_emit(Line::Label(base + 1))
    } else {
        key
    }
}

/// A `repeat`: the label of the top, the block, the condition behind `u`, a jump to the
/// top where it is false, and the label of the exit.
pub open spec fn repeat_step(input: Seq<char>, pos: int, base: nat) -> Step
    decreases input.len() - pos, 0int,
{
    let key = match_step(input, pos, 'r');
    if key.ok() {
        proof {
            lemma_match_step(input, pos, 'r');
        }
        let top = label_name(base);
        let exit = label_name(base + 1);
        let body = block_step(input, key.pos, base + 2, exit);
        key.and_take(2).and_emit(Line::Label(base)).and_then(body).and_then(
            match_step(input, body.pos, 'u'),
        ).and_emit(Line::Condition).and_emit(Line::JumpIfFalse(top)).and_emit(
            Line::Label(base + 1),
        )
    } else {
        key
    }
}

/// What a `for` reads in front of its block: the name of the counter, `=`, the first
/// value, which is stored under the name less one, and the limit, which is pushed. Then
/// the top of the loop: the counter is loaded, stepped, stored and compared with the
/// limit, and a jump leaves to `exit` where it is past the limit.
pub open spec fn for_head_step(input: Seq<char>, pos: int, base: nat) -> Step {
    let exit = label_name(base + 1);
    match name_at(input, pos) {
        Some(t) => {
            let eq = match_step(input, t.next, '=');
            let first = expression_step(input, eq.pos);
            let init = eq.and_then(first).and_emit(Line::Decrement).and_emit(
                Line::Address(t.text),
            ).and_emit(Line::StoreCounter);
            let limit = expression_step(input, first.pos);
            Step::go(t.next).and_then(init).and_then(limit).and_emit(Line::PushLimit).and_emit(
                Line::Label(base),
            ).and_emit(Line::Address(t.text)).and_emit(Line::Reload).and_emit(
                Line::Increment,
            ).and_emit(Line::StoreCounter).and_emit(Line::CompareLimit).and_emit(
                Line::JumpIfAbove(exit),
            )
        },
        None => Step::fail(pos, Fault::Expected("Name"@)),
    }
}

/// A `for`: its head, the block, a jump to the top, the label of the exit, and the drop
/// of the limit from the stack.
pub open spec fn for_step(input: Seq<char>, pos: int, base: nat) -> Step
    decreases input.len() - pos, 0int,
{
    let key = match_step(input, pos, 'f');
    if key.ok() {
        let head = for_head_step(input, key.pos, base);
        if head.ok() && head.within(input, key.pos) {
            proof {
                lemma_match_step(input, pos, 'f');
            }
            let body = block_step(input, head.pos, base + 2, label_name(base + 1));
            key.and_take(2).and_then(head).and_then(body).and_then(
                match_step(input, body.pos, 'e'),
            ).and_emit(Line::Jump(label_name(base))).and_emit(Line::Label(base + 1)).and_emit(
                Line::Release,
            )
        } else {
            key.and_take(2).and_then(head)
        }
    } else {
        key
    }
}

/// A `do`: the count, less one, is pushed at the top of the loop; behind the block it is
/// popped and counted down, with a jump to the top while it is not spent. The exit is
/// where a `break` arrives, with the count still on the stack, which is dropped there.
pub open spec fn do_step(input: Seq<char>, pos: int, base: nat) -> Step
    decreases input.len() - pos, 0int,
{
    let key = match_step(input, pos, 'd');
    if key.ok() {
        let count = expression_step(input, key.pos);
        let head = key.and_take(2).and_then(count).and_emit(Line::Decrement).and_emit(
            Line::Label(base),
        ).and_emit(Line::Push);
        if count.ok() && count.within(input, key.pos) {
            proof {
                lemma_match_step(input, pos, 'd');
            }
            let body = block_step(input, count.pos, base + 2, label_name(base + 1));
            head.and_then(body).and_then(match_step(input, body.pos, 'e')).and_emit(
                Line::PopCounter,
            ).and_emit(Line::CountDown(label_name(base))).and_emit(Line::Reserve).and_emit(
                Line::Label(base + 1),
            ).and_emit(Line::Release)
        } else {
            head
        }
    } else {
        key
    }
}

/// One statement, told by its first character.
pub open spec fn statement_step(input: Seq<char>, pos: int, base: nat, target: Seq<char>) -> Step
    decreases input.len() - pos, 1int,
{
    match look_at(input, pos) {
        Some(c) => {
            if c == 'i' {
                if_step(input, pos, base, target)
            } else if c == 'w' {
                while_step(input, pos, base)
            } else if c == 'p' {
                loop_step(input, pos, base)
            } else if c == 'r' {
                repeat_step(input, pos, base)
            } else if c == 'f' {
                for_step(input, pos, base)
            } else if c == 'd' {
                do_step(input, pos, base)
            } else if c == 'b' {
                break_step(input, pos, target)
            } else {
                simple_step(input, pos)
            }
        },
        None => simple_step(input, pos),
    }
}

/// A block: the statements from `pos` up to the first `e`, `l` or `u` that begins none
/// of them. `base` numbers the first label that the block takes, and `target` is where
/// a `break` in it leaves to.
pub open spec fn block_step(input: Seq<char>, pos: int, base: nat, target: Seq<char>) -> Step
    decreases input.len() - pos, 2int,
{
    if block_end_at(input, pos) {
        Step::go(pos)
    } else {
        let one = statement_step(input, pos, base, target);
        if one.advanced(input, pos) {
            one.and_then(block_step(input, one.pos, base + one.fresh, target))
        } else {
            one
        }
    }
}

/// A program: a block outside every loop, in front of `e`, and the line that ends the
/// program.
pub open spec fn program_step(input: Seq<char>, pos: int, base: nat) -> Step {
    let body = block_step(input, pos, base, Seq::empty());
    if look_at(input, body.pos) == Some('e') {
        body.and_emit(Line::End)
    } else {
        body.and_fail(Fault::Expected("End"@))
    }
}

/// A statement that begins with a name moves the cursor forward within the input, or
/// stops at or behind the place where it began. It takes no label.
pub proof fn lemma_simple_sound(input: Seq<char>, pos: int)
    requires
        0 <= pos <= input.len(),
    ensures
        simple_step(input, pos).sound(input, pos),
        simple_step(input, pos).fresh == 0,
        other_step(input, pos).sound(input, pos),
        other_step(input, pos).fresh == 0,
{
    lemma_name_at(input, pos);
    if let Some(t) = name_at(input, pos) {
        lemma_store_sound(input, t.next, t.text);
    }
}

/// A `break` moves the cursor forward within the input, or stops at or behind the place
/// where it began. It takes no label.
pub proof fn lemma_break_sound(input: Seq<char>, pos: int, target: Seq<char>)
    requires
        0 <= pos <= input.len(),
    ensures
        break_step(input, pos, target).sound(input, pos),
        break_step(input, pos, target).fresh == 0,
{
    lemma_match_step(input, pos, 'b');
}

/// The head of a `for` moves the cursor forward within the input, or stops at or behind
/// the place where it began. It takes no label.
pub proof fn lemma_for_head_sound(input: Seq<char>, pos: int, base: nat)
    requires
        0 <= pos <= input.len(),
    ensures
        for_head_step(input, pos, base).sound(input, pos),
        for_head_step(input, pos, base).fresh == 0,
{
    lemma_name_at(input, pos);
    if let Some(t) = name_at(input, pos) {
        lemma_match_step(input, t.next, '=');
        let eq = match_step(input, t.next, '=');
        if eq.ok() {
            lemma_expression_sound(input, eq.pos);
            let first = expression_step(input, eq.pos);
            if first.ok() {
                lemma_expression_sound(input, first.pos);
            }
        }
    }
}

/// An `if` moves the cursor forward within the input, or stops at or behind the place
/// where it began, and takes no more than two labels for each character consumed.
pub proof fn lemma_if_sound(input: Seq<char>, pos: int, base: nat, target: Seq<char>)
    requires
        0 <= pos <= input.len(),
    ensures
        if_step(input, pos, base, target).sound(input, pos),
    decreases input.len() - pos, 0int,
{
    lemma_match_step(input, pos, 'i');
    let key = match_step(input, pos, 'i');
    if key.ok() {
        let body = block_step(input, key.pos, base + 1, target);
        lemma_block_bounded(input, key.pos, base + 1, target);
        if body.ok() {
            lemma_match_step(input, body.pos, 'l');
            lemma_match_step(input, body.pos, 'e');
            if look_at(input, body.pos) == Some('l') {
                let other = match_step(input, body.pos, 'l');
                let past = base + 1 + body.fresh;
                let second = block_step(input, other.pos, past + 1, target);
                lemma_block_bounded(input, other.pos, past + 1, target);
                if second.ok() {
                    lemma_match_step(input, second.pos, 'e');
                }
            }
        }
    }
}

/// A `while` moves the cursor forward within the input, or stops at or behind the place
/// where it began, and takes no more than two labels for each character consumed.
pub proof fn lemma_while_sound(input: Seq<char>, pos: int, base: nat)
    requires
        0 <= pos <= input.len(),
    ensures
        while_step(input, pos, base).sound(input, pos),
    decreases input.len() - pos, 0int,
{
    lemma_match_step(input, pos, 'w');
    let key = match_step(input, pos, 'w');
    if key.ok() {
        let body = block_step(input, key.pos, base + 2, label_name(base + 1));
        lemma_block_bounded(input, key.pos, base + 2, label_name(base + 1));
        if body.ok() {
            lemma_match_step(input, body.pos, 'e');
        }
    }
}

/// A `loop` moves the cursor forward within the input, or stops at or behind the place
/// where it began, and takes no more than two labels for each character consumed.
pub proof fn lemma_loop_sound(input: Seq<char>, pos: int, base: nat)
    requires
        0 <= pos <= input.len(),
    ensures
        loop_step(input, pos, base).sound(input, pos),
    decreases input.len() - pos, 0int,
{
    lemma_match_step(input, pos, 'p');
    let key = match_step(input, pos, 'p');
    if key.ok() {
        let body = block_step(input, key.pos, base + 2, label_name(base + 1));
        lemma_block_bounded(input, key.pos, base + 2, label_name(base + 1));
        if body.ok() {
            lemma_match_step(input, body.pos, 'e');
        }
    }
}

/// A `repeat` moves the cursor forward within the input, or stops at or behind the
/// place where it began, and takes no more than two labels for each character consumed.
pub proof fn lemma_repeat_sound(input: Seq<char>, pos: int, base: nat)
    requires
        0 <= pos <= input.len(),
    ensures
        repeat_step(input, pos, base).sound(input, pos),
    decreases input.len() - pos, 0int,
{
    lemma_match_step(input, pos, 'r');
    let key = match_step(input, pos, 'r');
    if key.ok() {
        let body = block_step(input, key.pos, base + 2, label_name(base + 1));
        lemma_block_bounded(input, key.pos, base + 2, label_name(base + 1));
        if body.ok() {
            lemma_match_step(input, body.pos, 'u');
        }
    }
}

/// A `for` moves the cursor forward within the input, or stops at or behind the place
/// where it began, and takes no more than two labels for each character consumed.
pub proof fn lemma_for_sound(input: Seq<char>, pos: int, base: nat)
    requires
        0 <= pos <= input.len(),
    ensures
        for_step(input, pos, base).sound(input, pos),
    decreases input.len() - pos, 0int,
{
    lemma_match_step(input, pos, 'f');
    let key = match_step(input, pos, 'f');
    if key.ok() {
        let head = for_head_step(input, key.pos, base);
        lemma_for_head_sound(input, key.pos, base);
        if head.ok() {
            let body = block_step(input, head.pos, base + 2, label_name(base + 1));
            lemma_block_bounded(input, head.pos, base + 2, label_name(base + 1));
            if body.ok() {
                lemma_match_step(input, body.pos, 'e');
            }
        }
    }
}

/// A `do` moves the cursor forward within the input, or stops at or behind the place
/// where it began, and takes no more than two labels for each character consumed.
pub proof fn lemma_do_sound(input: Seq<char>, pos: int, base: nat)
    requires
        0 <= pos <= input.len(),
    ensures
        do_step(input, pos, base).sound(input, pos),
    decreases input.len() - pos, 0int,
{
    lemma_match_step(input, pos, 'd');
    let key = match_step(input, pos, 'd');
    if key.ok() {
        let count = expression_step(input, key.pos);
        lemma_expression_sound(input, key.pos);
        if count.ok() {
            let body = block_step(input, count.pos, base + 2, label_name(base + 1));
            lemma_block_bounded(input, count.pos, base + 2, label_name(base + 1));
            if body.ok() {
                lemma_match_step(input, body.pos, 'e');
            }
        }
    }
}

/// A statement moves the cursor forward within the input, or stops at or behind the
/// place where it began, and takes no more than two labels for each character consumed.
pub proof fn lemma_statement_sound(input: Seq<char>, pos: int, base: nat, target: Seq<char>)
    requires
        0 <= pos <= input.len(),
    ensures
        statement_step(input, pos, base, target).sound(input, pos),
    decreases input.len() - pos, 1int,
{
    lemma_simple_sound(input, pos);
    lemma_break_sound(input, pos, target);
    match look_at(input, pos) {
        Some(c) => {
            if c == 'i' {
                lemma_if_sound(input, pos, base, target);
            } else if c == 'w' {
                lemma_while_sound(input, pos, base);
            } else if c == 'p' {
                lemma_loop_sound(input, pos, base);
            } else if c == 'r' {
                lemma_repeat_sound(input, pos, base);
            } else if c == 'f' {
                lemma_for_sound(input, pos, base);
            } else if c == 'd' {
                lemma_do_sound(input, pos, base);
            }
        },
        None => {},
    }
}

/// A block leaves the cursor within the input, at or behind the place where it began,
/// and takes no more than two labels for each character consumed. Where it went through,
/// the cursor stands at `e`, `l` or `u`.
pub proof fn lemma_block_bounded(input: Seq<char>, pos: int, base: nat, target: Seq<char>)
    requires
        0 <= pos <= input.len(),
    ensures
        block_step(input, pos, base, target).bounded(input, pos),
        block_step(input, pos, base, target).ok() ==> block_end_at(
            input,
            block_step(input, pos, base, target).pos,
        ),
    decreases input.len() - pos, 2int,
{
    if !block_end_at(input, pos) {
        let one = statement_step(input, pos, base, target);
        lemma_statement_sound(input, pos, base, target);
        if one.ok() {
            lemma_block_bounded(input, one.pos, base + one.fresh, target);
        }
    }
}

/// A program leaves the cursor within the input, at or behind the place where it began,
/// and takes no more than two labels for each character consumed.
pub proof fn lemma_program_bounded(input: Seq<char>, pos: int, base: nat)
    requires
        0 <= pos <= input.len(),
    ensures
        program_step(input, pos, base).bounded(input, pos),
{
    lemma_block_bounded(input, pos, base, Seq::empty());
}

} // verus!
