//! The order of the lines of each loop, whatever its block holds, and where a `break`
//! in the block leaves to.

use vstd::prelude::*;
use crate::code::Line;
use crate::error::Fault;
use crate::flow::{
    block_step, break_step, do_step, for_head_step, for_step, lemma_for_head_sound, loop_step,
    repeat_step, statement_step, while_step,
};
use crate::grammar::{expression_step, lemma_expression_sound};
use crate::label::{label_name, lemma_label_name_not_empty};
use crate::scan::{lemma_match_step, match_step, white_end};
use crate::step::{look_at, Step};

verus! {

/// A `break` in a loop is translated to one line, the jump to the exit of that loop. A
/// `break` outside every loop is a fault, and nothing is written for it.
pub proof fn lemma_break_jumps(input: Seq<char>, pos: int, target: Seq<char>)
    requires
        look_at(input, pos) == Some('b'),
    ensures
        target.len() > 0 ==> break_step(input, pos, target) == Step::emit(
            white_end(input, pos + 1),
            Line::Jump(target),
        ),
        target.len() == 0 ==> break_step(input, pos, target) == Step::fail(
            white_end(input, pos + 1),
            Fault::NoLoop,
        ),
        statement_step(input, pos, 0, target) == break_step(input, pos, target),
{
    let key = match_step(input, pos, 'b');
    if target.len() > 0 {
        assert(key.and_emit(Line::Jump(target)).code =~= seq![Line::Jump(target)]);
    } else {
        assert(key.and_fail(Fault::NoLoop).code =~= Seq::<Line>::empty());
    }
}

/// The block of every loop is translated with the second label of the loop, its exit,
/// as the place where a `break` leaves to: a `break` that begins the block of a loop
/// with the labels `base` and `base + 1` jumps to the label `base + 1`, whatever loop is
/// around that loop.
pub proof fn lemma_break_leaves_innermost(input: Seq<char>, pos: int, base: nat)
    requires
        look_at(input, pos) == Some('b'),
    ensures
        block_step(input, pos, base + 2, label_name(base + 1)).code.len() >= 1,
        block_step(input, pos, base + 2, label_name(base + 1)).code[0] == Line::Jump(
            label_name(base + 1),
        ),
{
    let exit = label_name(base + 1);
    lemma_label_name_not_empty(base + 1);
    lemma_break_jumps(input, pos, exit);
    lemma_match_step(input, pos, 'b');
    let one = statement_step(input, pos, base + 2, exit);
    assert(one == break_step(input, pos, exit));
    let whole = block_step(input, pos, base + 2, exit);
    assert(whole.code =~= one.code + block_step(input, one.pos, base + 2, exit).code);
}

/// A `while` is translated to the label of its top, the marker of the condition, the
/// jump to its exit where the condition is false, the lines of its block, the jump to
/// the top, and the label of the exit, in this order and whatever the block holds. The
/// block is translated with the exit as the place where a `break` leaves to. Where the
/// translation was stopped, the lines end where it was.
pub proof fn lemma_while_shape(input: Seq<char>, pos: int, base: nat)
    requires
        look_at(input, pos) == Some('w'),
    ensures
        ({
            let s = while_step(input, pos, base);
            let body = block_step(input, white_end(input, pos + 1), base + 2, label_name(base + 1));
            let head = seq![
                Line::Label(base),
                Line::Condition,
                Line::JumpIfFalse(label_name(base + 1)),
            ];
            let tail = seq![Line::Jump(label_name(base)), Line::Label(base + 1)];
            &&& s.fresh == 2 + body.fresh
            &&& s.ok() ==> body.ok() && s.code == head + body.code + tail
            &&& !s.ok() ==> s.code == head + body.code
        }),
{
    let s = while_step(input, pos, base);
    let body = block_step(input, white_end(input, pos + 1), base + 2, label_name(base + 1));
    let head = seq![Line::Label(base), Line::Condition, Line::JumpIfFalse(label_name(base + 1))];
    let tail = seq![Line::Jump(label_name(base)), Line::Label(base + 1)];
    if s.ok() {
        assert(s.code =~= head + body.code + tail);
    } else {
        assert(s.code =~= head + body.code);
    }
}

/// A `loop` is translated to the label of its top, the lines of its block, the jump to
/// the top, and the label of the exit, which the block is translated with.
pub proof fn lemma_loop_shape(input: Seq<char>, pos: int, base: nat)
    requires
        look_at(input, pos) == Some('p'),
    ensures
        ({
            let s = loop_step(input, pos, base);
            let body = block_step(input, white_end(input, pos + 1), base + 2, label_name(base + 1));
            let head = seq![Line::Label(base)];
            let tail = seq![Line::Jump(label_name(base)), Line::Label(base + 1)];
            &&& s.fresh == 2 + body.fresh
            &&& s.ok() ==> body.ok() && s.code == head + body.code + tail
            &&& !s.ok() ==> s.code == head + body.code
        }),
{
    let s = loop_step(input, pos, base);
    let body = block_step(input, white_end(input, pos + 1), base + 2, label_name(base + 1));
    let head = seq![Line::Label(base)];
    let tail = seq![Line::Jump(label_name(base)), Line::Label(base + 1)];
    if s.ok() {
        assert(s.code =~= head + body.code + tail);
    } else {
        assert(s.code =~= head + body.code);
    }
}

/// A `repeat` is translated to the label of its top, the lines of its block, the marker
/// of the condition, the jump to the top where the condition is false, and the label of
/// the exit, which the block is translated with.
pub proof fn lemma_repeat_shape(input: Seq<char>, pos: int, base: nat)
    requires
        look_at(input, pos) == Some('r'),
    ensures
        ({
            let s = repeat_step(input, pos, base);
            let body = block_step(input, white_end(input, pos + 1), base + 2, label_name(base + 1));
            let head = seq![Line::Label(base)];
            let tail = seq![
                Line::Condition,
                Line::JumpIfFalse(label_name(base)),
                Line::Label(base + 1),
            ];
            &&& s.fresh == 2 + body.fresh
            &&& s.ok() ==> body.ok() && s.code == head + body.code + tail
            &&& !s.ok() ==> s.code == head + body.code
        }),
{
    let s = repeat_step(input, pos, base);
    let body = block_step(input, white_end(input, pos + 1), base + 2, label_name(base + 1));
    let head = seq![Line::Label(base)];
    let tail = seq![Line::Condition, Line::JumpIfFalse(label_name(base)), Line::Label(base + 1)];
    if s.ok() {
        assert(s.code =~= head + body.code + tail);
    } else {
        assert(s.code =~= head + body.code);
    }
}

/// A `for` is translated to the lines of its head, the lines of its block, the jump to
/// the top, the label of the exit, which the block is translated with, and the drop of
/// the limit.
pub proof fn lemma_for_shape(input: Seq<char>, pos: int, base: nat)
    requires
        look_at(input, pos) == Some('f'),
    ensures
        ({
            let s = for_step(input, pos, base);
            let head = for_head_step(input, white_end(input, pos + 1), base);
            let body = block_step(input, head.pos, base + 2, label_name(base + 1));
            let tail = seq![Line::Jump(label_name(base)), Line::Label(base + 1), Line::Release];
            &&& s.ok() ==> head.ok() && body.ok() && s.fresh == 2 + body.fresh && s.code
                == head.code + body.code + tail
            &&& !head.ok() ==> s.code == head.code && s.fault == head.fault
        }),
{
    let s = for_step(input, pos, base);
    let head = for_head_step(input, white_end(input, pos + 1), base);
    let body = block_step(input, head.pos, base + 2, label_name(base + 1));
    let tail = seq![Line::Jump(label_name(base)), Line::Label(base + 1), Line::Release];
    lemma_match_step(input, pos, 'f');
    lemma_for_head_sound(input, white_end(input, pos + 1), base);
    if s.ok() {
        assert(s.code =~= head.code + body.code + tail);
    }
    if !head.ok() {
        assert(s.code =~= head.code);
    }
}

/// A `do` is translated to the lines of its count, the decrement, the label of its top,
/// the push of the count, the lines of its block, the pop of the count, the countdown
/// with its jump to the top, and the label of the exit, which the block is translated
/// with, between the two lines that keep the stack even for a `break`.
pub proof fn lemma_do_shape(input: Seq<char>, pos: int, base: nat)
    requires
        look_at(input, pos) == Some('d'),
    ensures
        ({
            let s = do_step(input, pos, base);
            let count = expression_step(input, white_end(input, pos + 1));
            let body = block_step(input, count.pos, base + 2, label_name(base + 1));
            let head = seq![Line::Decrement, Line::Label(base), Line::Push];
            let tail = seq![
                Line::PopCounter,
                Line::CountDown(label_name(base)),
                Line::Reserve,
                Line::Label(base + 1),
                Line::Release,
            ];
            &&& s.ok() ==> count.ok() && body.ok() && s.fresh == 2 + body.fresh && s.code
                == count.code + head + body.code + tail
            &&& !count.ok() ==> s.code == count.code && s.fault == count.fault
        }),
{
    let s = do_step(input, pos, base);
    let count = expression_step(input, white_end(input, pos + 1));
    let body = block_step(input, count.pos, base + 2, label_name(base + 1));
    let head = seq![Line::Decrement, Line::Label(base), Line::Push];
    let tail = seq![
        Line::PopCounter,
        Line::CountDown(label_name(base)),
        Line::Reserve,
        Line::Label(base + 1),
        Line::Release,
    ];
    lemma_match_step(input, pos, 'd');
    lemma_expression_sound(input, white_end(input, pos + 1));
    if s.ok() {
        assert(s.code =~= count.code + head + body.code + tail);
    }
    if !count.ok() {
        assert(s.code =~= count.code);
    }
}

} // verus!
