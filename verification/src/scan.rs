//! What the scanner and the token recognizers read from an input, as functions of the
//! input and a place in it.

use vstd::prelude::*;
use crate::chars::{in_class, is_alpha_char, is_digit_char, upper_char, Class};
use crate::error::Fault;
use crate::step::{look_at, Step};

verus! {

/// A token: its text, and the place of the first character behind it and the blanks
/// that follow it.
pub struct Token {
    pub text: Seq<char>,
    pub next: int,
}

/// The end of the longest run of characters of `class` that starts at `pos`.
pub open spec fn run_end(input: Seq<char>, pos: int, class: Class) -> int
    decreases input.len() - pos,
{
    if 0 <= pos < input.len() && in_class(input[pos], class) {
        run_end(input, pos + 1, class)
    } else {
        pos
    }
}

/// The first place from `pos` on that holds no blank.
pub open spec fn white_end(input: Seq<char>, pos: int) -> int {
    run_end(input, pos, Class::White)
}

/// `s` with every letter in upper case.
pub open spec fn upper_text(s: Seq<char>) -> Seq<char> {
    Seq::new(s.len(), |i: int| upper_char(s[i]))
}

/// The characters of the input that lie from `from` up to `to`.
pub open spec fn slice(input: Seq<char>, from: int, to: int) -> Seq<char> {
    input.subrange(from, to)
}

/// The identifier at `pos`: a letter and the letters and digits that follow it, in
/// upper case. None where `pos` holds no letter.
pub open spec fn name_at(input: Seq<char>, pos: int) -> Option<Token> {
    match look_at(input, pos) {
        Some(c) if is_alpha_char(c) => {
            let end = run_end(input, pos, Class::Alnum);
            Some(Token { text: upper_text(slice(input, pos, end)), next: white_end(input, end) })
        },
        _ => None,
    }
}

/// The number at `pos`: the digits from there on, as they stand. None where `pos` holds
/// no digit.
pub open spec fn number_at(input: Seq<char>, pos: int) -> Option<Token> {
    match look_at(input, pos) {
        Some(c) if is_digit_char(c) => {
            let end = run_end(input, pos, Class::Digit);
            Some(Token { text: slice(input, pos, end), next: white_end(input, end) })
        },
        _ => None,
    }
}

/// Reading the character `x` at `pos`: past it and the blanks behind it, or stopped in
/// front of anything else.
pub open spec fn match_step(input: Seq<char>, pos: int, x: char) -> Step {
    if look_at(input, pos) == Some(x) {
        Step::go(white_end(input, pos + 1))
    } else {
        Step::fail(pos, Fault::Expected(seq![x]))
    }
}

/// A run ends within the input, holds only characters of its class, and stops at the
/// end of the input or in front of a character of another class.
pub proof fn lemma_run_end(input: Seq<char>, pos: int, class: Class)
    requires
        0 <= pos <= input.len(),
    ensures
        pos <= run_end(input, pos, class) <= input.len(),
        forall|i: int| pos <= i < run_end(input, pos, class) ==> in_class(#[trigger] input[i], class),
        match look_at(input, run_end(input, pos, class)) {
            Some(c) => !in_class(c, class),
            None => true,
        },
        pos < input.len() && in_class(input[pos], class) ==> pos < run_end(input, pos, class),
    decreases input.len() - pos,
{
    if pos < input.len() && in_class(input[pos], class) {
        lemma_run_end(input, pos + 1, class);
    }
}

/// Skipping blanks twice reaches no further than skipping them once.
pub proof fn lemma_white_end_idempotent(input: Seq<char>, pos: int)
    requires
        0 <= pos <= input.len(),
    ensures
        white_end(input, white_end(input, pos)) == white_end(input, pos),
{
    lemma_run_end(input, pos, Class::White);
}

/// Reading a character moves the cursor forward within the input, or leaves it.
pub proof fn lemma_match_step(input: Seq<char>, pos: int, x: char)
    requires
        0 <= pos <= input.len(),
    ensures
        match_step(input, pos, x).ok() ==> pos < match_step(input, pos, x).pos <= input.len(),
        !match_step(input, pos, x).ok() ==> match_step(input, pos, x).pos == pos,
        match_step(input, pos, x).code.len() == 0,
        match_step(input, pos, x).fresh == 0,
{
    if look_at(input, pos) == Some(x) {
        lemma_run_end(input, pos + 1, Class::White);
    }
}

/// An identifier is not empty, holds letters and digits only, none of them in lower
/// case, and what follows it lies further on within the input.
pub proof fn lemma_name_at(input: Seq<char>, pos: int)
    requires
        0 <= pos <= input.len(),
    ensures
        match name_at(input, pos) {
            Some(t) => {
                &&& pos < t.next <= input.len()
                &&& t.text.len() >= 1
                &&& is_alpha_char(t.text[0])
                &&& forall|i: int|
                    0 <= i < t.text.len() ==> {
                        let c = #[trigger] t.text[i];
                        (is_alpha_char(c) || is_digit_char(c)) && !('a' <= c <= 'z')
                    }
            },
            None => true,
        },
{
    if let Some(t) = name_at(input, pos) {
        let end = run_end(input, pos, Class::Alnum);
        lemma_run_end(input, pos, Class::Alnum);
        lemma_run_end(input, end, Class::White);
        assert forall|i: int| 0 <= i < t.text.len() implies {
            let c = #[trigger] t.text[i];
            (is_alpha_char(c) || is_digit_char(c)) && !('a' <= c <= 'z')
        } by {
            assert(in_class(input[pos + i], Class::Alnum));
        }
    }
}

/// A number is not empty, holds digits only, and what follows it lies further on
/// within the input.
pub proof fn lemma_number_at(input: Seq<char>, pos: int)
    requires
        0 <= pos <= input.len(),
    ensures
        match number_at(input, pos) {
            Some(t) => {
                &&& pos < t.next <= input.len()
                &&& t.text.len() >= 1
                &&& forall|i: int| 0 <= i < t.text.len() ==> is_digit_char(#[trigger] t.text[i])
            },
            None => true,
        },
{
    if let Some(t) = number_at(input, pos) {
        let end = run_end(input, pos, Class::Digit);
        lemma_run_end(input, pos, Class::Digit);
        lemma_run_end(input, end, Class::White);
        assert forall|i: int| 0 <= i < t.text.len() implies is_digit_char(#[trigger] t.text[i]) by {
            assert(in_class(input[pos + i], Class::Digit));
        }
    }
}

} // verus!
