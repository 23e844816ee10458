//! Names of branch targets: the letter `L` followed by a number in decimal.

use vstd::prelude::*;
use vstd::string::StringExecFns;
use crate::text::{char_text, push_char};

verus! {

/// The character that writes the digit `d`.
pub open spec fn digit_char(d: nat) -> char
    recommends
        d < 10,
{
    (48 + d) as char
}

/// The decimal numeral of `n`, without leading zeros.
pub open spec fn decimal(n: nat) -> Seq<char>
    decreases n,
{
    if n < 10 {
        seq![digit_char(n)]
    } else {
        decimal(n / 10).push(digit_char(n % 10))
    }
}

/// The name of the label with number `n`.
pub open spec fn label_name(n: nat) -> Seq<char> {
    seq!['L'] + decimal(n)
}

/// A numeral has at least one digit, and two or more from ten on.
pub proof fn lemma_decimal_len(n: nat)
    ensures
        decimal(n).len() >= 1,
        n >= 10 ==> decimal(n).len() >= 2,
    decreases n,
{
    if n >= 10 {
        lemma_decimal_len(n / 10);
    }
}

/// Different numbers have different numerals.
pub proof fn lemma_decimal_injective(a: nat, b: nat)
    requires
        decimal(a) == decimal(b),
    ensures
        a == b,
    decreases a,
{
    lemma_decimal_len(a);
    lemma_decimal_len(b);
    if a < 10 && b < 10 {
        assert(decimal(a)[0] == digit_char(a));
        assert(decimal(b)[0] == digit_char(b));
        assert(digit_char(a) as int == 48 + a);
        assert(digit_char(b) as int == 48 + b);
    } else if a < 10 || b < 10 {
        assert(decimal(a).len() == decimal(b).len());
    } else {
        assert(decimal(a).last() == digit_char(a % 10));
        assert(decimal(b).last() == digit_char(b % 10));
        assert(digit_char(a % 10) as int == 48 + a % 10);
        assert(digit_char(b % 10) as int == 48 + b % 10);
        assert(decimal(a / 10) =~= decimal(a).drop_last());
        assert(decimal(b / 10) =~= decimal(b).drop_last());
        lemma_decimal_injective(a / 10, b / 10);
    }
}

/// Different numbers give labels of different names.
pub proof fn lemma_label_name_injective(a: nat, b: nat)
    requires
        label_name(a) == label_name(b),
    ensures
        a == b,
{
    assert(decimal(a) =~= label_name(a).subrange(1, label_name(a).len() as int));
    assert(decimal(b) =~= label_name(b).subrange(1, label_name(b).len() as int));
    lemma_decimal_injective(a, b);
}

/// A label's name is never empty, so it is never taken for a missing break target.
pub proof fn lemma_label_name_not_empty(n: nat)
    ensures
        label_name(n).len() >= 2,
        label_name(n)[0] == 'L',
{
    lemma_decimal_len(n);
}

fn digit(d: usize) -> (c: char)
    requires
        d < 10,
    ensures
        c == digit_char(d as nat),
{
    let b: u8 = 48 + (d as u8);
    b as char
}

/// The decimal numeral of `n` as text.
pub fn decimal_text(n: usize) -> (r: String)
    ensures
        r@ == decimal(n as nat),
    decreases n,
{
    if n < 10 {
        char_text(digit(n))
    } else {
        let mut r = decimal_text(n / 10);
        push_char(&mut r, digit(n % 10));
        r
    }
}

/// The name of the label with number `n` as text.
pub fn label_text(n: usize) -> (r: String)
    ensures
        r@ == label_name(n as nat),
{
    let mut r = char_text('L');
    let digits = decimal_text(n);
    r.append(digits.as_str());
    r
}

} // verus!
