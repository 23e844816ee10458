//! The session of one translation: the scanner, the token recognizers, the emitter and
//! the translator of expressions.

use vstd::prelude::*;
use vstd::string::StringExecFns;
use crate::chars::{
    is_addop_char, is_alnum, is_alpha, is_digit, is_mulop_char, is_white, is_white_char,
    to_upper, Class, NEW_LINE, TAB,
};
use crate::code::{indented, instruction_line, lemma_render_one, render, Line};
use crate::error::{expected, reports, Fault, TranslateError};
use crate::grammar::{
    addops_step, assignment_step, expression_step, factor_step, ident_step, lemma_factor_sound,
    lemma_round, lemma_term_sound, mulops_step, operation_step, pushed_step, store_step,
    term_step, Ops,
};
use crate::scan::{
    lemma_match_step, match_step, name_at, number_at, run_end, slice, upper_text, white_end,
};
use crate::source::{chars_of, Source};
use crate::step::{
    lemma_after_both, lemma_after_nothing, lemma_after_pair, lemma_chain_stay, State, Step,
};
use crate::text::{char_text, join3, push_char};

verus! {

/// One translation in progress: the input with a cursor at the lookahead character, the
/// counter that numbers labels, and the text written so far.
pub struct Cradle {
    /// The input and the cursor, which stands at the lookahead character.
    pub input: Source,
    /// The number of the next label.
    pub lcount: usize,
    /// The text written so far.
    pub output: String,
}

impl View for Cradle {
    type V = State;

    open spec fn view(&self) -> State {
        State {
            input: self.input.text(),
            pos: self.input.cursor(),
            labels: self.lcount as nat,
            output: self.output@,
        }
    }
}

impl Cradle {
    /// Starts a translation of `input`: the cursor stands at the first character that is
    /// no blank, no label is taken and nothing is written.
    pub fn new(input: &[u8]) -> (r: Self)
        ensures
            r@ == (State {
                input: chars_of(input@),
                pos: white_end(chars_of(input@), 0),
                labels: 0,
                output: Seq::empty(),
            }),
    {
        let mut r = Cradle { input: Source::new(input), lcount: 0, output: String::new() };
        r.skip_white();
        r
    }

    /// The lookahead character: the next one that is not consumed. None once the input
    /// is used up.
    pub fn look(&self) -> (r: Option<char>)
        ensures
            r == self@.look(),
    {
        self.input.peek()
    }

    /// Consumes the lookahead character and returns it; the one behind it becomes the
    /// lookahead. Fails once the input is used up, and changes nothing then.
    pub fn get_char(&mut self) -> (r: Result<char, TranslateError>)
        ensures
            match old(self)@.look() {
                Some(c) => r == Ok::<char, TranslateError>(c) && final(self)@ == old(self)@.at(
                    old(self)@.pos + 1,
                ),
                None => reports(r, Some(Fault::End)) && final(self)@ == old(self)@,
            },
    {
        match self.input.advance() {
            Some(c) => Ok(c),
            None => Err(TranslateError::PrematureEnd),
        }
    }

    /// Skips the blanks from the lookahead on. On a lookahead that is no blank it does
    /// nothing.
    pub fn skip_white(&mut self)
        ensures
            final(self)@ == old(self)@.at(white_end(old(self)@.input, old(self)@.pos)),
    {
        proof {
            use_type_invariant(&self.input);
        }
        while self.is_white()
            invariant
                self@.wf(),
                self@ == old(self)@.at(self@.pos),
                white_end(self@.input, self@.pos) == white_end(old(self)@.input, old(self)@.pos),
            decreases self@.input.len() - self@.pos,
        {
            self.input.advance();
        }
    }

    /// Whether the lookahead character is a tab or a space.
    pub fn is_white(&self) -> (r: bool)
        ensures
            r == match self@.look() {
                Some(c) => is_white_char(c),
                None => false,
            },
    {
        match self.look() {
            Some(c) => is_white(c),
            None => false,
        }
    }

    /// Reads the character `x`: where it is the lookahead, consumes it and the blanks
    /// behind it; anywhere else fails with `x` as what was expected, and consumes nothing.
    pub fn match_char(&mut self, x: char) -> (r: Result<(), TranslateError>)
        ensures
            final(self)@ == old(self)@.after(match_step(old(self)@.input, old(self)@.pos, x)),
            reports(r, match_step(old(self)@.input, old(self)@.pos, x).fault),
    {
        proof {
            assert(old(self)@.output + render(Seq::empty()) =~= old(self)@.output);
        }
        if self.look() == Some(x) {
            self.input.advance();
            self.skip_white();
            Ok(())
        } else {
            Err(TranslateError::UnexpectedToken(char_text(x)))
        }
    }

    /// Reads an identifier: a letter and the letters and digits behind it, which it
    /// returns in upper case, and the blanks that follow. Where the lookahead is no letter
    /// it fails with "Name" as what was expected, and consumes nothing.
    pub fn get_name(&mut self) -> (r: Result<String, TranslateError>)
        ensures
            match name_at(old(self)@.input, old(self)@.pos) {
                Some(t) => r is Ok && r->Ok_0@ == t.text && final(self)@ == old(self)@.at(t.next),
                None => reports(r, Some(Fault::Expected("Name"@))) && final(self)@ == old(self)@,
            },
    {
        let starts = match self.look() {
            Some(c) => is_alpha(c),
            None => false,
        };
        if !starts {
            return Err(expected("Name"));
        }
        let token = self.take_run(Class::Alnum, true);
        self.skip_white();
        Ok(token)
    }

    /// Reads a number: the digits from the lookahead on, which it returns as they stand,
    /// and the blanks that follow. Where the lookahead is no digit it fails with
    /// "Integer" as what was expected, and consumes nothing.
    pub fn get_num(&mut self) -> (r: Result<String, TranslateError>)
        ensures
            match number_at(old(self)@.input, old(self)@.pos) {
                Some(t) => r is Ok && r->Ok_0@ == t.text && final(self)@ == old(self)@.at(t.next),
                None => reports(r, Some(Fault::Expected("Integer"@))) && final(self)@ == old(
                    self,
                )@,
            },
    {
        let starts = match self.look() {
            Some(c) => is_digit(c),
            None => false,
        };
        if !starts {
            return Err(expected("Integer"));
        }
        let value = self.take_run(Class::Digit, false);
        self.skip_white();
        Ok(value)
    }

    /// Consumes the longest run of characters of `class` from the lookahead on and
    /// returns it, in upper case where `upper` says so.
    fn take_run(&mut self, class: Class, upper: bool) -> (r: String)
        ensures
            final(self)@ == old(self)@.at(run_end(old(self)@.input, old(self)@.pos, class)),
            r@ == if upper {
                upper_text(
                    slice(
                        old(self)@.input,
                        old(self)@.pos,
                        run_end(old(self)@.input, old(self)@.pos, class),
                    ),
                )
            } else {
                slice(
                    old(self)@.input,
                    old(self)@.pos,
                    run_end(old(self)@.input, old(self)@.pos, class),
                )
            },
    {
        proof {
            use_type_invariant(&self.input);
        }
        let mut token = String::new();
        loop
            invariant
                self@.wf(),
                self@ == old(self)@.at(self@.pos),
                0 <= old(self)@.pos <= self@.pos,
                run_end(self@.input, self@.pos, class) == run_end(
                    old(self)@.input,
                    old(self)@.pos,
                    class,
                ),
                token@ == if upper {
                    upper_text(slice(self@.input, old(self)@.pos, self@.pos))
                } else {
                    slice(self@.input, old(self)@.pos, self@.pos)
                },
            ensures
                self@ == old(self)@.at(run_end(old(self)@.input, old(self)@.pos, class)),
                token@ == if upper {
                    upper_text(slice(self@.input, old(self)@.pos, self@.pos))
                } else {
                    slice(self@.input, old(self)@.pos, self@.pos)
                },
            decreases self@.input.len() - self@.pos,
        {
            let c = match self.look() {
                Some(c) => c,
                None => { break ; },
            };
            let inside = match class {
                Class::White => is_white(c),
                Class::Digit => is_digit(c),
                Class::Alnum => is_alnum(c),
            };
            if !inside {
                break ;
            }
            let ghost before = self@.pos;
            push_char(&mut token, if upper { to_upper(c) } else { c });
            self.input.advance();
            proof {
                let from = old(self)@.pos;
                assert(slice(self@.input, from, before + 1) =~= slice(self@.input, from, before).push(
                    self@.input[before],
                ));
                assert(upper_text(slice(self@.input, from, before + 1)) =~= upper_text(
                    slice(self@.input, from, before),
                ).push(crate::chars::upper_char(self@.input[before])));
            }
        }
        token
    }

    /// Whether the lookahead character is `*` or `/`.
    pub fn is_mulop(&self) -> (r: bool)
        ensures
            r == match self@.look() {
                Some(c) => is_mulop_char(c),
                None => false,
            },
    {
        match self.look() {
            Some(c) => c == '*' || c == '/',
            None => false,
        }
    }

    /// Whether the lookahead character is `+` or `-`.
    pub fn is_addop(&self) -> (r: bool)
        ensures
            r == match self@.look() {
                Some(c) => is_addop_char(c),
                None => false,
            },
    {
        match self.look() {
            Some(c) => c == '+' || c == '-',
            None => false,
        }
    }

    /// Writes `s` after one tab, without a line break.
    pub fn emit(&mut self, s: &str)
        ensures
            final(self)@ == old(self)@.wrote(indented(s@)),
    {
        push_char(&mut self.output, TAB);
        self.output.append(s);
        assert(self@.output =~= old(self)@.output + indented(s@));
    }

    /// Writes `s` after one tab and ends the line.
    pub fn emitln(&mut self, s: &str)
        ensures
            final(self)@ == old(self)@.wrote(instruction_line(s@)),
    {
        self.emit(s);
        push_char(&mut self.output, NEW_LINE);
        assert(self@.output =~= old(self)@.output + instruction_line(s@));
    }

    /// Writes the instruction `line`, of which `text` is the text.
    pub(crate) fn put(&mut self, text: &str, Ghost(line): Ghost<Line>)
        requires
            !(line is Label),
            text@ == line.text(),
        ensures
            final(self)@ == old(self)@.after(Step::emit(old(self)@.pos, line)),
    {
        self.emitln(text);
        proof {
            lemma_render_one(line);
        }
    }

    /// Writes the instruction `line`, of which `head`, `body` and `tail` in a row are
    /// the text.
    pub(crate) fn put3(&mut self, head: &str, body: &str, tail: &str, Ghost(line): Ghost<Line>)
        requires
            !(line is Label),
            head@ + body@ + tail@ == line.text(),
        ensures
            final(self)@ == old(self)@.after(Step::emit(old(self)@.pos, line)),
    {
        let text = join3(head, body, tail);
        self.put(text.as_str(), Ghost(line));
    }

    /// Translates an identifier: a call of the subroutine of that name where `(` and `)`
    /// follow it, a load of the variable of that name anywhere else.
    pub fn ident(&mut self) -> (r: Result<(), TranslateError>)
        ensures
            final(self)@ == old(self)@.after(ident_step(old(self)@.input, old(self)@.pos)),
            reports(r, ident_step(old(self)@.input, old(self)@.pos).fault),
    {
        let ghost s0 = self@;
        proof {
            use_type_invariant(&self.input);
            lemma_after_nothing(s0);
        }
        let name = match self.get_name() {
            Ok(name) => name,
            Err(e) => { return Err(e); },
        };
        let ghost t = name_at(s0.input, s0.pos)->Some_0;
        if self.look() == Some('(') {
            let ghost open = match_step(s0.input, t.next, '(');
            let ghost close = match_step(s0.input, open.pos, ')');
            proof {
                lemma_after_nothing(s0.at(t.next));
                lemma_after_both(s0.at(t.next), open, close);
                lemma_after_both(
                    s0.at(t.next),
                    open.and_then(close),
                    Step::emit(close.pos, Line::Call(t.text)),
                );
            }
            if let Err(e) = self.match_char('(') {
                return Err(e);
            }
            if let Err(e) = self.match_char(')') {
                return Err(e);
            }
            self.put2("BSR ", name.as_str(), Ghost(Line::Call(t.text)));
        } else {
            self.put3("MOVE ", name.as_str(), "(PC),D0", Ghost(Line::LoadVar(t.text)));
        }
        Ok(())
    }

    /// Translates a factor: an expression in parentheses, an identifier, or else a
    /// number, which is loaded into the accumulator.
    pub fn factor(&mut self) -> (r: Result<(), TranslateError>)
        ensures
            final(self)@ == old(self)@.after(factor_step(old(self)@.input, old(self)@.pos)),
            reports(r, factor_step(old(self)@.input, old(self)@.pos).fault),
        decreases old(self)@.input.len() - old(self)@.pos, 0int,
    {
        let ghost s0 = self@;
        proof {
            use_type_invariant(&self.input);
            lemma_after_nothing(s0);
        }
        let look = self.look();
        let letter = match look {
            Some(c) => is_alpha(c),
            None => false,
        };
        if look == Some('(') {
            let ghost open = match_step(s0.input, s0.pos, '(');
            let ghost inner = expression_step(s0.input, open.pos);
            let ghost close = match_step(s0.input, inner.pos, ')');
            proof {
                lemma_match_step(s0.input, s0.pos, '(');
                lemma_after_both(s0, open, inner);
                lemma_after_both(s0, open.and_then(inner), close);
            }
            if let Err(e) = self.match_char('(') {
                return Err(e);
            }
            if let Err(e) = self.expression() {
                return Err(e);
            }
            self.match_char(')')
        } else if letter {
            self.ident()
        } else {
            let num = match self.get_num() {
                Ok(num) => num,
                Err(e) => { return Err(e); },
            };
            self.put3("MOVE #", num.as_str(), ",D0", Ghost(Line::LoadConst(num@)));
            Ok(())
        }
    }

    /// Translates `*` and the factor behind it, and multiplies the accumulator by the
    /// operand that was pushed.
    pub fn multiply(&mut self) -> (r: Result<(), TranslateError>)
        ensures
            final(self)@ == old(self)@.after(
                operation_step(old(self)@.input, old(self)@.pos, Ops::Mul),
            ),
            reports(r, operation_step(old(self)@.input, old(self)@.pos, Ops::Mul).fault),
        decreases old(self)@.input.len() - old(self)@.pos, 0int,
    {
        let ghost s0 = self@;
        let ghost sign = match_step(s0.input, s0.pos, '*');
        let ghost operand = factor_step(s0.input, sign.pos);
        proof {
            use_type_invariant(&self.input);
            lemma_match_step(s0.input, s0.pos, '*');
            lemma_after_both(s0, sign, operand);
            lemma_after_both(s0, sign.and_then(operand), Step::emit(operand.pos, Line::PopMul));
        }
        if let Err(e) = self.match_char('*') {
            return Err(e);
        }
        if let Err(e) = self.factor() {
            return Err(e);
        }
        self.put("MULS (SP)+,D0", Ghost(Line::PopMul));
        Ok(())
    }

    /// Translates `/` and the factor behind it, and divides the operand that was pushed
    /// by the accumulator.
    pub fn divide(&mut self) -> (r: Result<(), TranslateError>)
        ensures
            final(self)@ == old(self)@.after(
                operation_step(old(self)@.input, old(self)@.pos, Ops::Div),
            ),
            reports(r, operation_step(old(self)@.input, old(self)@.pos, Ops::Div).fault),
        decreases old(self)@.input.len() - old(self)@.pos, 0int,
    {
        let ghost s0 = self@;
        let ghost sign = match_step(s0.input, s0.pos, '/');
        let ghost operand = factor_step(s0.input, sign.pos);
        proof {
            use_type_invariant(&self.input);
            lemma_match_step(s0.input, s0.pos, '/');
            lemma_after_both(s0, sign, operand);
            lemma_after_pair(s0, sign.and_then(operand), Line::PopDivisor, Line::Divide);
        }
        if let Err(e) = self.match_char('/') {
            return Err(e);
        }
        if let Err(e) = self.factor() {
            return Err(e);
        }
        self.put("MOVE (SP)+,D1", Ghost(Line::PopDivisor));
        self.put("DIVS D1,D0", Ghost(Line::Divide));
        Ok(())
    }

    /// Translates `+` and the term behind it, and adds the operand that was pushed to the
    /// accumulator.
    pub fn add(&mut self) -> (r: Result<(), TranslateError>)
        ensures
            final(self)@ == old(self)@.after(
                operation_step(old(self)@.input, old(self)@.pos, Ops::Add),
            ),
            reports(r, operation_step(old(self)@.input, old(self)@.pos, Ops::Add).fault),
        decreases old(self)@.input.len() - old(self)@.pos, 0int,
    {
        let ghost s0 = self@;
        let ghost sign = match_step(s0.input, s0.pos, '+');
        let ghost operand = term_step(s0.input, sign.pos);
        proof {
            use_type_invariant(&self.input);
            lemma_match_step(s0.input, s0.pos, '+');
            lemma_after_both(s0, sign, operand);
            lemma_after_both(s0, sign.and_then(operand), Step::emit(operand.pos, Line::PopAdd));
        }
        if let Err(e) = self.match_char('+') {
            return Err(e);
        }
        if let Err(e) = self.term() {
            return Err(e);
        }
        self.put("ADD (SP)+,D0", Ghost(Line::PopAdd));
        Ok(())
    }

    /// Translates `-` and the term behind it, and subtracts the accumulator from the
    /// operand that was pushed.
    pub fn subtract(&mut self) -> (r: Result<(), TranslateError>)
        ensures
            final(self)@ == old(self)@.after(
                operation_step(old(self)@.input, old(self)@.pos, Ops::Sub),
            ),
            reports(r, operation_step(old(self)@.input, old(self)@.pos, Ops::Sub).fault),
        decreases old(self)@.input.len() - old(self)@.pos, 0int,
    {
        let ghost s0 = self@;
        let ghost sign = match_step(s0.input, s0.pos, '-');
        let ghost operand = term_step(s0.input, sign.pos);
        proof {
            use_type_invariant(&self.input);
            lemma_match_step(s0.input, s0.pos, '-');
            lemma_after_both(s0, sign, operand);
            lemma_after_pair(s0, sign.and_then(operand), Line::PopSub, Line::Negate);
        }
        if let Err(e) = self.match_char('-') {
            return Err(e);
        }
        if let Err(e) = self.term() {
            return Err(e);
        }
        self.put("SUB (SP)+,D0", Ghost(Line::PopSub));
        self.put("NEG D0", Ghost(Line::Negate));
        Ok(())
    }

    /// Translates a term: a factor, and behind it every `*` or `/` with its factor. In
    /// front of each operator the accumulator is pushed.
    pub fn term(&mut self) -> (r: Result<(), TranslateError>)
        ensures
            final(self)@ == old(self)@.after(term_step(old(self)@.input, old(self)@.pos)),
            reports(r, term_step(old(self)@.input, old(self)@.pos).fault),
        decreases old(self)@.input.len() - old(self)@.pos, 2int,
    {
        let ghost s0 = self@;
        let ghost mut acc = factor_step(s0.input, s0.pos);
        proof {
            use_type_invariant(&self.input);
            lemma_factor_sound(s0.input, s0.pos);
        }
        if let Err(e) = self.factor() {
            return Err(e);
        }
        while self.is_mulop()
            invariant
                s0 == old(self)@,
                0 <= s0.pos <= self@.pos <= s0.input.len(),
                acc.ok(),
                self@ == s0.after(acc),
                term_step(s0.input, s0.pos) == acc.and_then(mulops_step(s0.input, self@.pos)),
            decreases s0.input.len() - self@.pos,
        {
            let ghost one = pushed_step(s0.input, self@.pos);
            proof {
                lemma_round(s0, acc);
            }
            self.put("MOVE D0,-(SP)", Ghost(Line::Push));
            let r = match self.look() {
                Some(c) => match Ops::from(c) {
                    Ops::Mul => self.multiply(),
                    Ops::Div => self.divide(),
                    _ => Err(expected("Mulop")),
                },
                None => Err(expected("Mulop")),
            };
            if r.is_err() {
                return r;
            }
            proof {
                acc = acc.and_then(one);
            }
        }
        proof {
            lemma_chain_stay(acc);
        }
        Ok(())
    }

    /// Translates an expression: a term, and behind it every `+` or `-` with its term.
    /// In front of each operator the accumulator is pushed. In front of a leading sign
    /// the accumulator is cleared in place of a first term.
    pub fn expression(&mut self) -> (r: Result<(), TranslateError>)
        ensures
            final(self)@ == old(self)@.after(expression_step(old(self)@.input, old(self)@.pos)),
            reports(r, expression_step(old(self)@.input, old(self)@.pos).fault),
        decreases old(self)@.input.len() - old(self)@.pos, 4int,
    {
        let ghost s0 = self@;
        let ghost mut acc;
        proof {
            use_type_invariant(&self.input);
            lemma_term_sound(s0.input, s0.pos);
        }
        if self.is_addop() {
            self.put("CLR D0", Ghost(Line::Clear));
            proof {
                acc = Step::emit(s0.pos, Line::Clear);
            }
        } else {
            if let Err(e) = self.term() {
                return Err(e);
            }
            proof {
                acc = term_step(s0.input, s0.pos);
            }
        }
        while self.is_addop()
            invariant
                s0 == old(self)@,
                0 <= s0.pos <= self@.pos <= s0.input.len(),
                acc.ok(),
                self@ == s0.after(acc),
                expression_step(s0.input, s0.pos) == acc.and_then(
                    addops_step(s0.input, self@.pos),
                ),
            decreases s0.input.len() - self@.pos,
        {
            let ghost one = pushed_step(s0.input, self@.pos);
            proof {
                lemma_round(s0, acc);
            }
            self.put("MOVE D0,-(SP)", Ghost(Line::Push));
            let r = match self.look() {
                Some(c) => match Ops::from(c) {
                    Ops::Add => self.add(),
                    Ops::Sub => self.subtract(),
                    _ => Err(expected("Addop")),
                },
                None => Err(expected("Addop")),
            };
            if r.is_err() {
                return r;
            }
            proof {
                acc = acc.and_then(one);
            }
        }
        proof {
            lemma_chain_stay(acc);
        }
        Ok(())
    }

    /// Translates what follows the name `name` in an assignment: `=` and an expression,
    /// whose value is stored under the name.
    pub(crate) fn store(&mut self, name: &str) -> (r: Result<(), TranslateError>)
        ensures
            final(self)@ == old(self)@.after(
                store_step(old(self)@.input, old(self)@.pos, name@),
            ),
            reports(r, store_step(old(self)@.input, old(self)@.pos, name@).fault),
    {
        let ghost s0 = self@;
        let ghost eq = match_step(s0.input, s0.pos, '=');
        let ghost value = expression_step(s0.input, eq.pos);
        proof {
            lemma_after_both(s0, eq, value);
            lemma_after_pair(s0, eq.and_then(value), Line::Address(name@), Line::Store);
        }
        if let Err(e) = self.match_char('=') {
            return Err(e);
        }
        if let Err(e) = self.expression() {
            return Err(e);
        }
        self.put3("LEA ", name, "(PC),A0", Ghost(Line::Address(name@)));
        self.put("MOVE D0,(A0)", Ghost(Line::Store));
        Ok(())
    }

    /// Translates an assignment: a name, `=` and an expression, whose value is stored
    /// under the name.
    pub fn assignment(&mut self) -> (r: Result<(), TranslateError>)
        ensures
            final(self)@ == old(self)@.after(assignment_step(old(self)@.input, old(self)@.pos)),
            reports(r, assignment_step(old(self)@.input, old(self)@.pos).fault),
    {
        let ghost s0 = self@;
        proof {
            lemma_after_nothing(s0);
        }
        let name = match self.get_name() {
            Ok(name) => name,
            Err(e) => { return Err(e); },
        };
        proof {
            let t = name_at(s0.input, s0.pos)->Some_0;
            lemma_after_both(s0, Step::go(t.next), store_step(s0.input, t.next, t.text));
        }
        self.store(name.as_str())
    }

    /// Writes the instruction `line`, of which `head` and `body` in a row are the text.
    pub(crate) fn put2(&mut self, head: &str, body: &str, Ghost(line): Ghost<Line>)
        requires
            !(line is Label),
            head@ + body@ == line.text(),
        ensures
            final(self)@ == old(self)@.after(Step::emit(old(self)@.pos, line)),
    {
        proof {
            reveal_strlit("");
            assert(head@ + body@ + ""@ =~= head@ + body@);
        }
        self.put3(head, body, "", Ghost(line));
    }
}

} // verus!
