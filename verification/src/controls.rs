//! The translator of statements: blocks, the constructs that steer control, and the
//! labels that they jump to.

use vstd::prelude::*;
use vstd::string::StringExecFns;
use crate::code::{label_line, lemma_render_one, Line};
use crate::cradle::Cradle;
use crate::error::{expected, reports, Fault, TranslateError};
use crate::flow::{
    block_end_at, block_step, break_step, condition_step, do_step, for_head_step, for_step,
    if_step, lemma_block_bounded, lemma_for_head_sound, lemma_statement_sound, loop_step,
    other_step, program_step, repeat_step, simple_step, statement_step, while_step,
};
use crate::grammar::{expression_step, lemma_expression_sound};
use crate::label::{label_name, label_text};
use crate::scan::{lemma_match_step, lemma_name_at, match_step, name_at};
use crate::step::{
    lemma_after_both, lemma_after_emit, lemma_after_nothing, lemma_after_take,
    lemma_chain_assoc, lemma_chain_stay, Step,
};

verus! {

impl Cradle {
    /// Whether the counter can number the labels of whatever is left of the input: two
    /// for each character. The translators of statements ask for it.
    pub fn has_label_room(&self) -> (r: bool)
        ensures
            r == self@.label_room(),
    {
        proof {
            use_type_invariant(&self.input);
        }
        self.input.remaining() <= (usize::MAX - self.lcount) / 2
    }

    /// Hands out the next label: `L` and the number of the labels handed out before it.
    pub fn new_label(&mut self) -> (r: String)
        requires
            old(self)@.labels < usize::MAX,
        ensures
            r@ == label_name(old(self)@.labels),
            final(self)@ == old(self)@.after(Step::take(old(self)@.pos, 1)),
    {
        proof {
            lemma_after_nothing(self@);
        }
        let label = label_text(self.lcount);
        self.lcount += 1;
        label
    }

    /// Writes the definition of `label`: the name at the margin, a colon, and the end of
    /// the line.
    pub fn post_label(&mut self, label: &str)
        ensures
            final(self)@ == old(self)@.wrote(label_line(label@)),
    {
        self.output.append(label);
        self.output.append(":\n");
        proof {
            reveal_strlit(":\n");
            assert(":\n"@ =~= seq![':', '\n']);
            assert(self@.output =~= old(self)@.output + label_line(label@));
        }
    }

    /// Places the label with number `n`, of which `label` is the name.
    fn place(&mut self, label: &str, Ghost(n): Ghost<nat>)
        requires
            label@ == label_name(n),
        ensures
            final(self)@ == old(self)@.after(Step::emit(old(self)@.pos, Line::Label(n))),
    {
        self.post_label(label);
        proof {
            lemma_render_one(Line::Label(n));
        }
    }

    /// Translates a condition. A marker stands for it, and nothing is consumed.
    pub fn condition(&mut self)
        ensures
            final(self)@ == old(self)@.after(condition_step(old(self)@.pos)),
    {
        self.put("<condition>", Ghost(Line::Condition));
    }

    /// Translates a name that stands alone as a statement: the name is written as it is.
    pub fn other(&mut self) -> (r: Result<(), TranslateError>)
        ensures
            final(self)@ == old(self)@.after(other_step(old(self)@.input, old(self)@.pos)),
            reports(r, other_step(old(self)@.input, old(self)@.pos).fault),
    {
        let ghost s0 = self@;
        proof {
            lemma_after_nothing(s0);
        }
        let name = match self.get_name() {
            Ok(name) => name,
            Err(e) => { return Err(e); },
        };
        proof {
            let t = name_at(s0.input, s0.pos)->Some_0;
            lemma_after_both(s0, Step::go(t.next), Step::emit(t.next, Line::Bare(t.text)));
            assert(Step::go(t.next).and_then(Step::emit(t.next, Line::Bare(t.text))).code
                =~= seq![Line::Bare(t.text)]);
        }
        self.put(name.as_str(), Ghost(Line::Bare(name@)));
        Ok(())
    }

    /// Translates a statement that begins with a name: an assignment where `=` follows
    /// the name, and else the name alone.
    fn simple(&mut self) -> (r: Result<(), TranslateError>)
        ensures
            final(self)@ == old(self)@.after(simple_step(old(self)@.input, old(self)@.pos)),
            reports(r, simple_step(old(self)@.input, old(self)@.pos).fault),
    {
        let ghost s0 = self@;
        proof {
            lemma_after_nothing(s0);
        }
        let name = match self.get_name() {
            Ok(name) => name,
            Err(e) => { return Err(e); },
        };
        proof {
            let t = name_at(s0.input, s0.pos)->Some_0;
            lemma_after_both(s0, Step::go(t.next), Step::emit(t.next, Line::Bare(t.text)));
            assert(Step::go(t.next).and_then(Step::emit(t.next, Line::Bare(t.text))).code
                =~= seq![Line::Bare(t.text)]);
        }
        if self.look() == Some('=') {
            self.store(name.as_str())
        } else {
            self.put(name.as_str(), Ghost(Line::Bare(name@)));
            Ok(())
        }
    }

    /// Translates a `break`: a jump to `label`, the exit of the innermost loop around it.
    /// The empty `label` says that no loop is around it, which is a fault.
    pub fn do_break(&mut self, label: &str) -> (r: Result<(), TranslateError>)
        ensures
            final(self)@ == old(self)@.after(
                break_step(old(self)@.input, old(self)@.pos, label@),
            ),
            reports(r, break_step(old(self)@.input, old(self)@.pos, label@).fault),
    {
        let ghost s0 = self@;
        proof {
            lemma_after_nothing(s0.after(match_step(s0.input, s0.pos, 'b')));
        }
        if let Err(e) = self.match_char('b') {
            return Err(e);
        }
        if !label.is_empty() {
            self.put2("BRA ", label, Ghost(Line::Jump(label@)));
            Ok(())
        } else {
            Err(TranslateError::NoEnclosingLoop)
        }
    }

    /// Translates a `while`: the condition is tested at the top, and the block repeats
    /// while it holds.
    pub fn do_while(&mut self) -> (r: Result<(), TranslateError>)
        requires
            old(self)@.label_room(),
        ensures
            final(self)@ == old(self)@.after(
                while_step(old(self)@.input, old(self)@.pos, old(self)@.labels),
            ),
            reports(r, while_step(old(self)@.input, old(self)@.pos, old(self)@.labels).fault),
        decreases old(self)@.input.len() - old(self)@.pos, 0int,
    {
        let ghost s0 = self@;
        let ghost base = s0.labels;
        let ghost key = match_step(s0.input, s0.pos, 'w');
        let ghost exit = label_name(base + 1);
        let ghost body = block_step(s0.input, key.pos, base + 2, exit);
        let ghost end = match_step(s0.input, body.pos, 'e');
        proof {
            use_type_invariant(&self.input);
            lemma_match_step(s0.input, s0.pos, 'w');
        }
        if let Err(e) = self.match_char('w') {
            return Err(e);
        }
        let ghost a1 = key.and_take(1);
        let ghost a2 = a1.and_take(1);
        let ghost a3 = a2.and_emit(Line::Label(base));
        let ghost a4 = a3.and_emit(Line::Condition);
        let ghost a5 = a4.and_emit(Line::JumpIfFalse(exit));
        let ghost head = a5;
        proof {
            lemma_after_take(s0, key, 1);
            lemma_after_take(s0, a1, 1);
            lemma_after_emit(s0, a2, Line::Label(base));
            lemma_after_emit(s0, a3, Line::Condition);
            lemma_after_emit(s0, a4, Line::JumpIfFalse(exit));
            assert(a2 == key.and_take(2));
            lemma_after_both(s0, head, body);
            lemma_block_bounded(s0.input, key.pos, base + 2, exit);
        }
        let l1 = self.new_label();
        let l2 = self.new_label();
        self.place(l1.as_str(), Ghost(base));
        self.condition();
        self.put2("BEQ ", l2.as_str(), Ghost(Line::JumpIfFalse(exit)));
        if let Err(e) = self.block(l2.as_str()) {
            return Err(e);
        }
        let ghost b1 = head.and_then(body);
        let ghost b2 = b1.and_then(end);
        let ghost b3 = b2.and_emit(Line::Jump(label_name(base)));
        let ghost b4 = b3.and_emit(Line::Label(base + 1));
        proof {
            lemma_match_step(s0.input, body.pos, 'e');
            lemma_after_both(s0, b1, end);
        }
        if let Err(e) = self.match_char('e') {
            return Err(e);
        }
        proof {
            lemma_after_emit(s0, b2, Line::Jump(label_name(base)));
            lemma_after_emit(s0, b3, Line::Label(base + 1));
        }
        self.put2("BRA ", l1.as_str(), Ghost(Line::Jump(label_name(base))));
        self.place(l2.as_str(), Ghost(base + 1));
        Ok(())
    }

    /// Translates a block: the statements up to the first `e`, `l` or `u` that begins
    /// none of them. `label` is where a `break` in the block leaves to; the empty text
    /// says that no loop is around the block.
    pub fn block(&mut self, label: &str) -> (r: Result<(), TranslateError>)
        requires
            old(self)@.label_room(),
        ensures
            final(self)@ == old(self)@.after(
                block_step(old(self)@.input, old(self)@.pos, old(self)@.labels, label@),
            ),
            reports(
                r,
                block_step(old(self)@.input, old(self)@.pos, old(self)@.labels, label@).fault,
            ),
        decreases old(self)@.input.len() - old(self)@.pos, 2int,
    {
        let ghost s0 = self@;
        let ghost mut acc = Step::go(s0.pos);
        proof {
            use_type_invariant(&self.input);
            lemma_after_nothing(s0);
            lemma_chain_stay(block_step(s0.input, s0.pos, s0.labels, label@));
        }
        while !self.at_block_end()
            invariant
                s0 == old(self)@,
                0 <= s0.pos <= self@.pos <= s0.input.len(),
                acc.ok(),
                self@ == s0.after(acc),
                self@.label_room(),
                block_step(s0.input, s0.pos, s0.labels, label@) == acc.and_then(
                    block_step(s0.input, self@.pos, self@.labels, label@),
                ),
            decreases s0.input.len() - self@.pos,
        {
            let ghost one = statement_step(s0.input, self@.pos, self@.labels, label@);
            proof {
                lemma_statement_sound(s0.input, self@.pos, self@.labels, label@);
                lemma_after_both(s0, acc, one);
                lemma_chain_assoc(
                    acc,
                    one,
                    block_step(s0.input, one.pos, self@.labels + one.fresh, label@),
                );
            }
            let r = self.statement(label);
            if r.is_err() {
                return r;
            }
            proof {
                acc = acc.and_then(one);
            }
        }
        proof {
            lemma_chain_stay(acc);
        }
        Ok(())
    }

    /// Whether the lookahead character ends a block.
    fn at_block_end(&self) -> (r: bool)
        ensures
            r == block_end_at(self@.input, self@.pos),
    {
        match self.look() {
            Some(c) => c == 'e' || c == 'l' || c == 'u',
            None => false,
        }
    }

    /// Translates one statement, which its first character tells.
    fn statement(&mut self, label: &str) -> (r: Result<(), TranslateError>)
        requires
            old(self)@.label_room(),
        ensures
            final(self)@ == old(self)@.after(
                statement_step(old(self)@.input, old(self)@.pos, old(self)@.labels, label@),
            ),
            reports(
                r,
                statement_step(old(self)@.input, old(self)@.pos, old(self)@.labels, label@).fault,
            ),
        decreases old(self)@.input.len() - old(self)@.pos, 1int,
    {
        match self.look() {
            Some(c) => {
                if c == 'i' {
                    self.do_if(label)
                } else if c == 'w' {
                    self.do_while()
                } else if c == 'p' {
                    self.do_loop()
                } else if c == 'r' {
                    self.do_repeat()
                } else if c == 'f' {
                    self.do_for()
                } else if c == 'd' {
                    self.do_do()
                } else if c == 'b' {
                    self.do_break(label)
                } else {
                    self.simple()
                }
            },
            None => self.simple(),
        }
    }

    /// Translates an `if`: the block is passed over where the condition is false. With
    /// an `else`, which `l` begins, the second block is translated for that case, and the
    /// first block ends with a jump past it.
    pub fn do_if(&mut self, label: &str) -> (r: Result<(), TranslateError>)
        requires
            old(self)@.label_room(),
        ensures
            final(self)@ == old(self)@.after(
                if_step(old(self)@.input, old(self)@.pos, old(self)@.labels, label@),
            ),
            reports(r, if_step(old(self)@.input, old(self)@.pos, old(self)@.labels, label@).fault),
        decreases old(self)@.input.len() - old(self)@.pos, 0int,
    {
        let ghost s0 = self@;
        let ghost base = s0.labels;
        let ghost key = match_step(s0.input, s0.pos, 'i');
        let ghost body = block_step(s0.input, key.pos, base + 1, label@);
        proof {
            use_type_invariant(&self.input);
            lemma_match_step(s0.input, s0.pos, 'i');
        }
        if let Err(e) = self.match_char('i') {
            return Err(e);
        }
        let ghost a1 = key.and_take(1);
        let ghost a2 = a1.and_emit(Line::Condition);
        let ghost a3 = a2.and_emit(Line::JumpIfFalse(label_name(base)));
        let ghost head = a3;
        proof {
            lemma_after_take(s0, key, 1);
            lemma_after_emit(s0, a1, Line::Condition);
            lemma_after_emit(s0, a2, Line::JumpIfFalse(label_name(base)));
            lemma_after_both(s0, head, body);
            lemma_block_bounded(s0.input, key.pos, base + 1, label@);
        }
        let label1 = self.new_label();
        let mut label2 = label1.clone();
        self.condition();
        self.put2("BEQ ", label1.as_str(), Ghost(Line::JumpIfFalse(label_name(base))));
        if let Err(e) = self.block(label) {
            return Err(e);
        }
        let ghost mut done = head.and_then(body);
        let ghost mut last = base;
        if self.look() == Some('l') {
            let ghost past = base + 1 + body.fresh;
            let ghost other = match_step(s0.input, body.pos, 'l');
            let ghost second = block_step(s0.input, other.pos, past + 1, label@);
            let ghost turn = other.and_take(1).and_emit(Line::Jump(label_name(past))).and_emit(
                Line::Label(base),
            );
            let ghost c1 = done.and_then(other);
            let ghost c2 = c1.and_take(1);
            let ghost c3 = c2.and_emit(Line::Jump(label_name(past)));
            let ghost c4 = c3.and_emit(Line::Label(base));
            proof {
                lemma_match_step(s0.input, body.pos, 'l');
                lemma_after_both(s0, done, other);
                lemma_after_take(s0, c1, 1);
                lemma_after_emit(s0, c2, Line::Jump(label_name(past)));
                lemma_after_emit(s0, c3, Line::Label(base));
                assert(c4.code =~= done.and_then(turn).code);
                assert(c4 == done.and_then(turn));
                lemma_after_both(s0, c4, second);
                lemma_block_bounded(s0.input, other.pos, past + 1, label@);
            }
            if let Err(e) = self.match_char('l') {
                return Err(e);
            }
            label2 = self.new_label();
            self.put2("BRA ", label2.as_str(), Ghost(Line::Jump(label_name(past))));
            self.place(label1.as_str(), Ghost(base));
            if let Err(e) = self.block(label) {
                return Err(e);
            }
            proof {
                done = c4.and_then(second);
                last = past;
            }
        }
        let ghost end = match_step(s0.input, done.pos, 'e');
        proof {
            lemma_match_step(s0.input, done.pos, 'e');
            lemma_after_both(s0, done, end);
        }
        if let Err(e) = self.match_char('e') {
            return Err(e);
        }
        proof {
            lemma_after_emit(s0, done.and_then(end), Line::Label(last));
        }
        self.place(label2.as_str(), Ghost(last));
        Ok(())
    }

    /// Translates a `loop`: the block repeats for ever, and only a `break` leaves it.
    pub fn do_loop(&mut self) -> (r: Result<(), TranslateError>)
        requires
            old(self)@.label_room(),
        ensures
            final(self)@ == old(self)@.after(
                loop_step(old(self)@.input, old(self)@.pos, old(self)@.labels),
            ),
            reports(r, loop_step(old(self)@.input, old(self)@.pos, old(self)@.labels).fault),
        decreases old(self)@.input.len() - old(self)@.pos, 0int,
    {
        let ghost s0 = self@;
        let ghost base = s0.labels;
        let ghost key = match_step(s0.input, s0.pos, 'p');
        let ghost exit = label_name(base + 1);
        let ghost body = block_step(s0.input, key.pos, base + 2, exit);
        let ghost end = match_step(s0.input, body.pos, 'e');
        proof {
            use_type_invariant(&self.input);
            lemma_match_step(s0.input, s0.pos, 'p');
        }
        if let Err(e) = self.match_char('p') {
            return Err(e);
        }
        let ghost a1 = key.and_take(1);
        let ghost a2 = a1.and_take(1);
        let ghost head = key.and_take(2).and_emit(Line::Label(base));
        proof {
            lemma_after_take(s0, key, 1);
            lemma_after_take(s0, a1, 1);
            lemma_after_emit(s0, a2, Line::Label(base));
            assert(a2 == key.and_take(2));
            lemma_after_both(s0, head, body);
            lemma_block_bounded(s0.input, key.pos, base + 2, exit);
        }
        let l1 = self.new_label();
        let l2 = self.new_label();
        self.place(l1.as_str(), Ghost(base));
        if let Err(e) = self.block(l2.as_str()) {
            return Err(e);
        }
        let ghost b1 = head.and_then(body);
        let ghost b2 = b1.and_then(end);
        let ghost b3 = b2.and_emit(Line::Jump(label_name(base)));
        let ghost b4 = b3.and_emit(Line::Label(base + 1));
        proof {
            lemma_match_step(s0.input, body.pos, 'e');
            lemma_after_both(s0, b1, end);
        }
        if let Err(e) = self.match_char('e') {
            return Err(e);
        }
        proof {
            lemma_after_emit(s0, b2, Line::Jump(label_name(base)));
            lemma_after_emit(s0, b3, Line::Label(base + 1));
        }
        self.put2("BRA ", l1.as_str(), Ghost(Line::Jump(label_name(base))));
        self.place(l2.as_str(), Ghost(base + 1));
        Ok(())
    }

    /// Translates a `repeat`: the condition is tested behind the block, which repeats
    /// while it is false.
    pub fn do_repeat(&mut self) -> (r: Result<(), TranslateError>)
        requires
            old(self)@.label_room(),
        ensures
            final(self)@ == old(self)@.after(
                repeat_step(old(self)@.input, old(self)@.pos, old(self)@.labels),
            ),
            reports(r, repeat_step(old(self)@.input, old(self)@.pos, old(self)@.labels).fault),
        decreases old(self)@.input.len() - old(self)@.pos, 0int,
    {
        let ghost s0 = self@;
        let ghost base = s0.labels;
        let ghost key = match_step(s0.input, s0.pos, 'r');
        let ghost top = label_name(base);
        let ghost exit = label_name(base + 1);
        let ghost body = block_step(s0.input, key.pos, base + 2, exit);
        let ghost end = match_step(s0.input, body.pos, 'u');
        proof {
            use_type_invariant(&self.input);
            lemma_match_step(s0.input, s0.pos, 'r');
        }
        if let Err(e) = self.match_char('r') {
            return Err(e);
        }
        let ghost a1 = key.and_take(1);
        let ghost a2 = a1.and_take(1);
        let ghost head = key.and_take(2).and_emit(Line::Label(base));
        proof {
            lemma_after_take(s0, key, 1);
            lemma_after_take(s0, a1, 1);
            lemma_after_emit(s0, a2, Line::Label(base));
            assert(a2 == key.and_take(2));
            lemma_after_both(s0, head, body);
            lemma_block_bounded(s0.input, key.pos, base + 2, exit);
        }
        let l1 = self.new_label();
        let l2 = self.new_label();
        self.place(l1.as_str(), Ghost(base));
        if let Err(e) = self.block(l2.as_str()) {
            return Err(e);
        }
        let ghost b1 = head.and_then(body);
        let ghost b2 = b1.and_then(end);
        let ghost b3 = b2.and_emit(Line::Condition);
        let ghost b4 = b3.and_emit(Line::JumpIfFalse(top));
        let ghost b5 = b4.and_emit(Line::Label(base + 1));
        proof {
            lemma_match_step(s0.input, body.pos, 'u');
            lemma_after_both(s0, b1, end);
        }
        if let Err(e) = self.match_char('u') {
            return Err(e);
        }
        proof {
            lemma_after_emit(s0, b2, Line::Condition);
            lemma_after_emit(s0, b3, Line::JumpIfFalse(top));
            lemma_after_emit(s0, b4, Line::Label(base + 1));
        }
        self.condition();
        self.put2("BEQ ", l1.as_str(), Ghost(Line::JumpIfFalse(top)));
        self.place(l2.as_str(), Ghost(base + 1));
        Ok(())
    }

    /// Translates what a `for` holds in front of its block: the name of the counter,
    /// `=`, the first value and the limit, and writes the top of the loop, where the
    /// counter is stepped and compared with the limit. `top` and `exit` are the labels
    /// of the loop, the first of them with number `base`.
    fn for_head(&mut self, top: &str, exit: &str, Ghost(base): Ghost<nat>) -> (r: Result<
        (),
        TranslateError,
    >)
        requires
            top@ == label_name(base),
            exit@ == label_name(base + 1),
        ensures
            final(self)@ == old(self)@.after(
                for_head_step(old(self)@.input, old(self)@.pos, base),
            ),
            reports(r, for_head_step(old(self)@.input, old(self)@.pos, base).fault),
    {
        let ghost s0 = self@;
        proof {
            use_type_invariant(&self.input);
            lemma_after_nothing(s0);
            lemma_name_at(s0.input, s0.pos);
        }
        let name = match self.get_name() {
            Ok(name) => name,
            Err(e) => { return Err(e); },
        };
        let ghost t = name_at(s0.input, s0.pos)->Some_0;
        let ghost eq = match_step(s0.input, t.next, '=');
        let ghost first = expression_step(s0.input, eq.pos);
        let ghost limit = expression_step(s0.input, first.pos);
        let ghost a0 = Step::go(t.next);
        let ghost a1 = a0.and_then(eq);
        let ghost a2 = a1.and_then(first);
        let ghost a3 = a2.and_emit(Line::Decrement);
        let ghost a4 = a3.and_emit(Line::Address(t.text));
        let ghost a5 = a4.and_emit(Line::StoreCounter);
        let ghost init = eq.and_then(first).and_emit(Line::Decrement).and_emit(
            Line::Address(t.text),
        ).and_emit(Line::StoreCounter);
        proof {
            lemma_after_both(s0, a0, eq);
            lemma_after_both(s0, a1, first);
            lemma_match_step(s0.input, t.next, '=');
        }
        if let Err(e) = self.match_char('=') {
            return Err(e);
        }
        proof {
            lemma_expression_sound(s0.input, eq.pos);
        }
        if let Err(e) = self.expression() {
            return Err(e);
        }
        proof {
            lemma_after_emit(s0, a2, Line::Decrement);
            lemma_after_emit(s0, a3, Line::Address(t.text));
            lemma_after_emit(s0, a4, Line::StoreCounter);
            assert(a5.code =~= a0.and_then(init).code);
            assert(a5 == a0.and_then(init));
            lemma_after_both(s0, a5, limit);
            lemma_expression_sound(s0.input, first.pos);
        }
        self.put("SUBQ #1,D0", Ghost(Line::Decrement));
        self.put3("LEA ", name.as_str(), "(PC),A0", Ghost(Line::Address(t.text)));
        self.put("MOVE DO,(A0)", Ghost(Line::StoreCounter));
        if let Err(e) = self.expression() {
            return Err(e);
        }
        let ghost b0 = a5.and_then(limit);
        let ghost b1 = b0.and_emit(Line::PushLimit);
        let ghost b2 = b1.and_emit(Line::Label(base));
        let ghost b3 = b2.and_emit(Line::Address(t.text));
        let ghost b4 = b3.and_emit(Line::Reload);
        let ghost b5 = b4.and_emit(Line::Increment);
        let ghost b6 = b5.and_emit(Line::StoreCounter);
        let ghost b7 = b6.and_emit(Line::CompareLimit);
        let ghost b8 = b7.and_emit(Line::JumpIfAbove(exit@));
        proof {
            lemma_after_emit(s0, b0, Line::PushLimit);
            lemma_after_emit(s0, b1, Line::Label(base));
            lemma_after_emit(s0, b2, Line::Address(t.text));
            lemma_after_emit(s0, b3, Line::Reload);
            lemma_after_emit(s0, b4, Line::Increment);
            lemma_after_emit(s0, b5, Line::StoreCounter);
            lemma_after_emit(s0, b6, Line::CompareLimit);
            lemma_after_emit(s0, b7, Line::JumpIfAbove(exit@));
            assert(b8.code =~= for_head_step(s0.input, s0.pos, base).code);
        }
        self.put("MOVE DO,-(SP)", Ghost(Line::PushLimit));
        self.place(top, Ghost(base));
        self.put3("LEA ", name.as_str(), "(PC),A0", Ghost(Line::Address(t.text)));
        self.put("MOVE (A0),D0", Ghost(Line::Reload));
        self.put("MOVE #1,D0", Ghost(Line::Increment));
        self.put("MOVE DO,(A0)", Ghost(Line::StoreCounter));
        self.put("CMP (SP),(A0)", Ghost(Line::CompareLimit));
        self.put2("BGT ", exit, Ghost(Line::JumpIfAbove(exit@)));
        Ok(())
    }

    /// Translates a `for`: the counter runs from the first value to the limit in steps
    /// of one, and the block repeats for each of its values. The limit waits on the
    /// stack, from which it is dropped at the exit.
    pub fn do_for(&mut self) -> (r: Result<(), TranslateError>)
        requires
            old(self)@.label_room(),
        ensures
            final(self)@ == old(self)@.after(
                for_step(old(self)@.input, old(self)@.pos, old(self)@.labels),
            ),
            reports(r, for_step(old(self)@.input, old(self)@.pos, old(self)@.labels).fault),
        decreases old(self)@.input.len() - old(self)@.pos, 0int,
    {
        let ghost s0 = self@;
        let ghost base = s0.labels;
        let ghost key = match_step(s0.input, s0.pos, 'f');
        let ghost exit = label_name(base + 1);
        let ghost head = for_head_step(s0.input, key.pos, base);
        let ghost body = block_step(s0.input, head.pos, base + 2, exit);
        let ghost end = match_step(s0.input, body.pos, 'e');
        proof {
            use_type_invariant(&self.input);
            lemma_match_step(s0.input, s0.pos, 'f');
        }
        if let Err(e) = self.match_char('f') {
            return Err(e);
        }
        let ghost a1 = key.and_take(1);
        let ghost a2 = a1.and_take(1);
        let ghost a3 = a2.and_then(head);
        proof {
            lemma_after_take(s0, key, 1);
            lemma_after_take(s0, a1, 1);
            assert(a2 == key.and_take(2));
            lemma_after_both(s0, a2, head);
            lemma_for_head_sound(s0.input, key.pos, base);
        }
        let l1 = self.new_label();
        let l2 = self.new_label();
        if let Err(e) = self.for_head(l1.as_str(), l2.as_str(), Ghost(base)) {
            return Err(e);
        }
        proof {
            lemma_after_both(s0, a3, body);
            lemma_block_bounded(s0.input, head.pos, base + 2, exit);
        }
        if let Err(e) = self.block(l2.as_str()) {
            return Err(e);
        }
        let ghost b1 = a3.and_then(body);
        let ghost b2 = b1.and_then(end);
        let ghost b3 = b2.and_emit(Line::Jump(label_name(base)));
        let ghost b4 = b3.and_emit(Line::Label(base + 1));
        let ghost b5 = b4.and_emit(Line::Release);
        proof {
            lemma_match_step(s0.input, body.pos, 'e');
            lemma_after_both(s0, b1, end);
        }
        if let Err(e) = self.match_char('e') {
            return Err(e);
        }
        proof {
            lemma_after_emit(s0, b2, Line::Jump(label_name(base)));
            lemma_after_emit(s0, b3, Line::Label(base + 1));
            lemma_after_emit(s0, b4, Line::Release);
        }
        self.put2("BRA ", l1.as_str(), Ghost(Line::Jump(label_name(base))));
        self.place(l2.as_str(), Ghost(base + 1));
        self.put("ADDQ #2,SP", Ghost(Line::Release));
        Ok(())
    }

    /// Translates a `do`: the block repeats as many times as the count says. The count
    /// waits on the stack while the block runs, and is dropped from it at the exit.
    pub fn do_do(&mut self) -> (r: Result<(), TranslateError>)
        requires
            old(self)@.label_room(),
        ensures
            final(self)@ == old(self)@.after(
                do_step(old(self)@.input, old(self)@.pos, old(self)@.labels),
            ),
            reports(r, do_step(old(self)@.input, old(self)@.pos, old(self)@.labels).fault),
        decreases old(self)@.input.len() - old(self)@.pos, 0int,
    {
        let ghost s0 = self@;
        let ghost base = s0.labels;
        let ghost key = match_step(s0.input, s0.pos, 'd');
        let ghost top = label_name(base);
        let ghost exit = label_name(base + 1);
        let ghost count = expression_step(s0.input, key.pos);
        let ghost body = block_step(s0.input, count.pos, base + 2, exit);
        let ghost end = match_step(s0.input, body.pos, 'e');
        proof {
            use_type_invariant(&self.input);
            lemma_match_step(s0.input, s0.pos, 'd');
        }
        if let Err(e) = self.match_char('d') {
            return Err(e);
        }
        let ghost a1 = key.and_take(1);
        let ghost a2 = a1.and_take(1);
        let ghost a3 = a2.and_then(count);
        let ghost a4 = a3.and_emit(Line::Decrement);
        let ghost a5 = a4.and_emit(Line::Label(base));
        let ghost a6 = a5.and_emit(Line::Push);
        let ghost head = a6;
        proof {
            lemma_after_take(s0, key, 1);
            lemma_after_take(s0, a1, 1);
            assert(a2 == key.and_take(2));
            lemma_after_both(s0, a2, count);
            lemma_expression_sound(s0.input, key.pos);
        }
        let l1 = self.new_label();
        let l2 = self.new_label();
        if let Err(e) = self.expression() {
            return Err(e);
        }
        proof {
            lemma_after_emit(s0, a3, Line::Decrement);
            lemma_after_emit(s0, a4, Line::Label(base));
            lemma_after_emit(s0, a5, Line::Push);
            lemma_after_both(s0, head, body);
            lemma_block_bounded(s0.input, count.pos, base + 2, exit);
        }
        self.put("SUBQ #1,D0", Ghost(Line::Decrement));
        self.place(l1.as_str(), Ghost(base));
        self.put("MOVE D0,-(SP)", Ghost(Line::Push));
        if let Err(e) = self.block(l2.as_str()) {
            return Err(e);
        }
        let ghost b1 = head.and_then(body);
        let ghost b2 = b1.and_then(end);
        let ghost b3 = b2.and_emit(Line::PopCounter);
        let ghost b4 = b3.and_emit(Line::CountDown(top));
        let ghost b5 = b4.and_emit(Line::Reserve);
        let ghost b6 = b5.and_emit(Line::Label(base + 1));
        let ghost b7 = b6.and_emit(Line::Release);
        proof {
            lemma_match_step(s0.input, body.pos, 'e');
            lemma_after_both(s0, b1, end);
        }
        if let Err(e) = self.match_char('e') {
            return Err(e);
        }
        proof {
            lemma_after_emit(s0, b2, Line::PopCounter);
            lemma_after_emit(s0, b3, Line::CountDown(top));
            lemma_after_emit(s0, b4, Line::Reserve);
            lemma_after_emit(s0, b5, Line::Label(base + 1));
            lemma_after_emit(s0, b6, Line::Release);
        }
        self.put("MOVE (SP)+,D0", Ghost(Line::PopCounter));
        self.put2("DBRA D0,", l1.as_str(), Ghost(Line::CountDown(top)));
        self.put("SUBQ #2,SP", Ghost(Line::Reserve));
        self.place(l2.as_str(), Ghost(base + 1));
        self.put("ADDQ #2,SP", Ghost(Line::Release));
        Ok(())
    }

    /// Translates a program: a block outside every loop, which must stop in front of
    /// `e`, and the line that ends the program.
    pub fn do_program(&mut self) -> (r: Result<(), TranslateError>)
        requires
            old(self)@.label_room(),
        ensures
            final(self)@ == old(self)@.after(
                program_step(old(self)@.input, old(self)@.pos, old(self)@.labels),
            ),
            reports(r, program_step(old(self)@.input, old(self)@.pos, old(self)@.labels).fault),
    {
        let ghost s0 = self@;
        let ghost body = block_step(s0.input, s0.pos, s0.labels, Seq::empty());
        proof {
            reveal_strlit("");
            assert(""@ =~= Seq::<char>::empty());
            lemma_after_both(s0, body, Step::emit(body.pos, Line::End));
            lemma_after_both(s0, body, Step::fail(body.pos, Fault::Expected("End"@)));
            lemma_after_nothing(s0.after(body));
        }
        if let Err(e) = self.block("") {
            return Err(e);
        }
        if self.look() != Some('e') {
            return Err(expected("End"));
        }
        self.put("END", Ghost(Line::End));
        Ok(())
    }
}

} // verus!
