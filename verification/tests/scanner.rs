use maria::chars::{is_alnum, is_alpha, is_digit, to_upper};
use maria::grammar::Ops;
use maria::label::{decimal_text, label_text};
use maria::source::Source;
use maria::text::join3;
use maria::{expected, Cradle, TranslateError, NEW_LINE, SPACE, TAB};

#[test]
fn new_skips_leading_blanks() {
    let c = Cradle::new(b" \t x");
    assert_eq!(c.look(), Some('x'));
    assert_eq!(c.lcount, 0);
    assert_eq!(c.output, "");
}

#[test]
fn new_on_empty_input_has_no_lookahead() {
    let mut c = Cradle::new(b"");
    assert_eq!(c.look(), None);
    assert_eq!(c.get_char(), Err(TranslateError::PrematureEnd));
    let c = Cradle::new(b"  ");
    assert_eq!(c.look(), None);
}

#[test]
fn get_char_consumes_the_lookahead() {
    let mut c = Cradle::new(b"ab");
    assert_eq!(c.get_char(), Ok('a'));
    assert_eq!(c.look(), Some('b'));
    assert_eq!(c.get_char(), Ok('b'));
    assert_eq!(c.look(), None);
    assert_eq!(c.get_char(), Err(TranslateError::PrematureEnd));
    assert_eq!(c.look(), None);
}

#[test]
fn skip_white_stops_at_the_first_other_character() {
    let mut c = Cradle::new(b"a \t\t b");
    assert_eq!(c.get_char(), Ok('a'));
    assert!(c.is_white());
    c.skip_white();
    assert_eq!(c.look(), Some('b'));
    assert!(!c.is_white());
    c.skip_white();
    assert_eq!(c.look(), Some('b'));
}

#[test]
fn line_break_is_no_blank() {
    let mut c = Cradle::new(b"a\n b");
    assert_eq!(c.get_char(), Ok('a'));
    c.skip_white();
    assert_eq!(c.look(), Some(NEW_LINE));
    assert!(!c.is_white());
    assert_eq!(TAB, '\t');
    assert_eq!(SPACE, ' ');
}

#[test]
fn match_char_consumes_the_character_and_blanks() {
    let mut c = Cradle::new(b"=  1");
    assert_eq!(c.match_char('='), Ok(()));
    assert_eq!(c.look(), Some('1'));
    assert_eq!(
        c.match_char('='),
        Err(TranslateError::UnexpectedToken("=".to_string()))
    );
    assert_eq!(c.look(), Some('1'));
    assert_eq!(c.output, "");
}

#[test]
fn get_name_reads_the_whole_name_in_upper_case() {
    let mut c = Cradle::new(b"aB9z_ x");
    assert_eq!(c.get_name(), Ok("AB9Z".to_string()));
    assert_eq!(c.look(), Some('_'));
    let mut c = Cradle::new(b"name \t =");
    assert_eq!(c.get_name(), Ok("NAME".to_string()));
    assert_eq!(c.look(), Some('='));
}

#[test]
fn get_name_wants_a_letter() {
    let mut c = Cradle::new(b"9a");
    assert_eq!(
        c.get_name(),
        Err(TranslateError::UnexpectedToken("Name".to_string()))
    );
    assert_eq!(c.look(), Some('9'));
    let mut c = Cradle::new(b"");
    assert_eq!(c.get_name(), Err(expected("Name")));
    let mut c = Cradle::new(&[0xe9u8, b'a'][..]);
    assert_eq!(c.get_name(), Err(expected("Name")));
}

#[test]
fn get_num_reads_the_digits_as_they_stand() {
    let mut c = Cradle::new(b"007  +");
    assert_eq!(c.get_num(), Ok("007".to_string()));
    assert_eq!(c.look(), Some('+'));
    let mut c = Cradle::new(b"12ab");
    assert_eq!(c.get_num(), Ok("12".to_string()));
    assert_eq!(c.look(), Some('a'));
    let mut c = Cradle::new(b"x1");
    assert_eq!(
        c.get_num(),
        Err(TranslateError::UnexpectedToken("Integer".to_string()))
    );
    assert_eq!(c.look(), Some('x'));
}

#[test]
fn operator_classes() {
    for (text, addop, mulop) in [
        ("+", true, false),
        ("-", true, false),
        ("*", false, true),
        ("/", false, true),
        ("=", false, false),
        ("", false, false),
    ] {
        let c = Cradle::new(text.as_bytes());
        assert_eq!(c.is_addop(), addop);
        assert_eq!(c.is_mulop(), mulop);
    }
    assert_eq!(Ops::from('+'), Ops::Add);
    assert_eq!(Ops::from('-'), Ops::Sub);
    assert_eq!(Ops::from('*'), Ops::Mul);
    assert_eq!(Ops::from('/'), Ops::Div);
    assert_eq!(Ops::from('x'), Ops::Invalid);
}

#[test]
fn character_classes() {
    assert!(is_alpha('a') && is_alpha('Z') && !is_alpha('1') && !is_alpha('_'));
    assert!(is_digit('0') && is_digit('9') && !is_digit('a'));
    assert!(is_alnum('q') && is_alnum('5') && !is_alnum(' '));
    assert_eq!(to_upper('a'), 'A');
    assert_eq!(to_upper('z'), 'Z');
    assert_eq!(to_upper('Q'), 'Q');
    assert_eq!(to_upper('1'), '1');
    assert_eq!(to_upper('{'), '{');
}

#[test]
fn emit_writes_after_one_tab() {
    let mut c = Cradle::new(b"");
    c.emit("NOP");
    assert_eq!(c.output, "\tNOP");
    c.emitln("RTS");
    assert_eq!(c.output, "\tNOP\tRTS\n");
    c.post_label("HERE");
    assert_eq!(c.output, "\tNOP\tRTS\nHERE:\n");
}

#[test]
fn error_messages() {
    assert_eq!(expected("Name").message(), "Name Expected");
    assert_eq!(
        expected("Name"),
        TranslateError::UnexpectedToken("Name".to_string())
    );
    assert_eq!(
        TranslateError::NoEnclosingLoop.message(),
        "No loop to break from"
    );
    assert_eq!(
        TranslateError::PrematureEnd.message(),
        "premature end of input"
    );
}

#[test]
fn labels_are_numbered_in_decimal() {
    assert_eq!(decimal_text(0), "0");
    assert_eq!(decimal_text(9), "9");
    assert_eq!(decimal_text(10), "10");
    assert_eq!(decimal_text(1905), "1905");
    assert_eq!(label_text(0), "L0");
    assert_eq!(label_text(123), "L123");
    let mut c = Cradle::new(b"");
    for n in 0..12 {
        assert_eq!(c.new_label(), format!("L{}", n));
    }
    assert_eq!(c.lcount, 12);
    assert_eq!(c.output, "");
}

#[test]
fn source_walks_through_the_input() {
    let mut s = Source::new(b"hi");
    assert_eq!(s.peek(), Some('h'));
    assert_eq!(s.advance(), Some('h'));
    assert_eq!(s.advance(), Some('i'));
    assert_eq!(s.peek(), None);
    assert_eq!(s.advance(), None);
    assert_eq!(join3("a", "bc", "d"), "abcd");
}

#[test]
fn label_room_is_there_for_any_real_input() {
    let mut c = Cradle::new(b"w x e");
    assert!(c.has_label_room());
    c.lcount = usize::MAX - 3;
    assert!(!c.has_label_room());
    c.lcount = usize::MAX - 10;
    assert!(c.has_label_room());
    assert_eq!(c.do_while(), Ok(()));
    assert_eq!(c.lcount, usize::MAX - 8);
}
