use maria::{expected, Cradle, TranslateError, NEW_LINE};

fn code(lines: &[&str]) -> String {
    let mut text = String::new();
    for line in lines {
        if !line.ends_with(':') {
            text.push('\t');
        }
        text.push_str(line);
        text.push('\n');
    }
    text
}

#[test]
fn test_valid_expression() {
    let input = b"2+3-4 ";
    let mut c = Cradle::new(&input[..]);
    assert_eq!(c.expression(), Ok(()));
    assert_eq!(
        c.output,
        code(&[
            "MOVE #2,D0",
            "MOVE D0,-(SP)",
            "MOVE #3,D0",
            "ADD (SP)+,D0",
            "MOVE D0,-(SP)",
            "MOVE #4,D0",
            "SUB (SP)+,D0",
            "NEG D0",
        ])
    );
    assert_eq!(c.look(), None);
}

#[test]
fn test_invalid_expression() {
    let input = b"2aa ";
    let mut c = Cradle::new(&input[..]);
    assert_eq!(c.expression(), Ok(()));
    assert_eq!(c.output, code(&["MOVE #2,D0"]));
    assert_eq!(c.look(), Some('a'));
}

#[test]
fn test_single_expression() {
    let input = b"1 ";
    let mut c = Cradle::new(&input[..]);
    assert_eq!(c.expression(), Ok(()));
    assert_eq!(c.output, code(&["MOVE #1,D0"]));
}

#[test]
fn test_with_mulops() {
    let input = b"2+3*5-6/3 ";
    let mut c = Cradle::new(&input[..]);
    assert_eq!(c.expression(), Ok(()));
    assert_eq!(
        c.output,
        code(&[
            "MOVE #2,D0",
            "MOVE D0,-(SP)",
            "MOVE #3,D0",
            "MOVE D0,-(SP)",
            "MOVE #5,D0",
            "MULS (SP)+,D0",
            "ADD (SP)+,D0",
            "MOVE D0,-(SP)",
            "MOVE #6,D0",
            "MOVE D0,-(SP)",
            "MOVE #3,D0",
            "MOVE (SP)+,D1",
            "DIVS D1,D0",
            "SUB (SP)+,D0",
            "NEG D0",
        ])
    );
}

#[test]
fn test_with_paren() {
    let input = b"(((2+3)*5)-6)/3 ";
    let mut c = Cradle::new(&input[..]);
    assert_eq!(c.expression(), Ok(()));
    assert_eq!(
        c.output,
        code(&[
            "MOVE #2,D0",
            "MOVE D0,-(SP)",
            "MOVE #3,D0",
            "ADD (SP)+,D0",
            "MOVE D0,-(SP)",
            "MOVE #5,D0",
            "MULS (SP)+,D0",
            "MOVE D0,-(SP)",
            "MOVE #6,D0",
            "SUB (SP)+,D0",
            "NEG D0",
            "MOVE D0,-(SP)",
            "MOVE #3,D0",
            "MOVE (SP)+,D1",
            "DIVS D1,D0",
        ])
    );
}

#[test]
fn test_unary_minus() {
    let input = b"-1 ";
    let mut c = Cradle::new(&input[..]);
    assert_eq!(c.expression(), Ok(()));
    assert_eq!(
        c.output,
        code(&["CLR D0", "MOVE D0,-(SP)", "MOVE #1,D0", "SUB (SP)+,D0", "NEG D0"])
    );
}

#[test]
fn test_with_variables() {
    let input = b"b-1+a*2+(b/c) ";
    let mut c = Cradle::new(&input[..]);
    assert_eq!(c.expression(), Ok(()));
    assert_eq!(
        c.output,
        code(&[
            "MOVE B(PC),D0",
            "MOVE D0,-(SP)",
            "MOVE #1,D0",
            "SUB (SP)+,D0",
            "NEG D0",
            "MOVE D0,-(SP)",
            "MOVE A(PC),D0",
            "MOVE D0,-(SP)",
            "MOVE #2,D0",
            "MULS (SP)+,D0",
            "ADD (SP)+,D0",
            "MOVE D0,-(SP)",
            "MOVE B(PC),D0",
            "MOVE D0,-(SP)",
            "MOVE C(PC),D0",
            "MOVE (SP)+,D1",
            "DIVS D1,D0",
            "ADD (SP)+,D0",
        ])
    );
}

#[test]
fn test_func_identifier() {
    let input = b"a+2*x() ";
    let mut c = Cradle::new(&input[..]);
    assert_eq!(c.expression(), Ok(()));
    assert_eq!(
        c.output,
        code(&[
            "MOVE A(PC),D0",
            "MOVE D0,-(SP)",
            "MOVE #2,D0",
            "MOVE D0,-(SP)",
            "BSR X",
            "MULS (SP)+,D0",
            "ADD (SP)+,D0",
        ])
    );
}

#[test]
fn test_assignment() {
    let input = b"b=2+a*3/2-b*(4/6) ";
    let mut c = Cradle::new(&input[..]);
    assert_eq!(c.assignment(), Ok(()));
    assert_eq!(
        c.output,
        code(&[
            "MOVE #2,D0",
            "MOVE D0,-(SP)",
            "MOVE A(PC),D0",
            "MOVE D0,-(SP)",
            "MOVE #3,D0",
            "MULS (SP)+,D0",
            "MOVE D0,-(SP)",
            "MOVE #2,D0",
            "MOVE (SP)+,D1",
            "DIVS D1,D0",
            "ADD (SP)+,D0",
            "MOVE D0,-(SP)",
            "MOVE B(PC),D0",
            "MOVE D0,-(SP)",
            "MOVE #4,D0",
            "MOVE D0,-(SP)",
            "MOVE #6,D0",
            "MOVE (SP)+,D1",
            "DIVS D1,D0",
            "MULS (SP)+,D0",
            "SUB (SP)+,D0",
            "NEG D0",
            "LEA B(PC),A0",
            "MOVE D0,(A0)",
        ])
    );
}

#[test]
fn test_tokens_skip() {
    let input = b"variable = 2 * 3 / (function() + func()) * (x()/2)\n";
    let mut c = Cradle::new(&input[..]);
    assert_eq!(c.assignment(), Ok(()));
    if c.look() != Some(NEW_LINE) {
        panic!("{}", expected("NEW_LINE").message());
    }
    assert_eq!(
        c.output,
        code(&[
            "MOVE #2,D0",
            "MOVE D0,-(SP)",
            "MOVE #3,D0",
            "MULS (SP)+,D0",
            "MOVE D0,-(SP)",
            "BSR FUNCTION",
            "MOVE D0,-(SP)",
            "BSR FUNC",
            "ADD (SP)+,D0",
            "MOVE (SP)+,D1",
            "DIVS D1,D0",
            "MOVE D0,-(SP)",
            "BSR X",
            "MOVE D0,-(SP)",
            "MOVE #2,D0",
            "MOVE (SP)+,D1",
            "DIVS D1,D0",
            "MULS (SP)+,D0",
            "LEA VARIABLE(PC),A0",
            "MOVE D0,(A0)",
        ])
    );
}

#[test]
fn sum_of_two_numbers() {
    let mut c = Cradle::new(b"1+2 ");
    assert_eq!(c.expression(), Ok(()));
    assert_eq!(
        c.output,
        "\tMOVE #1,D0\n\tMOVE D0,-(SP)\n\tMOVE #2,D0\n\tADD (SP)+,D0\n"
    );
}

#[test]
fn assignment_with_precedence() {
    let mut c = Cradle::new(b"a=2+3*4 ");
    assert_eq!(c.assignment(), Ok(()));
    assert_eq!(
        c.output,
        code(&[
            "MOVE #2,D0",
            "MOVE D0,-(SP)",
            "MOVE #3,D0",
            "MOVE D0,-(SP)",
            "MOVE #4,D0",
            "MULS (SP)+,D0",
            "ADD (SP)+,D0",
            "LEA A(PC),A0",
            "MOVE D0,(A0)",
        ])
    );
}

#[test]
fn number_alone_is_one_load() {
    for digits in ["0", "7", "42", "0012", "18446744073709551616000"] {
        let mut c = Cradle::new(digits.as_bytes());
        assert_eq!(c.expression(), Ok(()));
        assert_eq!(c.output, format!("\tMOVE #{},D0\n", digits));
        assert!(!c.output.contains("(SP)"));
        assert_eq!(c.look(), None);
    }
}

#[test]
fn pushes_match_operators_and_combining_lines() {
    for input in ["1", "1+2", "-a*(b-c)/d()+4", "((x))", "a-b-c-d", "+1*2*3"] {
        let mut c = Cradle::new(input.as_bytes());
        assert_eq!(c.expression(), Ok(()));
        let operators = input.chars().filter(|c| "+-*/".contains(*c)).count();
        let pushes = c.output.matches("MOVE D0,-(SP)").count();
        let pops = c.output.matches("(SP)+,").count();
        assert_eq!(pushes, operators);
        assert_eq!(pops, operators);
    }
}

#[test]
fn missing_operand_is_an_error_and_keeps_what_was_written() {
    let mut c = Cradle::new(b"1+");
    assert_eq!(
        c.expression(),
        Err(TranslateError::UnexpectedToken("Integer".to_string()))
    );
    assert_eq!(c.output, "\tMOVE #1,D0\n\tMOVE D0,-(SP)\n");
    assert_eq!(c.look(), None);
}

#[test]
fn missing_parenthesis_is_an_error() {
    let mut c = Cradle::new(b"(1+2");
    assert_eq!(
        c.expression(),
        Err(TranslateError::UnexpectedToken(")".to_string()))
    );
    let mut c = Cradle::new(b"f(1)");
    assert_eq!(
        c.expression(),
        Err(TranslateError::UnexpectedToken(")".to_string()))
    );
    assert_eq!(c.output, "");
    assert_eq!(c.look(), Some('1'));
}

#[test]
fn assignment_without_name_or_equals_is_an_error() {
    let mut c = Cradle::new(b"1=2");
    assert_eq!(
        c.assignment(),
        Err(TranslateError::UnexpectedToken("Name".to_string()))
    );
    assert_eq!(c.look(), Some('1'));
    let mut c = Cradle::new(b"ab 2");
    assert_eq!(
        c.assignment(),
        Err(TranslateError::UnexpectedToken("=".to_string()))
    );
    assert_eq!(c.look(), Some('2'));
    assert_eq!(c.output, "");
}

#[test]
fn operators_called_alone() {
    let mut c = Cradle::new(b"+x");
    assert_eq!(c.add(), Ok(()));
    assert_eq!(c.output, code(&["MOVE X(PC),D0", "ADD (SP)+,D0"]));
    let mut c = Cradle::new(b"- x");
    assert_eq!(c.subtract(), Ok(()));
    assert_eq!(c.output, code(&["MOVE X(PC),D0", "SUB (SP)+,D0", "NEG D0"]));
    let mut c = Cradle::new(b"*2*3");
    assert_eq!(c.multiply(), Ok(()));
    assert_eq!(c.output, code(&["MOVE #2,D0", "MULS (SP)+,D0"]));
    assert_eq!(c.look(), Some('*'));
    let mut c = Cradle::new(b"/2");
    assert_eq!(c.divide(), Ok(()));
    assert_eq!(c.output, code(&["MOVE #2,D0", "MOVE (SP)+,D1", "DIVS D1,D0"]));
    let mut c = Cradle::new(b"/2");
    assert_eq!(
        c.multiply(),
        Err(TranslateError::UnexpectedToken("*".to_string()))
    );
    assert_eq!(c.output, "");
}

#[test]
fn term_factor_and_ident() {
    let mut c = Cradle::new(b"2*y+1");
    assert_eq!(c.term(), Ok(()));
    assert_eq!(
        c.output,
        code(&["MOVE #2,D0", "MOVE D0,-(SP)", "MOVE Y(PC),D0", "MULS (SP)+,D0"])
    );
    assert_eq!(c.look(), Some('+'));
    let mut c = Cradle::new(b"(n)");
    assert_eq!(c.factor(), Ok(()));
    assert_eq!(c.output, code(&["MOVE N(PC),D0"]));
    let mut c = Cradle::new(b"go ( ) x");
    assert_eq!(c.ident(), Ok(()));
    assert_eq!(c.output, code(&["BSR GO"]));
    assert_eq!(c.look(), Some('x'));
    let mut c = Cradle::new(b"?");
    assert_eq!(
        c.factor(),
        Err(TranslateError::UnexpectedToken("Integer".to_string()))
    );
    assert_eq!(
        c.ident(),
        Err(TranslateError::UnexpectedToken("Name".to_string()))
    );
}
