use maria::{Cradle, TranslateError};

fn code(lines: &[&str]) -> String {
    let mut text = String::new();
    for line in lines {
        if !line.ends_with(':') {
            text.push('\t');
        }
        text.push_str(line);
        text.push('\n');
    }
    text
}

#[test]
fn test_control_constructs() {
    let inp = b"afi=xikbeece\n";
    let mut c = Cradle::new(&inp[..]);
    let r = c.do_program();
    assert_eq!(r, Err(TranslateError::UnexpectedToken("Name".to_string())));
    assert_eq!(
        c.output,
        code(&["MOVE XIKBEECE(PC),D0", "LEA AFI(PC),A0", "MOVE D0,(A0)"])
    );
    assert_eq!(c.look(), Some('\n'));
}

#[test]
fn control_constructs_with_names_apart() {
    let inp = b"a f i = x y z i k b e e c e\n";
    let mut c = Cradle::new(&inp[..]);
    assert_eq!(c.do_program(), Ok(()));
    assert_eq!(
        c.output,
        code(&[
            "A",
            "MOVE X(PC),D0",
            "SUBQ #1,D0",
            "LEA I(PC),A0",
            "MOVE DO,(A0)",
            "MOVE Y(PC),D0",
            "MOVE DO,-(SP)",
            "L0:",
            "LEA I(PC),A0",
            "MOVE (A0),D0",
            "MOVE #1,D0",
            "MOVE DO,(A0)",
            "CMP (SP),(A0)",
            "BGT L1",
            "Z",
            "<condition>",
            "BEQ L2",
            "K",
            "BRA L1",
            "L2:",
            "BRA L0",
            "L1:",
            "ADDQ #2,SP",
            "C",
            "END",
        ])
    );
    assert_eq!(c.look(), Some('e'));
    assert_eq!(c.lcount, 3);
}

#[test]
fn bare_name_is_written_as_it_is() {
    let mut c = Cradle::new(b"b");
    assert_eq!(c.other(), Ok(()));
    assert_eq!(c.output, "\tB\n");
    assert_eq!(c.look(), None);
}

#[test]
fn while_keeps_its_shape_around_any_block() {
    for (body, lines) in [
        ("", vec![]),
        ("x", vec!["X"]),
        ("x y", vec!["X", "Y"]),
        ("n=1", vec!["MOVE #1,D0", "LEA N(PC),A0", "MOVE D0,(A0)"]),
        ("b", vec!["BRA L1"]),
    ] {
        let input = format!("w {} e", body);
        let mut c = Cradle::new(input.as_bytes());
        assert_eq!(c.do_while(), Ok(()));
        let mut expect = code(&["L0:", "<condition>", "BEQ L1"]);
        expect.push_str(&code(&lines));
        expect.push_str(&code(&["BRA L0", "L1:"]));
        assert_eq!(c.output, expect);
        assert_eq!(c.look(), None);
        assert_eq!(c.lcount, 2);
    }
}

#[test]
fn break_leaves_the_innermost_loop() {
    let mut c = Cradle::new(b"w p b e b e");
    assert_eq!(c.do_while(), Ok(()));
    assert_eq!(
        c.output,
        code(&[
            "L0:",
            "<condition>",
            "BEQ L1",
            "L2:",
            "BRA L3",
            "BRA L2",
            "L3:",
            "BRA L1",
            "BRA L0",
            "L1:",
        ])
    );
}

#[test]
fn break_outside_every_loop_is_an_error() {
    let mut c = Cradle::new(b"x b e");
    assert_eq!(c.do_program(), Err(TranslateError::NoEnclosingLoop));
    assert_eq!(c.output, "\tX\n");
    assert_eq!(
        TranslateError::NoEnclosingLoop.message(),
        "No loop to break from"
    );
    let mut c = Cradle::new(b"b");
    assert_eq!(c.do_break(""), Err(TranslateError::NoEnclosingLoop));
    assert_eq!(c.look(), None);
    let mut c = Cradle::new(b"b x");
    assert_eq!(c.do_break("L7"), Ok(()));
    assert_eq!(c.output, "\tBRA L7\n");
    assert_eq!(c.look(), Some('x'));
    let mut c = Cradle::new(b"x");
    assert_eq!(
        c.do_break("L7"),
        Err(TranslateError::UnexpectedToken("b".to_string()))
    );
}

#[test]
fn break_in_an_if_leaves_the_loop_around_it() {
    let mut c = Cradle::new(b"p i b e e");
    assert_eq!(c.do_loop(), Ok(()));
    assert_eq!(
        c.output,
        code(&["L0:", "<condition>", "BEQ L2", "BRA L1", "L2:", "BRA L0", "L1:"])
    );
}

#[test]
fn if_without_else() {
    let mut c = Cradle::new(b"i x e y");
    assert_eq!(c.do_if(""), Ok(()));
    assert_eq!(c.output, code(&["<condition>", "BEQ L0", "X", "L0:"]));
    assert_eq!(c.look(), Some('y'));
    assert_eq!(c.lcount, 1);
}

#[test]
fn if_with_else() {
    let mut c = Cradle::new(b"i x l y e");
    assert_eq!(c.do_if(""), Ok(()));
    assert_eq!(
        c.output,
        code(&["<condition>", "BEQ L0", "X", "BRA L1", "L0:", "Y", "L1:"])
    );
    assert_eq!(c.lcount, 2);
}

#[test]
fn if_with_loop_in_the_first_block_numbers_the_else_behind_it() {
    let mut c = Cradle::new(b"i p e l y e");
    assert_eq!(c.do_if(""), Ok(()));
    assert_eq!(
        c.output,
        code(&[
            "<condition>",
            "BEQ L0",
            "L1:",
            "BRA L1",
            "L2:",
            "BRA L3",
            "L0:",
            "Y",
            "L3:",
        ])
    );
}

#[test]
fn if_that_ends_at_until_is_an_error() {
    let mut c = Cradle::new(b"i x u");
    assert_eq!(
        c.do_if(""),
        Err(TranslateError::UnexpectedToken("e".to_string()))
    );
    assert_eq!(c.output, code(&["<condition>", "BEQ L0", "X"]));
    assert_eq!(c.look(), Some('u'));
}

#[test]
fn loop_without_condition() {
    let mut c = Cradle::new(b"p x e");
    assert_eq!(c.do_loop(), Ok(()));
    assert_eq!(c.output, code(&["L0:", "X", "BRA L0", "L1:"]));
}

#[test]
fn repeat_tests_at_the_bottom() {
    let mut c = Cradle::new(b"r x u y");
    assert_eq!(c.do_repeat(), Ok(()));
    assert_eq!(
        c.output,
        code(&["L0:", "X", "<condition>", "BEQ L0", "L1:"])
    );
    assert_eq!(c.look(), Some('y'));
    let mut c = Cradle::new(b"r x e");
    assert_eq!(
        c.do_repeat(),
        Err(TranslateError::UnexpectedToken("u".to_string()))
    );
}

#[test]
fn for_loop() {
    let mut c = Cradle::new(b"f n = 1 10 x e");
    assert_eq!(c.do_for(), Ok(()));
    assert_eq!(
        c.output,
        code(&[
            "MOVE #1,D0",
            "SUBQ #1,D0",
            "LEA N(PC),A0",
            "MOVE DO,(A0)",
            "MOVE #10,D0",
            "MOVE DO,-(SP)",
            "L0:",
            "LEA N(PC),A0",
            "MOVE (A0),D0",
            "MOVE #1,D0",
            "MOVE DO,(A0)",
            "CMP (SP),(A0)",
            "BGT L1",
            "X",
            "BRA L0",
            "L1:",
            "ADDQ #2,SP",
        ])
    );
    assert_eq!(c.lcount, 2);
}

#[test]
fn for_loop_without_name_takes_its_labels_and_stops() {
    let mut c = Cradle::new(b"f 1");
    assert_eq!(
        c.do_for(),
        Err(TranslateError::UnexpectedToken("Name".to_string()))
    );
    assert_eq!(c.lcount, 2);
    assert_eq!(c.output, "");
    assert_eq!(c.look(), Some('1'));
}

#[test]
fn do_loop() {
    let mut c = Cradle::new(b"d 3 x b e y");
    assert_eq!(c.do_do(), Ok(()));
    assert_eq!(
        c.output,
        code(&[
            "MOVE #3,D0",
            "SUBQ #1,D0",
            "L0:",
            "MOVE D0,-(SP)",
            "X",
            "BRA L1",
            "MOVE (SP)+,D0",
            "DBRA D0,L0",
            "SUBQ #2,SP",
            "L1:",
            "ADDQ #2,SP",
        ])
    );
    assert_eq!(c.look(), Some('y'));
}

#[test]
fn program_ends_in_front_of_end() {
    let mut c = Cradle::new(b"x e");
    assert_eq!(c.do_program(), Ok(()));
    assert_eq!(c.output, code(&["X", "END"]));
    assert_eq!(c.look(), Some('e'));
    let mut c = Cradle::new(b"x l");
    assert_eq!(
        c.do_program(),
        Err(TranslateError::UnexpectedToken("End".to_string()))
    );
    assert_eq!(c.output, code(&["X"]));
    let mut c = Cradle::new(b"x");
    assert_eq!(
        c.do_program(),
        Err(TranslateError::UnexpectedToken("Name".to_string()))
    );
}

#[test]
fn block_stops_at_each_terminator() {
    for end in ['e', 'l', 'u'] {
        let input = format!("x y {} z", end);
        let mut c = Cradle::new(input.as_bytes());
        assert_eq!(c.block(""), Ok(()));
        assert_eq!(c.output, code(&["X", "Y"]));
        assert_eq!(c.look(), Some(end));
    }
}

#[test]
fn block_translates_assignments() {
    let mut c = Cradle::new(b"x = 1 y x=y+1 e");
    assert_eq!(c.block(""), Ok(()));
    assert_eq!(
        c.output,
        code(&[
            "MOVE #1,D0",
            "LEA X(PC),A0",
            "MOVE D0,(A0)",
            "Y",
            "MOVE Y(PC),D0",
            "MOVE D0,-(SP)",
            "MOVE #1,D0",
            "ADD (SP)+,D0",
            "LEA X(PC),A0",
            "MOVE D0,(A0)",
        ])
    );
}

#[test]
fn condition_is_a_marker() {
    let mut c = Cradle::new(b"x");
    c.condition();
    assert_eq!(c.output, "\t<condition>\n");
    assert_eq!(c.look(), Some('x'));
}

#[test]
fn labels_are_placed_once_and_jumps_find_them() {
    let input = b"w i p b e l r d 1 b e u e f k = 1 2 w b e e e p i x e e e";
    let mut c = Cradle::new(&input[..]);
    assert_eq!(c.do_program(), Ok(()));
    let mut placed = Vec::new();
    let mut jumps = Vec::new();
    for line in c.output.lines() {
        if let Some(name) = line.strip_suffix(':') {
            placed.push(name.to_string());
        } else if line.starts_with("\tB") || line.starts_with("\tDBRA") {
            let name = line.rsplit(|c| c == ' ' || c == ',').next().unwrap();
            jumps.push(name.to_string());
        }
    }
    assert_eq!(placed.len(), c.lcount);
    for n in 0..c.lcount {
        let name = format!("L{}", n);
        assert_eq!(placed.iter().filter(|p| **p == name).count(), 1);
    }
    assert!(!jumps.is_empty());
    for jump in jumps {
        assert!(placed.contains(&jump));
    }
}
