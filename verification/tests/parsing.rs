use typecheck::parser::{parse, try_parse, Error, ErrorKind};

#[test]
fn parses_application_left_to_right() {
    let mut src: &[u8] = b"f x1 y_2";
    let (a, errors) = parse(&mut src);
    assert!(errors.is_empty());
    assert!(src.is_empty());
    assert_eq!(format!("{a:?}"), r#"App(App(Var("f"), Var("x1")), Var("y_2"))"#);
}

#[test]
fn parses_parentheses_and_a_trailing_lambda() {
    let mut src: &[u8] = b"(f x) \\y : A. y";
    let (a, errors) = parse(&mut src);
    assert!(errors.is_empty());
    assert_eq!(
        format!("{a:?}"),
        r#"App(App(Var("f"), Var("x")), Abs("y", Var("A"), Var("y")))"#
    );
}

#[test]
fn arrow_types_nest_to_the_right() {
    let mut src: &[u8] = b"\\f : A -> (B -> C) -> D. f";
    let (a, errors) = parse(&mut src);
    assert!(errors.is_empty());
    assert_eq!(
        format!("{a:?}"),
        r#"Abs("f", Arrow(Var("A"), Arrow(Arrow(Var("B"), Var("C")), Var("D"))), Var("f"))"#
    );
}

#[test]
fn reports_trailing_input_and_leaves_it() {
    let mut src: &[u8] = b"x )";
    let (a, errors) = parse(&mut src);
    assert_eq!(format!("{a:?}"), r#"Var("x")"#);
    assert_eq!(errors, vec![Error { loc: 0, kind: ErrorKind::BadExpr }]);
    assert_eq!(src, b")");
}

#[test]
fn reports_an_unclosed_parenthesis_at_the_end() {
    let mut src: &[u8] = b"(x";
    let (a, errors) = parse(&mut src);
    assert_eq!(format!("{a:?}"), r#"Var("x")"#);
    assert_eq!(errors, vec![Error { loc: 0, kind: ErrorKind::UnclosedParen }]);
    assert!(src.is_empty());
}

#[test]
fn input_that_cannot_start_a_term_is_not_accepted() {
    for input in [&b""[..], &b")"[..], &b"\\x : A."[..], &b"  "[..]] {
        let mut src: &[u8] = input;
        assert!(try_parse(&mut src).is_none());
        assert_eq!(src, input);
    }
}

#[test]
fn lambda_errors_before_the_end_are_not_accepted() {
    // name missing, colon missing, dot missing, bad type: each is recorded
    // at the lambda's start, before the body that follows it
    for input in [&b"\\ : A. x"[..], &b"\\x A. x"[..], &b"\\x : A x"[..], &b"\\x : . x"[..]] {
        let mut src: &[u8] = input;
        assert!(try_parse(&mut src).is_none());
    }
}

#[test]
fn try_parse_agrees_with_parse() {
    let mut s1: &[u8] = b"  \\x : A. x y ";
    let mut s2: &[u8] = b"  \\x : A. x y ";
    let (a1, e1) = parse(&mut s1);
    let (a2, e2) = try_parse(&mut s2).unwrap();
    assert_eq!(a1, a2);
    assert_eq!(e1, e2);
    assert_eq!(s1, s2);
    assert!(s1.is_empty());
    assert_eq!(ErrorKind::BadType, ErrorKind::BadType);
    assert_ne!(ErrorKind::LambdaNameMissing, ErrorKind::LambdaTypeColonMissing);
    assert_ne!(ErrorKind::LambdaDotMissing, ErrorKind::UnclosedParen);
}

#[test]
fn parses_back_the_text_of_a_term() {
    // the text that the printer gives for
    // (\f : (A -> B) -> C. f g) (\y : A. y) z
    let mut src: &[u8] = b"(\\f : (A -> B) -> C. f g) (\\y : A. y) z";
    let (a, errors) = parse(&mut src);
    assert!(errors.is_empty());
    assert!(src.is_empty());
    assert_eq!(
        format!("{a:?}"),
        r#"App(App(Abs("f", Arrow(Arrow(Var("A"), Var("B")), Var("C")), App(Var("f"), Var("g"))), Abs("y", Var("A"), Var("y"))), Var("z"))"#
    );
}
