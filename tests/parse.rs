use lisp::decimal::SCALE;
use lisp::sexpr::{check_nesting, SExpr, MAX_DEPTH};

fn parse_first(s: &str) -> SExpr {
    SExpr::parse_text(s).expect("an expression")
}

#[test]
fn parse_literals() {
    assert!(matches!(parse_first("true"), SExpr::Bool(true)));
    assert!(matches!(parse_first("false"), SExpr::Bool(false)));
    assert!(matches!(parse_first("42"), SExpr::Num(n) if n == 42 * SCALE));
    assert!(matches!(parse_first("-7"), SExpr::Num(n) if n == -7 * SCALE));
    assert!(matches!(parse_first("1.5"), SExpr::Num(1_500_000)));
    assert!(matches!(parse_first("-0.25"), SExpr::Num(-250_000)));
    assert!(matches!(parse_first("0.000001"), SExpr::Num(1)));
    assert!(matches!(parse_first("-9223372036854.775808"), SExpr::Num(i64::MIN)));
    assert!(matches!(parse_first("9223372036854.775807"), SExpr::Num(i64::MAX)));
    match parse_first("\"hi there\"") {
        SExpr::Str(s) => assert_eq!(s, "hi there"),
        other => panic!("unexpected {:?}", other),
    }
    match parse_first("abc") {
        SExpr::Symbol(s) => assert_eq!(s, "abc"),
        other => panic!("unexpected {:?}", other),
    }
}

#[test]
fn parse_out_of_range_and_non_integers_are_symbols() {
    for s in ["9223372036854.775808", "9223372036855", "1.", ".5", "1.2345678", "1.2.3", "-", "+3", "1e3"] {
        match parse_first(s) {
            SExpr::Symbol(t) => assert_eq!(t, s),
            other => panic!("unexpected {:?}", other),
        }
    }
}

#[test]
fn numbers_print_in_shortest_form() {
    for (text, printed) in [("1.50", "1.5"), ("007", "7"), ("-0", "0"), ("2.000000", "2"), ("-0.05", "-0.05")] {
        assert_eq!(parse_first(text).to_text(), printed);
    }
}

#[test]
fn parse_nested_list_prints_back() {
    let e = parse_first("(a (b \"c d\" 3) () true)");
    assert_eq!(e.to_text(), "(a (b \"c d\" 3) () true)");
}

#[test]
fn parse_steps_through_several_expressions() {
    let tokens = SExpr::lex("1 (a b) c");
    let mut pos: usize = 0;
    let mut out = Vec::new();
    while let Some(e) = SExpr::parse(&tokens, &mut pos) {
        out.push(e.to_text());
    }
    assert_eq!(out, vec!["1", "(a b)", "c"]);
    assert_eq!(pos, tokens.len());
    assert!(SExpr::parse(&tokens, &mut pos).is_none());
}

#[test]
fn parse_unclosed_list_takes_the_rest() {
    assert_eq!(parse_first("(a (b c").to_text(), "(a (b c))");
}

#[test]
fn parse_nothing_from_empty_text() {
    assert!(SExpr::parse_text("   ").is_none());
}

#[test]
fn parse_all_reads_every_expression() {
    let tokens = SExpr::lex("x (y) \"z\"");
    let items: Vec<String> = SExpr::parse_all(&tokens).iter().map(|e| e.to_text()).collect();
    assert_eq!(items, vec!["x", "(y)", "\"z\""]);
}

#[test]
fn quoted_token_keeps_escapes() {
    match parse_first("\"a\\\"b\"") {
        SExpr::Str(s) => assert_eq!(s, "a\\\"b"),
        other => panic!("unexpected {:?}", other),
    }
}

#[test]
fn printed_literals_read_back() {
    let values = vec![
        SExpr::Bool(true),
        SExpr::Bool(false),
        SExpr::Num(0),
        SExpr::Num(-42),
        SExpr::Num(i64::MIN),
        SExpr::Num(i64::MAX),
        SExpr::Num(1_500_000),
        SExpr::Num(-7),
        SExpr::Str("a b (c)".to_string()),
        SExpr::Str("say \\\"hi\\\"".to_string()),
        SExpr::Symbol("foo-bar?".to_string()),
    ];
    for v in values {
        let printed = v.to_text();
        let tokens = SExpr::lex(&printed);
        assert_eq!(tokens.len(), 1);
        let back = SExpr::parse_text(&printed).expect("an expression");
        assert_eq!(back.to_text(), printed);
        assert_eq!(format!("{:?}", back), format!("{:?}", v));
    }
}

#[test]
fn from_str_reads_first_expression() {
    let e: SExpr = "(+ 1 2)".parse().expect("parses");
    assert_eq!(e.to_text(), "(+ 1 2)");
    assert!("".parse::<SExpr>().is_err());
}

#[test]
fn nesting_up_to_the_limit_is_accepted() {
    let text = format!("{}{}", "(".repeat(MAX_DEPTH), ")".repeat(MAX_DEPTH));
    assert!(check_nesting(&SExpr::lex(&text)).is_ok());
    assert!(check_nesting(&SExpr::lex(") ) ( a ) ( b )")).is_ok());
}

#[test]
fn nesting_past_the_limit_is_refused() {
    let text = "(".repeat(MAX_DEPTH + 1);
    let err = check_nesting(&SExpr::lex(&text)).unwrap_err();
    assert_eq!(err.message(), "too deeply nested");
    let text = format!("{}{}", ")".repeat(3), "(".repeat(MAX_DEPTH + 1));
    assert!(check_nesting(&SExpr::lex(&text)).is_err());
}
