use lisp::sexpr::SExpr;

#[test]
fn test_sexpr_lex_bool() {
    for s in vec!["true", "false"] {
        assert_eq!(SExpr::lex(s), vec![s]);
    }
}

#[test]
fn test_sexpr_lex_number() {
    for s in vec!["1", "1.23"] {
        assert_eq!(SExpr::lex(s), vec![s]);
    }
}

#[test]
fn test_sexpr_lex_str() {
    for s in vec!["\"hello world\"", "\"hello \\\" world\""] {
        assert_eq!(SExpr::lex(s), vec![s]);
    }
}

#[test]
fn test_sexpr_lex_symbol() {
    for s in vec!["symbol"] {
        assert_eq!(SExpr::lex(s), vec![s]);
    }
}

#[test]
fn test_sexpr_lex_complex() {
    let s = "(thing 2 (thing 1 1.23 'c' \"hello\\\" world\"))";
    let tokens = SExpr::lex(s);

    assert_eq!(
        tokens,
        vec![
            "(",
            "thing",
            "2",
            "(",
            "thing",
            "1",
            "1.23",
            "'c'",
            "\"hello\\\" world\"",
            ")",
            ")"
        ]
    );
}

#[test]
fn lex_list_of_two() {
    assert_eq!(SExpr::lex("(a b)"), vec!["(", "a", "b", ")"]);
}

#[test]
fn lex_parens_end_a_plain_token() {
    assert_eq!(SExpr::lex("a(b)c"), vec!["a", "(", "b", ")", "c"]);
}

#[test]
fn lex_parens_inside_a_string_are_content() {
    assert_eq!(SExpr::lex("(\"a (b)\")"), vec!["(", "\"a (b)\"", ")"]);
}

#[test]
fn lex_unterminated_string_is_kept() {
    assert_eq!(SExpr::lex("x \"abc d"), vec!["x", "\"abc d"]);
}

#[test]
fn lex_empty_and_blank() {
    assert_eq!(SExpr::lex(""), Vec::<String>::new());
    assert_eq!(SExpr::lex(" \t\n "), Vec::<String>::new());
}

#[test]
fn lex_unicode_whitespace_separates() {
    assert_eq!(SExpr::lex("a\u{3000}b\u{a0}c"), vec!["a", "b", "c"]);
}
