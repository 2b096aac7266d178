use lisp::builtins::{eval_builtin, is_builtin};
use lisp::context::EvalContext;
use lisp::decimal::SCALE;
use lisp::error::LispError;
use lisp::sexpr::SExpr;

fn run(ctx: &mut EvalContext, src: &str) -> Result<String, String> {
    let e = SExpr::parse_text(src).expect("an expression");
    match e.eval(ctx) {
        Ok(v) => Ok(v.to_text()),
        Err(err) => Err(err.message().to_string()),
    }
}

#[test]
fn add_two_numbers() {
    let mut ctx = EvalContext::new();
    let e = SExpr::parse_text("(+ 1 2)").unwrap();
    assert!(matches!(e.eval(&mut ctx), Ok(SExpr::Num(n)) if n == 3 * SCALE));
}

#[test]
fn add_decimals_exactly() {
    let mut ctx = EvalContext::new();
    assert_eq!(run(&mut ctx, "(+ 1.5 2.25)"), Ok("3.75".to_string()));
    assert_eq!(run(&mut ctx, "(+ 0.1 0.2)"), Ok("0.3".to_string()));
    assert_eq!(run(&mut ctx, "(+ -1 0.5)"), Ok("-0.5".to_string()));
}

#[test]
fn add_resolves_symbols_once() {
    let mut ctx = EvalContext::new();
    assert_eq!(run(&mut ctx, "(def a 10)"), Ok("10".to_string()));
    assert_eq!(run(&mut ctx, "(+ a -4 1)"), Ok("7".to_string()));
    assert_eq!(run(&mut ctx, "(+)"), Ok("0".to_string()));
}

#[test]
fn add_rejects_non_numbers() {
    let mut ctx = EvalContext::new();
    assert_eq!(
        run(&mut ctx, "(+ 1 (+ 1 2))"),
        Err("attempted to add non-number '(+ 1 2)'".to_string())
    );
    assert_eq!(run(&mut ctx, "(+ 1 \"s\")"), Err("attempted to add non-number '\"s\"'".to_string()));
    assert_eq!(run(&mut ctx, "(def t true)"), Ok("true".to_string()));
    assert_eq!(run(&mut ctx, "(+ t)"), Err("attempted to add non-number 'true'".to_string()));
    assert_eq!(run(&mut ctx, "(+ zz)"), Err("failed to retrieve symbol 'zz'".to_string()));
}

#[test]
fn add_reports_overflow() {
    let mut ctx = EvalContext::new();
    assert_eq!(
        run(&mut ctx, "(+ 9223372036854.775807 0.000001)"),
        Err("sum out of the 64-bit range".to_string())
    );
    assert_eq!(
        run(&mut ctx, "(+ -9223372036854.775808 -0.000001)"),
        Err("sum out of the 64-bit range".to_string())
    );
    assert_eq!(
        run(&mut ctx, "(+ 9223372036854.775807 -1 1)"),
        Ok("9223372036854.775807".to_string())
    );
}

#[test]
fn let_scopes_its_bindings() {
    let mut ctx = EvalContext::new();
    let e = SExpr::parse_text("(let ((x 1) (y 2)) (+ x y))").unwrap();
    assert!(matches!(e.eval(&mut ctx), Ok(SExpr::Num(n)) if n == 3 * SCALE));
    assert!(ctx.get("x").is_err());
    assert_eq!(ctx.depth(), 1);
}

#[test]
fn let_bindings_do_not_see_each_other() {
    let mut ctx = EvalContext::new();
    assert_eq!(run(&mut ctx, "(let ((x 1) (y x)) y)"), Err("failed to retrieve symbol 'x'".to_string()));
    assert_eq!(ctx.depth(), 1);
}

#[test]
fn let_body_yields_last_value_or_empty_list() {
    let mut ctx = EvalContext::new();
    assert_eq!(run(&mut ctx, "(let ((x 1)) x 2 (+ x 5))"), Ok("6".to_string()));
    assert_eq!(run(&mut ctx, "(let ((x 1)))"), Ok("()".to_string()));
    assert_eq!(run(&mut ctx, "(let ())"), Ok("()".to_string()));
}

#[test]
fn let_frame_goes_even_when_body_fails() {
    let mut ctx = EvalContext::new();
    assert_eq!(run(&mut ctx, "(let ((x 1)) nope)"), Err("failed to retrieve symbol 'nope'".to_string()));
    assert_eq!(ctx.depth(), 1);
    assert!(ctx.get("x").is_err());
}

#[test]
fn let_malformed() {
    let mut ctx = EvalContext::new();
    assert_eq!(run(&mut ctx, "(let)"), Err("let must contain bindings list".to_string()));
    assert_eq!(run(&mut ctx, "(let x 1)"), Err("let must contain bindings list".to_string()));
    assert_eq!(run(&mut ctx, "(let (x) 1)"), Err("let binding must be list".to_string()));
    assert_eq!(run(&mut ctx, "(let ((x 1 2)) 1)"), Err("invalid let binding".to_string()));
    assert_eq!(run(&mut ctx, "(let ((1 2)) 1)"), Err("let binding must name a symbol".to_string()));
    assert_eq!(ctx.depth(), 1);
}

#[test]
fn def_persists_in_same_environment() {
    let mut ctx = EvalContext::new();
    let d = SExpr::parse_text("(def x 5)").unwrap();
    assert!(matches!(d.eval(&mut ctx), Ok(SExpr::Num(n)) if n == 5 * SCALE));
    let x = SExpr::parse_text("x").unwrap();
    assert!(matches!(x.eval(&mut ctx), Ok(SExpr::Num(n)) if n == 5 * SCALE));
}

#[test]
fn def_grows_the_stack_by_one_frame() {
    let mut ctx = EvalContext::new();
    assert_eq!(ctx.depth(), 1);
    assert_eq!(run(&mut ctx, "(def x (+ 1 2))"), Ok("3".to_string()));
    assert_eq!(ctx.depth(), 2);
    assert_eq!(run(&mut ctx, "(def x 4)"), Ok("4".to_string()));
    assert_eq!(ctx.depth(), 3);
    assert_eq!(run(&mut ctx, "x"), Ok("4".to_string()));
}

#[test]
fn def_inside_let_keeps_its_frame() {
    let mut ctx = EvalContext::new();
    assert_eq!(run(&mut ctx, "(let ((x 1)) (def y x))"), Ok("1".to_string()));
    assert_eq!(ctx.depth(), 2);
    assert_eq!(run(&mut ctx, "y"), Ok("1".to_string()));
    assert!(ctx.get("x").is_err());
}

#[test]
fn def_errors() {
    let mut ctx = EvalContext::new();
    assert_eq!(run(&mut ctx, "(def x)"), Err("def must be used with exactly 2 args, not 1".to_string()));
    assert_eq!(
        run(&mut ctx, "(def x 1 2)"),
        Err("def must be used with exactly 2 args, not 3".to_string())
    );
    assert_eq!(run(&mut ctx, "(def 1 2)"), Err("cannot define place with non-symbol name".to_string()));
    assert_eq!(run(&mut ctx, "(def x y)"), Err("failed to retrieve symbol 'y'".to_string()));
    assert_eq!(ctx.depth(), 1);
}

#[test]
fn empty_list_evaluates_to_itself() {
    let mut ctx = EvalContext::new();
    let e = SExpr::parse_text("()").unwrap();
    match e.eval(&mut ctx) {
        Ok(SExpr::List(items)) => assert!(items.is_empty()),
        other => panic!("unexpected {:?}", other),
    }
}

#[test]
fn undefined_symbol_fails() {
    let mut ctx = EvalContext::new();
    let e = SExpr::parse_text("undefined_symbol").unwrap();
    match e.eval(&mut ctx) {
        Err(err) => assert!(err.message().contains("undefined_symbol")),
        Ok(v) => panic!("unexpected {:?}", v),
    }
}

#[test]
fn literals_evaluate_to_themselves() {
    let mut ctx = EvalContext::new();
    assert_eq!(run(&mut ctx, "true"), Ok("true".to_string()));
    assert_eq!(run(&mut ctx, "-3"), Ok("-3".to_string()));
    assert_eq!(run(&mut ctx, "\"s\""), Ok("\"s\"".to_string()));
}

#[test]
fn eval_builtin_sequences_and_returns_last() {
    let mut ctx = EvalContext::new();
    assert_eq!(run(&mut ctx, "(eval (def a 1) (+ a 1))"), Ok("2".to_string()));
    assert_eq!(run(&mut ctx, "(eval)"), Ok("()".to_string()));
    assert_eq!(run(&mut ctx, "(eval zz (def b 1))"), Err("failed to retrieve symbol 'zz'".to_string()));
    assert!(ctx.get("b").is_err());
}

#[test]
fn unknown_operator_and_bad_head() {
    let mut ctx = EvalContext::new();
    assert_eq!(
        run(&mut ctx, "(frob 1)"),
        Err("failed to evaluate 'frob', unknown builtin or function name".to_string())
    );
    assert_eq!(
        run(&mut ctx, "(1 2)"),
        Err("failed to evaluate list with head '1'".to_string())
    );
    assert_eq!(
        run(&mut ctx, "((a b) 2)"),
        Err("failed to evaluate list with head '(a b)'".to_string())
    );
}

#[test]
fn calling_a_list_bound_symbol_is_reported() {
    let mut ctx = EvalContext::new();
    assert_eq!(run(&mut ctx, "(def f ())"), Ok("()".to_string()));
    assert_eq!(
        run(&mut ctx, "(f 1)"),
        Err("cannot call 'f': user-defined procedures are not implemented".to_string())
    );
}

#[test]
fn builtin_registry() {
    for name in ["+", "def", "eval", "let"] {
        assert!(is_builtin(name));
    }
    for name in ["-", "de", "lets", ""] {
        assert!(!is_builtin(name));
    }
    let mut ctx = EvalContext::new();
    let r = eval_builtin("nope", &mut ctx, Vec::new());
    assert_eq!(r.unwrap_err().message(), "no such builtin 'nope'");
    let r = eval_builtin("+", &mut ctx, vec![SExpr::Num(2), SExpr::Num(5)]);
    assert!(matches!(r, Ok(SExpr::Num(7))));
}

#[test]
fn context_set_get_push_pop() {
    let mut ctx = EvalContext::new();
    assert_eq!(ctx.pop().unwrap_err().message(), "attempted to pop the root frame");
    assert_eq!(
        ctx.set("x", SExpr::Num(1)).unwrap_err().message(),
        "failed to set symbol 'x'"
    );
    assert!(ctx.push(vec![("x".to_string(), SExpr::Num(1))]).is_ok());
    assert!(ctx.push(vec![("x".to_string(), SExpr::Num(2))]).is_ok());
    assert!(matches!(ctx.get("x"), Ok(SExpr::Num(2))));
    assert!(matches!(ctx.set("x", SExpr::Num(9)), Ok(SExpr::Num(9))));
    assert!(matches!(ctx.get("x"), Ok(SExpr::Num(9))));
    assert!(ctx.pop().is_ok());
    assert!(matches!(ctx.get("x"), Ok(SExpr::Num(1))));
    assert!(ctx.pop().is_ok());
    assert!(ctx.get("x").is_err());
    assert!(ctx.pop().is_err());
    assert_eq!(ctx.depth(), 1);
}

#[test]
fn later_entry_of_a_frame_wins() {
    let mut ctx = EvalContext::new();
    assert_eq!(run(&mut ctx, "(let ((x 1) (x 2)) x)"), Ok("2".to_string()));
}

#[test]
fn error_new_keeps_message() {
    let e = LispError::new("boom");
    assert_eq!(e.message(), "boom");
}
