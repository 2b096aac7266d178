use vstd::prelude::*;

use crate::context::{lookup, unbound_msg, EvalContext, Frame};
use crate::error::{LispError, LispResult};
use crate::sexpr::{print, views, SExpr, Val};
use crate::context::frame_view;
use crate::sexpr::lemma_list_view;
use crate::text::{nat_text, push_nat, push_text, text_eq};

verus! {

broadcast use {vstd::seq::axiom_seq_subrange_decreases, vstd::seq::axiom_seq_index_decreases};

/// The operators that the evaluator handles itself; each takes its arguments unevaluated.
pub enum Builtin {
    Add,
    Def,
    Eval,
    Let,
}

/// The builtin that `name` names, if any.
pub open spec fn builtin_of(name: Seq<char>) -> Option<Builtin> {
    if name == "+"@ {
        Some(Builtin::Add)
    } else if name == "def"@ {
        Some(Builtin::Def)
    } else if name == "eval"@ {
        Some(Builtin::Eval)
    } else if name == "let"@ {
        Some(Builtin::Let)
    } else {
        None
    }
}

/// An environment and the outcome of an evaluation in it.
pub type Outcome = (Seq<Frame>, Result<Val, Seq<char>>);

pub open spec fn non_number_msg(v: Val) -> Seq<char> {
    "attempted to add non-number '"@ + print(v) + "'"@
}

pub open spec fn overflow_msg() -> Seq<char> {
    "sum out of the 64-bit range"@
}

pub open spec fn def_arity_msg(n: int) -> Seq<char> {
    "def must be used with exactly 2 args, not "@ + nat_text(n as nat)
}

pub open spec fn def_name_msg() -> Seq<char> {
    "cannot define place with non-symbol name"@
}

pub open spec fn let_bindings_msg() -> Seq<char> {
    "let must contain bindings list"@
}

pub open spec fn let_binding_list_msg() -> Seq<char> {
    "let binding must be list"@
}

pub open spec fn let_binding_shape_msg() -> Seq<char> {
    "invalid let binding"@
}

pub open spec fn let_binding_name_msg() -> Seq<char> {
    "let binding must name a symbol"@
}

pub open spec fn unknown_op_msg(s: Seq<char>) -> Seq<char> {
    "failed to evaluate '"@ + s + "', unknown builtin or function name"@
}

pub open spec fn procedure_msg(s: Seq<char>) -> Seq<char> {
    "cannot call '"@ + s + "': user-defined procedures are not implemented"@
}

pub open spec fn bad_head_msg(h: Val) -> Seq<char> {
    "failed to evaluate list with head '"@ + print(h) + "'"@
}

/// An argument of `+`: a symbol is looked up once, and the value must be a number.
pub open spec fn add_operand(env: Seq<Frame>, a: Val) -> Result<int, Seq<char>> {
    let v = match a {
        Val::Symbol(s) => match lookup(env, s) {
            Some(v) => Ok(v),
            None => Err(unbound_msg(s)),
        },
        _ => Ok(a),
    };
    match v {
        Ok(Val::Num(n)) => Ok(n),
        Ok(w) => Err(non_number_msg(w)),
        Err(m) => Err(m),
    }
}

/// The sum of `acc` and the operands, left to right; the first failure ends it.
pub open spec fn add_fold(env: Seq<Frame>, args: Seq<Val>, acc: int) -> Result<int, Seq<char>>
    decreases args.len(),
{
    if args.len() == 0 {
        Ok(acc)
    } else {
        match add_operand(env, args[0]) {
            Err(m) => Err(m),
            Ok(n) => if i64::MIN <= acc + n <= i64::MAX {
                add_fold(env, args.subrange(1, args.len() as int), acc + n)
            } else {
                Err(overflow_msg())
            },
        }
    }
}

/// Evaluates `xs` in order; the value is that of the last, or `last` where none is left.
pub open spec fn eval_rest(env: Seq<Frame>, xs: Seq<Val>, last: Val) -> Outcome
    decreases xs, 1int,
{
    if xs.len() == 0 {
        (env, Ok(last))
    } else {
        let (e1, r) = eval_one(env, xs[0]);
        match r {
            Err(m) => (e1, Err(m)),
            Ok(v) => eval_rest(e1, xs.subrange(1, xs.len() as int), v),
        }
    }
}

/// Evaluates `xs` in order and yields the value of the last; the empty list where `xs` is
/// empty.
pub open spec fn eval_seq(env: Seq<Frame>, xs: Seq<Val>) -> Outcome
    decreases xs, 2int,
{
    eval_rest(env, xs, Val::List(Seq::empty()))
}

/// Evaluates one expression.
pub open spec fn eval_one(env: Seq<Frame>, e: Val) -> Outcome
    decreases e, 0int,
{
    match e {
        Val::Symbol(s) => match lookup(env, s) {
            Some(v) => (env, Ok(v)),
            None => (env, Err(unbound_msg(s))),
        },
        Val::List(xs) => if xs.len() == 0 {
            (env, Ok(e))
        } else {
            match xs[0] {
                Val::Symbol(s) => match builtin_of(s) {
                    Some(b) => apply(env, b, xs.subrange(1, xs.len() as int)),
                    None => match lookup(env, s) {
                        Some(Val::List(_)) => (env, Err(procedure_msg(s))),
                        _ => (env, Err(unknown_op_msg(s))),
                    },
                },
                h => (env, Err(bad_head_msg(h))),
            }
        },
        _ => (env, Ok(e)),
    }
}

/// Runs a builtin on unevaluated arguments.
pub open spec fn apply(env: Seq<Frame>, b: Builtin, args: Seq<Val>) -> Outcome
    decreases args, 3int,
{
    match b {
        Builtin::Add => match add_fold(env, args, 0) {
            Ok(n) => (env, Ok(Val::Num(n))),
            Err(m) => (env, Err(m)),
        },
        Builtin::Def => def_spec(env, args),
        Builtin::Eval => eval_seq(env, args),
        Builtin::Let => let_spec(env, args),
    }
}

/// `def`: binds a symbol to the value of an expression in a new frame that stays.
pub open spec fn def_spec(env: Seq<Frame>, args: Seq<Val>) -> Outcome
    decreases args, 1int,
{
    if args.len() != 2 {
        (env, Err(def_arity_msg(args.len() as int)))
    } else {
        match args[0] {
            Val::Symbol(s) => {
                let (e1, r) = eval_one(env, args[1]);
                match r {
                    Ok(v) => (e1.push(seq![(s, v)]), Ok(v)),
                    Err(m) => (e1, Err(m)),
                }
            },
            _ => (env, Err(def_name_msg())),
        }
    }
}

/// Evaluates the binding pairs of a `let` in order, into the frame they make.
pub open spec fn let_binds(env: Seq<Frame>, bs: Seq<Val>) -> (Seq<Frame>, Result<Frame, Seq<char>>)
    decreases bs, 1int,
{
    if bs.len() == 0 {
        (env, Ok(Seq::empty()))
    } else {
        match bs[0] {
            Val::List(pair) => if pair.len() != 2 {
                (env, Err(let_binding_shape_msg()))
            } else {
                match pair[0] {
                    Val::Symbol(s) => {
                        let (e1, r) = eval_one(env, pair[1]);
                        match r {
                            Err(m) => (e1, Err(m)),
                            Ok(v) => {
                                let (e2, rest) = let_binds(e1, bs.subrange(1, bs.len() as int));
                                match rest {
                                    Ok(f) => (e2, Ok(seq![(s, v)] + f)),
                                    Err(m) => (e2, Err(m)),
                                }
                            },
                        }
                    },
                    _ => (env, Err(let_binding_name_msg())),
                }
            },
            _ => (env, Err(let_binding_list_msg())),
        }
    }
}

/// `let`: evaluates the bindings, pushes them as one frame, evaluates the body in it, and
/// removes that frame again, whatever the body did.
pub open spec fn let_spec(env: Seq<Frame>, args: Seq<Val>) -> Outcome
    decreases args, 1int,
{
    if args.len() == 0 || !(args[0] is List) {
        (env, Err(let_bindings_msg()))
    } else {
        let (e1, r) = let_binds(env, args[0]->List_0);
        match r {
            Err(m) => (e1, Err(m)),
            Ok(f) => {
                let (e2, r2) = eval_seq(e1.push(f), args.subrange(1, args.len() as int));
                (e2.remove(e1.len() as int), r2)
            },
        }
    }
}

pub open spec fn no_builtin_msg(s: Seq<char>) -> Seq<char> {
    "no such builtin '"@ + s + "'"@
}

/// The value of an executable result.
pub open spec fn res_view(r: LispResult<SExpr>) -> Result<Val, Seq<char>> {
    match r {
        Ok(e) => Ok(e@),
        Err(e) => Err(e@),
    }
}

/// The builtin that `name` names, if any.
pub fn lookup_builtin(name: &str) -> (r: Option<Builtin>)
    ensures
        r == builtin_of(name@),
{
    if text_eq(name, "+") {
        Some(Builtin::Add)
    } else if text_eq(name, "def") {
        Some(Builtin::Def)
    } else if text_eq(name, "eval") {
        Some(Builtin::Eval)
    } else if text_eq(name, "let") {
        Some(Builtin::Let)
    } else {
        None
    }
}

/// Whether `name` names a builtin.
pub fn is_builtin(name: &str) -> (r: bool)
    ensures
        r == builtin_of(name@) is Some,
{
    lookup_builtin(name).is_some()
}

/// Copies of `v[from..]`.
fn copy_from(v: &Vec<SExpr>, from: usize) -> (r: Vec<SExpr>)
    requires
        from <= v@.len(),
    ensures
        views(r@) == views(v@).subrange(from as int, v@.len() as int),
{
    let mut out: Vec<SExpr> = Vec::new();
    let mut i: usize = from;
    while i < v.len()
        invariant
            from <= i <= v@.len(),
            views(out@) == views(v@).subrange(from as int, i as int),
        decreases v@.len() - i,
    {
        let ghost before = views(out@);
        out.push(v[i].copy());
        i = i + 1;
        assert(views(out@) =~= before.push(v@[i - 1]@));
        assert(views(v@).subrange(from as int, i as int) =~= views(v@).subrange(
            from as int,
            i - 1,
        ).push(v@[i - 1]@));
    }
    out
}

/// One argument of `+`, as `add_operand` says.
fn add_operand_impl(ctx: &EvalContext, a: &SExpr) -> (r: LispResult<i64>)
    ensures
        match r {
            Ok(n) => add_operand(ctx@, a@) == Ok::<int, Seq<char>>(n as int),
            Err(e) => add_operand(ctx@, a@) == Err::<int, Seq<char>>(e@),
        },
{
    let v: &SExpr = match a {
        SExpr::Symbol(s) => match ctx.get(s.as_str()) {
            Ok(v) => v,
            Err(e) => {
                return Err(e);
            },
        },
        _ => a,
    };
    match v {
        SExpr::Num(n) => Ok(*n),
        _ => Err(LispError::framed("attempted to add non-number '", v.to_text().as_str(), "'")),
    }
}

/// `+`: the sum of the arguments, each a number or a symbol bound to one.
pub fn add_impl(ctx: &mut EvalContext, args: Vec<SExpr>) -> (r: LispResult<SExpr>)
    ensures
        (final(ctx)@, res_view(r)) == apply(old(ctx)@, Builtin::Add, views(args@)),
{
    let ghost xs = views(args@);
    let mut acc: i64 = 0;
    let mut i: usize = 0;
    assert(xs.subrange(0, xs.len() as int) =~= xs);
    while i < args.len()
        invariant
            i <= args@.len(),
            xs == views(args@),
            add_fold(ctx@, xs, 0) == add_fold(ctx@, xs.subrange(i as int, xs.len() as int), acc as int),
        decreases args@.len() - i,
    {
        let ghost tail = xs.subrange(i as int, xs.len() as int);
        assert(tail[0] == args@[i as int]@);
        assert(tail.subrange(1, tail.len() as int) =~= xs.subrange(i + 1, xs.len() as int));
        match add_operand_impl(ctx, &args[i]) {
            Ok(n) => {
                let sum: i128 = acc as i128 + n as i128;
                if sum < -9223372036854775808i128 || sum > 9223372036854775807i128 {
                    return Err(LispError::new("sum out of the 64-bit range"));
                }
                acc = sum as i64;
            },
            Err(e) => {
                return Err(e);
            },
        }
        i = i + 1;
    }
    assert(xs.subrange(i as int, xs.len() as int) =~= Seq::<Val>::empty());
    Ok(SExpr::Num(acc))
}

/// `def`, as `def_spec` says.
pub fn def_impl(ctx: &mut EvalContext, args: Vec<SExpr>) -> (r: LispResult<SExpr>)
    ensures
        (final(ctx)@, res_view(r)) == def_spec(old(ctx)@, views(args@)),
        final(ctx)@.len() >= old(ctx)@.len(),
    decreases views(args@), 1int,
{
    if args.len() != 2 {
        let mut m = String::new();
        push_text(&mut m, "def must be used with exactly 2 args, not ");
        push_nat(&mut m, args.len() as u64);
        return Err(LispError::from_message(m));
    }
    match &args[0] {
        SExpr::Symbol(s) => {
            proof {
                assert(views(args@)[1] == args@[1]@);
            }
            match eval_expr(ctx, &args[1]) {
                Ok(v) => {
                    let frame = vec![(s.clone(), v.copy())];
                    assert(frame_view(frame@) =~= seq![(s@, v@)]);
                    let _ = ctx.push(frame);
                    Ok(v)
                },
                Err(e) => Err(e),
            }
        },
        _ => Err(LispError::new("cannot define place with non-symbol name")),
    }
}

/// The frame under construction prefixed to what the remaining bindings give.
pub open spec fn with_prefix(acc: Frame, o: (Seq<Frame>, Result<Frame, Seq<char>>)) -> (
    Seq<Frame>,
    Result<Frame, Seq<char>>,
) {
    match o.1 {
        Ok(f) => (o.0, Ok(acc + f)),
        Err(m) => (o.0, Err(m)),
    }
}

/// The bindings of a `let`, as `let_binds` says.
fn let_binds_impl(ctx: &mut EvalContext, bs: &Vec<SExpr>) -> (r: Result<
    Vec<(String, SExpr)>,
    LispError,
>)
    ensures
        final(ctx)@.len() >= old(ctx)@.len(),
        let_binds(old(ctx)@, views(bs@)) == (final(ctx)@, match r {
            Ok(f) => Ok::<Frame, Seq<char>>(frame_view(f@)),
            Err(e) => Err::<Frame, Seq<char>>(e@),
        }),
    decreases views(bs@), 1int,
{
    let ghost xs = views(bs@);
    let mut frame: Vec<(String, SExpr)> = Vec::new();
    let mut i: usize = 0;
    assert(xs.subrange(0, xs.len() as int) =~= xs);
    assert(frame_view(frame@) + Seq::<(Seq<char>, Val)>::empty() =~= Seq::<(Seq<char>, Val)>::empty());
    while i < bs.len()
        invariant
            i <= bs@.len(),
            xs == views(bs@),
            ctx@.len() >= old(ctx)@.len(),
            let_binds(old(ctx)@, xs) == with_prefix(
                frame_view(frame@),
                let_binds(ctx@, xs.subrange(i as int, xs.len() as int)),
            ),
        decreases bs@.len() - i,
    {
        let ghost tail = xs.subrange(i as int, xs.len() as int);
        let ghost env0 = ctx@;
        assert(tail[0] == bs@[i as int]@);
        assert(tail.subrange(1, tail.len() as int) =~= xs.subrange(i + 1, xs.len() as int));
        match &bs[i] {
            SExpr::List(pair) => {
                proof {
                    lemma_list_view(*pair);
                }
                if pair.len() != 2 {
                    return Err(LispError::new("invalid let binding"));
                }
                match &pair[0] {
                    SExpr::Symbol(s) => {
                        proof {
                            assert(views(pair@)[1] == pair@[1]@);
                            assert(decreases_to!(xs => xs[i as int]));
                            assert(decreases_to!(xs[i as int] => views(pair@)));
                            assert(decreases_to!(views(pair@) => views(pair@)[1]));
                        }
                        match eval_expr(ctx, &pair[1]) {
                            Ok(v) => {
                                let ghost f0 = frame_view(frame@);
                                frame.push((s.clone(), v));
                                assert(frame_view(frame@) =~= f0.push((s@, frame@.last().1@)));
                                proof {
                                    let o = let_binds(ctx@, xs.subrange(i + 1, xs.len() as int));
                                    if o.1 is Ok {
                                        assert(f0 + (seq![(s@, frame@.last().1@)] + o.1->Ok_0)
                                            =~= frame_view(frame@) + o.1->Ok_0);
                                    }
                                }
                            },
                            Err(e) => {
                                return Err(e);
                            },
                        }
                    },
                    _ => {
                        return Err(LispError::new("let binding must name a symbol"));
                    },
                }
            },
            _ => {
                return Err(LispError::new("let binding must be list"));
            },
        }
        i = i + 1;
    }
    assert(xs.subrange(i as int, xs.len() as int) =~= Seq::<Val>::empty());
    assert(frame_view(frame@) + Seq::<(Seq<char>, Val)>::empty() =~= frame_view(frame@));
    Ok(frame)
}

/// `let`, as `let_spec` says.
pub fn let_impl(ctx: &mut EvalContext, args: Vec<SExpr>) -> (r: LispResult<SExpr>)
    ensures
        (final(ctx)@, res_view(r)) == let_spec(old(ctx)@, views(args@)),
        final(ctx)@.len() >= old(ctx)@.len(),
    decreases views(args@), 1int,
{
    if args.len() == 0 {
        return Err(LispError::new("let must contain bindings list"));
    }
    assert(views(args@)[0] == args@[0]@);
    match &args[0] {
        SExpr::List(bs) => {
            proof {
                lemma_list_view(*bs);
                assert(decreases_to!(views(args@) => views(args@)[0]));
                assert(views(args@)[0]->List_0 == views(bs@));
                assert(decreases_to!(views(args@)[0] => views(args@)[0]->List_0));
            }
            match let_binds_impl(ctx, bs) {
                Err(e) => Err(e),
                Ok(frame) => {
                    let d = ctx.depth();
                    let _ = ctx.push(frame);
                    let body = copy_from(&args, 1);
                    let r = eval_impl(ctx, body);
                    ctx.remove_frame(d);
                    r
                },
            }
        },
        _ => Err(LispError::new("let must contain bindings list")),
    }
}

/// `eval`: evaluates the arguments in order and yields the value of the last.
pub fn eval_impl(ctx: &mut EvalContext, args: Vec<SExpr>) -> (r: LispResult<SExpr>)
    ensures
        (final(ctx)@, res_view(r)) == eval_seq(old(ctx)@, views(args@)),
        final(ctx)@.len() >= old(ctx)@.len(),
    decreases views(args@), 2int,
{
    let ghost xs = views(args@);
    let empty: Vec<SExpr> = Vec::new();
    proof {
        lemma_list_view(empty);
        assert(views(empty@) =~= Seq::<Val>::empty());
    }
    let mut last = SExpr::List(empty);
    let mut i: usize = 0;
    assert(xs.subrange(0, xs.len() as int) =~= xs);
    while i < args.len()
        invariant
            i <= args@.len(),
            xs == views(args@),
            ctx@.len() >= old(ctx)@.len(),
            eval_seq(old(ctx)@, xs) == eval_rest(
                ctx@,
                xs.subrange(i as int, xs.len() as int),
                last@,
            ),
        decreases args@.len() - i,
    {
        let ghost tail = xs.subrange(i as int, xs.len() as int);
        assert(tail[0] == args@[i as int]@);
        assert(tail.subrange(1, tail.len() as int) =~= xs.subrange(i + 1, xs.len() as int));
        assert(decreases_to!(xs => xs[i as int]));
        match eval_expr(ctx, &args[i]) {
            Ok(v) => {
                last = v;
            },
            Err(e) => {
                return Err(e);
            },
        }
        i = i + 1;
    }
    assert(xs.subrange(i as int, xs.len() as int) =~= Seq::<Val>::empty());
    Ok(last)
}

/// Runs builtin `b` on unevaluated arguments.
fn apply_impl(ctx: &mut EvalContext, b: Builtin, args: Vec<SExpr>) -> (r: LispResult<SExpr>)
    ensures
        (final(ctx)@, res_view(r)) == apply(old(ctx)@, b, views(args@)),
        final(ctx)@.len() >= old(ctx)@.len(),
    decreases views(args@), 3int,
{
    match b {
        Builtin::Add => add_impl(ctx, args),
        Builtin::Def => def_impl(ctx, args),
        Builtin::Eval => eval_impl(ctx, args),
        Builtin::Let => let_impl(ctx, args),
    }
}

/// Evaluates one expression, as `eval_one` says.
pub fn eval_expr(ctx: &mut EvalContext, e: &SExpr) -> (r: LispResult<SExpr>)
    ensures
        (final(ctx)@, res_view(r)) == eval_one(old(ctx)@, e@),
        final(ctx)@.len() >= old(ctx)@.len(),
    decreases e@, 0int,
{
    match e {
        SExpr::Symbol(s) => match ctx.get(s.as_str()) {
            Ok(v) => Ok(v.copy()),
            Err(err) => Err(err),
        },
        SExpr::List(v) => {
            proof {
                lemma_list_view(*v);
            }
            if v.len() == 0 {
                return Ok(e.copy());
            }
            let ghost xs = views(v@);
            assert(xs[0] == v@[0]@);
            match &v[0] {
                SExpr::Symbol(s) => match lookup_builtin(s.as_str()) {
                    Some(b) => {
                        let args = copy_from(v, 1);
                        assert(decreases_to!(e@ => xs));
                        assert(decreases_to!(xs => xs.subrange(1, xs.len() as int)));
                        apply_impl(ctx, b, args)
                    },
                    None => match ctx.get(s.as_str()) {
                        Ok(SExpr::List(_)) => Err(
                            LispError::framed(
                                "cannot call '",
                                s.as_str(),
                                "': user-defined procedures are not implemented",
                            ),
                        ),
                        _ => Err(
                            LispError::framed(
                                "failed to evaluate '",
                                s.as_str(),
                                "', unknown builtin or function name",
                            ),
                        ),
                    },
                },
                h => Err(
                    LispError::framed(
                        "failed to evaluate list with head '",
                        h.to_text().as_str(),
                        "'",
                    ),
                ),
            }
        },
        _ => Ok(e.copy()),
    }
}

/// Runs the builtin that `name` names; fails where `name` names none.
pub fn eval_builtin(name: &str, ctx: &mut EvalContext, args: Vec<SExpr>) -> (r: LispResult<SExpr>)
    ensures
        match builtin_of(name@) {
            Some(b) => (final(ctx)@, res_view(r)) == apply(old(ctx)@, b, views(args@)),
            None => final(ctx)@ == old(ctx)@ && res_view(r) == Err::<Val, Seq<char>>(
                no_builtin_msg(name@),
            ),
        },
{
    match lookup_builtin(name) {
        Some(b) => apply_impl(ctx, b, args),
        None => Err(LispError::framed("no such builtin '", name, "'")),
    }
}

} // verus!
