use vstd::prelude::*;

use crate::builtins::{eval_expr, eval_one, res_view};
use crate::context::EvalContext;
use crate::error::{LispError, LispResult};
use crate::decimal::{lemma_not_number, num_text, num_token, parse_num, push_num};
use crate::text::{is_whitespace, is_ws, push_char, push_text, text_eq};

verus! {

broadcast use vstd::std_specs::vec::axiom_vec_index_decreases;

/// The mathematical value of an expression.
pub enum Val {
    Bool(bool),
    /// A number in millionths.
    Num(int),
    Str(Seq<char>),
    Symbol(Seq<char>),
    List(Seq<Val>),
}

/// An expression of the language: the syntax tree and, at once, the values it evaluates to.
#[derive(Debug)]
pub enum SExpr {
    Bool(bool),
    /// A number in millionths (see `decimal::SCALE`).
    Num(i64),
    Str(String),
    Symbol(String),
    List(Vec<SExpr>),
}

impl View for SExpr {
    type V = Val;

    open spec fn view(&self) -> Val
        decreases self,
    {
        match self {
            SExpr::Bool(b) => Val::Bool(*b),
            SExpr::Num(n) => Val::Num(*n as int),
            SExpr::Str(s) => Val::Str(s@),
            SExpr::Symbol(s) => Val::Symbol(s@),
            SExpr::List(v) => Val::List(
                Seq::new(
                    v.len() as nat,
                    |i: int|
                        if 0 <= i < v.len() {
                            v[i].view()
                        } else {
                            Val::Bool(false)
                        },
                ),
            ),
        }
    }
}

/// The values of a sequence of expressions.
pub open spec fn views(v: Seq<SExpr>) -> Seq<Val> {
    Seq::new(v.len(), |i: int| v[i]@)
}

/// A list's value is the list of its items' values.
pub proof fn lemma_list_view(v: Vec<SExpr>)
    ensures
        SExpr::List(v)@ == Val::List(views(v@)),
{
    assert(SExpr::List(v)@->List_0 =~= views(v@));
}

/// The texts of a sequence of strings.
pub open spec fn texts(v: Seq<String>) -> Seq<Seq<char>> {
    Seq::new(v.len(), |i: int| v[i]@)
}

/// The printed form of a value.
pub open spec fn print(v: Val) -> Seq<char>
    decreases v,
{
    match v {
        Val::Bool(b) => if b {
            "true"@
        } else {
            "false"@
        },
        Val::Num(n) => num_text(n),
        Val::Str(s) => seq!['"'] + s + seq!['"'],
        Val::Symbol(s) => s,
        Val::List(xs) => seq!['('] + print_items(xs) + seq![')'],
    }
}

/// The printed forms of `xs`, separated by single spaces.
pub open spec fn print_items(xs: Seq<Val>) -> Seq<char>
    decreases xs,
{
    if xs.len() == 0 {
        Seq::empty()
    } else if xs.len() == 1 {
        print(xs[0])
    } else {
        print_items(xs.drop_last()) + seq![' '] + print(xs.last())
    }
}

/// Tokens read so far, and the token under way if any.
pub type LexState = (Seq<Seq<char>>, Option<Seq<char>>);

/// Whether a token under way is a quoted string.
pub open spec fn in_string(t: Seq<char>) -> bool {
    t.len() > 0 && t[0] == '"'
}

/// The tokens once the one under way, if any, is ended.
pub open spec fn flush(toks: Seq<Seq<char>>, cur: Option<Seq<char>>) -> Seq<Seq<char>> {
    match cur {
        Some(t) => toks.push(t),
        None => toks,
    }
}

/// How one character moves the tokenizer on.
pub open spec fn lex_step(st: LexState, c: char) -> LexState {
    let toks = st.0;
    let cur = st.1;
    if cur is Some && in_string(cur->0) {
        let t = cur->0;
        if c == '"' && t.last() != '\\' {
            (toks.push(t.push(c)), None)
        } else {
            (toks, Some(t.push(c)))
        }
    } else if c == '(' || c == ')' {
        (flush(toks, cur).push(seq![c]), None)
    } else if is_ws(c) {
        (flush(toks, cur), None)
    } else {
        match cur {
            Some(t) => (toks, Some(t.push(c))),
            None => (toks, Some(seq![c])),
        }
    }
}

/// The tokenizer's state after reading all of `s`.
pub open spec fn lex_state(s: Seq<char>) -> LexState
    decreases s.len(),
{
    if s.len() == 0 {
        (Seq::empty(), None)
    } else {
        lex_step(lex_state(s.drop_last()), s.last())
    }
}

/// The tokens of a text.
pub open spec fn lex_spec(s: Seq<char>) -> Seq<Seq<char>> {
    flush(lex_state(s).0, lex_state(s).1)
}

/// The index of the token that closes a list, scanning from `i` at nesting depth `d`; the
/// number of tokens where none does.
pub open spec fn close_at(t: Seq<Seq<char>>, i: int, d: nat) -> int
    decreases t.len() - i,
{
    if i < 0 || i >= t.len() {
        t.len() as int
    } else if t[i] == "("@ {
        close_at(t, i + 1, d + 1)
    } else if t[i] == ")"@ {
        if d <= 1 {
            i
        } else {
            close_at(t, i + 1, (d - 1) as nat)
        }
    } else {
        close_at(t, i + 1, d)
    }
}

/// How many tokens the first expression of `t` takes, its closing parenthesis included.
pub open spec fn span(t: Seq<Seq<char>>) -> int {
    if t.len() > 0 && t[0] == "("@ {
        let k = close_at(t, 1, 1);
        if k < t.len() {
            k + 1
        } else {
            t.len() as int
        }
    } else {
        1
    }
}

/// Whether a token is a quoted string.
pub open spec fn is_quoted(h: Seq<char>) -> bool {
    h.len() >= 2 && h[0] == '"' && h.last() == '"'
}

/// The expression that the tokens of `t` begin with.
pub open spec fn parse_one(t: Seq<Seq<char>>) -> Val
    decreases t.len(), 0int,
{
    if t.len() == 0 {
        Val::List(Seq::empty())
    } else {
        let h = t[0];
        if h == "true"@ {
            Val::Bool(true)
        } else if h == "false"@ {
            Val::Bool(false)
        } else if is_quoted(h) {
            Val::Str(h.subrange(1, h.len() - 1))
        } else if num_token(h) is Some {
            Val::Num(num_token(h)->0 as int)
        } else if h == "("@ {
            let k = close_at(t, 1, 1);
            if 1 <= k <= t.len() {
                Val::List(parse_all(t.subrange(1, k)))
            } else {
                Val::List(Seq::empty())
            }
        } else {
            Val::Symbol(h)
        }
    }
}

/// The expressions that the tokens of `t` hold, one after another.
pub open spec fn parse_all(t: Seq<Seq<char>>) -> Seq<Val>
    decreases t.len(), 1int,
{
    if t.len() == 0 {
        Seq::empty()
    } else {
        let n = span(t);
        if 1 <= n <= t.len() {
            seq![parse_one(t)] + parse_all(t.subrange(n, t.len() as int))
        } else {
            seq![parse_one(t)]
        }
    }
}

proof fn lemma_close_at(t: Seq<Seq<char>>, i: int, d: nat)
    requires
        0 <= i <= t.len(),
    ensures
        i <= close_at(t, i, d) <= t.len(),
        close_at(t, i, d) < t.len() ==> t[close_at(t, i, d)] == ")"@,
    decreases t.len() - i,
{
    if i < t.len() {
        lemma_close_at(t, i + 1, d + 1);
        if d > 1 {
            lemma_close_at(t, i + 1, (d - 1) as nat);
        }
        lemma_close_at(t, i + 1, d);
    }
}

/// The first expression of non-empty tokens takes at least one token and at most all of them.
pub proof fn lemma_span(t: Seq<Seq<char>>)
    requires
        t.len() > 0,
    ensures
        1 <= span(t) <= t.len(),
{
    if t[0] == "("@ {
        lemma_close_at(t, 1, 1);
    }
}

/// The most parentheses that may be open at once in one line of input.
pub const MAX_DEPTH: usize = 512;

/// How many parentheses are open after the first `k` tokens; a `)` with none open is ignored.
pub open spec fn depth_at(t: Seq<Seq<char>>, k: int) -> int
    decreases k,
{
    if k <= 0 {
        0
    } else if t[k - 1] == "("@ {
        depth_at(t, k - 1) + 1
    } else if t[k - 1] == ")"@ && depth_at(t, k - 1) > 0 {
        depth_at(t, k - 1) - 1
    } else {
        depth_at(t, k - 1)
    }
}

/// The most parentheses open at once within the first `k` tokens.
pub open spec fn max_depth(t: Seq<Seq<char>>, k: int) -> int
    decreases k,
{
    if k <= 0 {
        0
    } else if depth_at(t, k) > max_depth(t, k - 1) {
        depth_at(t, k)
    } else {
        max_depth(t, k - 1)
    }
}

/// The nesting depth of a sequence of tokens.
pub open spec fn nesting(t: Seq<Seq<char>>) -> int {
    max_depth(t, t.len() as int)
}

pub open spec fn too_deep_msg() -> Seq<char> {
    "too deeply nested"@
}

/// Refuses tokens nested deeper than `MAX_DEPTH`, which bounds how deep parsing, evaluation
/// and printing recurse.
pub fn check_nesting(tokens: &Vec<String>) -> (r: LispResult<()>)
    ensures
        r is Ok <==> nesting(texts(tokens@)) <= MAX_DEPTH,
        r matches Err(e) ==> e@ == too_deep_msg(),
{
    let ghost t = texts(tokens@);
    let mut d: usize = 0;
    let mut m: usize = 0;
    let mut i: usize = 0;
    while i < tokens.len()
        invariant
            t == texts(tokens@),
            i <= tokens@.len(),
            d == depth_at(t, i as int),
            m == max_depth(t, i as int),
            d <= i,
        decreases tokens@.len() - i,
    {
        let tok = tokens[i].as_str();
        assert(tok@ == t[i as int]);
        if text_eq(tok, "(") {
            d = d + 1;
        } else if text_eq(tok, ")") && d > 0 {
            d = d - 1;
        }
        if d > m {
            m = d;
        }
        i = i + 1;
    }
    if m > MAX_DEPTH {
        Err(LispError::new("too deeply nested"))
    } else {
        Ok(())
    }
}

impl SExpr {
    /// Splits a text into tokens: parentheses, quoted strings, and runs of other characters
    /// that are not whitespace.
    pub fn lex(s: &str) -> (r: Vec<String>)
        ensures
            texts(r@) == lex_spec(s@),
    {
        let n = s.unicode_len();
        let mut tokens: Vec<String> = Vec::new();
        let mut cur = String::new();
        let mut pending = false;
        let mut in_str = false;
        let mut last = ' ';
        let mut i: usize = 0;
        while i < n
            invariant
                n == s@.len(),
                i <= n,
                (texts(tokens@), if pending {
                    Some(cur@)
                } else {
                    None
                }) == lex_state(s@.subrange(0, i as int)),
                pending ==> cur@.len() > 0 && last == cur@.last() && in_str == in_string(cur@),
                !pending ==> cur@.len() == 0,
            decreases n - i,
        {
            let c = s.get_char(i);
            let ghost t0 = texts(tokens@);
            let ghost c0 = cur@;
            let ghost before = s@.subrange(0, i as int);
            assert(s@.subrange(0, i + 1).drop_last() =~= before);
            if pending && in_str {
                if c == '"' && last != '\\' {
                    push_char(&mut cur, c);
                    tokens.push(cur);
                    cur = String::new();
                    pending = false;
                    assert(texts(tokens@) =~= t0.push(c0.push(c)));
                } else {
                    push_char(&mut cur, c);
                    last = c;
                }
            } else if c == '(' || c == ')' {
                if pending {
                    tokens.push(cur);
                    cur = String::new();
                    pending = false;
                    assert(texts(tokens@) =~= t0.push(c0));
                }
                let ghost t1 = texts(tokens@);
                let mut t = String::new();
                push_char(&mut t, c);
                tokens.push(t);
                assert(texts(tokens@) =~= t1.push(seq![c]));
            } else if is_whitespace(c) {
                if pending {
                    tokens.push(cur);
                    cur = String::new();
                    pending = false;
                    assert(texts(tokens@) =~= t0.push(c0));
                }
            } else {
                if !pending {
                    in_str = c == '"';
                    pending = true;
                }
                push_char(&mut cur, c);
                last = c;
                assert(cur@ =~= c0.push(c));
            }
            i = i + 1;
            proof {
                assert(s@.subrange(0, i as int).last() == c);
                assert(texts(tokens@) =~= lex_state(s@.subrange(0, i as int)).0);
            }
        }
        let ghost t0 = texts(tokens@);
        let ghost c0 = cur@;
        if pending {
            tokens.push(cur);
            assert(texts(tokens@) =~= t0.push(c0));
        }
        assert(s@.subrange(0, n as int) =~= s@);
        assert(texts(tokens@) =~= lex_spec(s@));
        tokens
    }

    /// A copy of the expression, with the same value.
    pub fn copy(&self) -> (r: SExpr)
        ensures
            r@ == self@,
        decreases self,
    {
        match self {
            SExpr::Bool(b) => SExpr::Bool(*b),
            SExpr::Num(n) => SExpr::Num(*n),
            SExpr::Str(s) => SExpr::Str(s.clone()),
            SExpr::Symbol(s) => SExpr::Symbol(s.clone()),
            SExpr::List(v) => {
                let mut out: Vec<SExpr> = Vec::new();
                let mut i: usize = 0;
                while i < v.len()
                    invariant
                        i <= v.len(),
                        *self == SExpr::List(*v),
                        out@.len() == i,
                        forall|j: int| 0 <= j < i ==> (#[trigger] out@[j])@ == v@[j]@,
                    decreases v.len() - i,
                {
                    proof {
                        assert(decreases_to!(*v => v[i as int]));
                        assert(decreases_to!(*self => self->List_0));
                        assert(decreases_to!(*v => v[i as int]));
                        assert(decreases_to!(*self => self->List_0));
                    }
                    out.push(v[i].copy());
                    i = i + 1;
                }
                proof {
                    lemma_list_view(out);
                    lemma_list_view(*v);
                    assert(views(out@) =~= views(v@));
                }
                SExpr::List(out)
            },
        }
    }

    /// Parses the expression that starts at token `pos`, with the position after it.
    fn parse_at(tokens: &Vec<String>, pos: usize) -> (r: Option<(SExpr, usize)>)
        ensures
            pos >= tokens@.len() ==> r is None,
            pos < tokens@.len() ==> (r matches Some((e, p)) && e@ == parse_one(
                texts(tokens@).subrange(pos as int, tokens@.len() as int),
            ) && p == pos + span(texts(tokens@).subrange(pos as int, tokens@.len() as int))),
        decreases tokens@.len() - pos, 0int,
    {
        let n = tokens.len();
        if pos >= n {
            return None;
        }
        let ghost t = texts(tokens@).subrange(pos as int, n as int);
        let head = tokens[pos].as_str();
        assert(head@ == t[0]);
        proof {
            lemma_span(t);
            reveal_strlit("(");
            reveal_strlit("true");
            reveal_strlit("false");
            if t[0] == "("@ {
                assert(t[0] != "true"@ && t[0] != "false"@ && !is_quoted(t[0]));
                lemma_not_number(t[0]);
            }
        }
        let hn = head.unicode_len();
        if text_eq(head, "true") {
            Some((SExpr::Bool(true), pos + 1))
        } else if text_eq(head, "false") {
            Some((SExpr::Bool(false), pos + 1))
        } else if hn >= 2 && head.get_char(0) == '"' && head.get_char(hn - 1) == '"' {
            let inner = head.substring_char(1, hn - 1).to_owned();
            Some((SExpr::Str(inner), pos + 1))
        } else if let Some(v) = parse_num(head) {
            Some((SExpr::Num(v), pos + 1))
        } else if text_eq(head, "(") {
            let mut depth: usize = 1;
            let mut j: usize = pos + 1;
            let mut closed = false;
            proof {
                lemma_close_at(t, 1, 1);
            }
            while j < n && !closed
                invariant
                    n == tokens@.len(),
                    t == texts(tokens@).subrange(pos as int, n as int),
                    pos < j <= n,
                    1 <= depth <= j,
                    closed ==> j - pos == close_at(t, 1, 1) && j < n,
                    !closed ==> close_at(t, j - pos, depth as nat) == close_at(t, 1, 1),
                decreases n - j, if closed { 0int } else { 1int },
            {
                let tok = tokens[j].as_str();
                assert(tok@ == t[j - pos]);
                if text_eq(tok, "(") {
                    depth = depth + 1;
                    j = j + 1;
                } else if text_eq(tok, ")") {
                    if depth == 1 {
                        closed = true;
                    } else {
                        depth = depth - 1;
                        j = j + 1;
                    }
                } else {
                    j = j + 1;
                }
            }
            let k = j;
            assert(k - pos == close_at(t, 1, 1));
            let mut children: Vec<String> = Vec::new();
            let mut m: usize = pos + 1;
            while m < k
                invariant
                    pos < m <= k <= n,
                    n == tokens@.len(),
                    t == texts(tokens@).subrange(pos as int, n as int),
                    texts(children@) == t.subrange(1, m - pos),
                decreases k - m,
            {
                let ghost c0 = texts(children@);
                children.push(tokens[m].clone());
                m = m + 1;
                assert(t.subrange(1, m - pos) =~= t.subrange(1, m - 1 - pos).push(t[m - 1 - pos]));
                assert(texts(children@) =~= t.subrange(1, m - pos));
            }
            assert(children@.len() == k - pos - 1) by {
                assert(texts(children@).len() == children@.len());
            }
            let items = SExpr::parse_all(&children);
            proof {
                lemma_list_view(items);
            }
            let next = if k < n {
                k + 1
            } else {
                n
            };
            Some((SExpr::List(items), next))
        } else {
            Some((SExpr::Symbol(tokens[pos].clone()), pos + 1))
        }
    }

    /// Parses the expression that starts at token `*pos` and moves `*pos` past it; `None` once
    /// the tokens are used up.
    pub fn parse(tokens: &Vec<String>, pos: &mut usize) -> (r: Option<SExpr>)
        ensures
            *old(pos) >= tokens@.len() ==> r is None && *final(pos) == *old(pos),
            *old(pos) < tokens@.len() ==> (r matches Some(e) && e@ == parse_one(
                texts(tokens@).subrange(*old(pos) as int, tokens@.len() as int),
            ) && *final(pos) == *old(pos) + span(
                texts(tokens@).subrange(*old(pos) as int, tokens@.len() as int),
            )),
    {
        match SExpr::parse_at(tokens, *pos) {
            Some((e, p)) => {
                *pos = p;
                Some(e)
            },
            None => None,
        }
    }

    /// Parses every expression of the tokens, in order.
    pub fn parse_all(tokens: &Vec<String>) -> (r: Vec<SExpr>)
        ensures
            views(r@) == parse_all(texts(tokens@)),
        decreases tokens@.len(), 1int,
    {
        let n = tokens.len();
        let ghost t = texts(tokens@);
        let mut out: Vec<SExpr> = Vec::new();
        let mut pos: usize = 0;
        assert(t.subrange(0, n as int) =~= t);
        while pos < n
            invariant
                n == tokens@.len(),
                t == texts(tokens@),
                pos <= n,
                views(out@) + parse_all(t.subrange(pos as int, n as int)) == parse_all(t),
            decreases n - pos,
        {
            let ghost tail = t.subrange(pos as int, n as int);
            proof {
                lemma_span(tail);
            }
            match SExpr::parse_at(tokens, pos) {
                Some((e, p)) => {
                    let ghost old_out = views(out@);
                    out.push(e);
                    assert(views(out@) =~= old_out.push(e@));
                    assert(tail.subrange(span(tail), tail.len() as int) =~= t.subrange(
                        p as int,
                        n as int,
                    ));
                    assert(views(out@) + parse_all(t.subrange(p as int, n as int)) =~= old_out
                        + parse_all(tail));
                    pos = p;
                },
                None => {
                    return out;
                },
            }
        }
        assert(t.subrange(n as int, n as int) =~= Seq::<Seq<char>>::empty());
        assert(views(out@) + parse_all(t.subrange(n as int, n as int)) =~= views(out@));
        out
    }

    /// Evaluates the expression in `ctx`.
    pub fn eval(self, ctx: &mut EvalContext) -> (r: LispResult<SExpr>)
        ensures
            (final(ctx)@, res_view(r)) == eval_one(old(ctx)@, self@),
    {
        eval_expr(ctx, &self)
    }

    /// The first expression of a text; `None` where the text holds no token.
    pub fn parse_text(s: &str) -> (r: Option<SExpr>)
        ensures
            lex_spec(s@).len() == 0 ==> r is None,
            lex_spec(s@).len() > 0 ==> (r matches Some(e) && e@ == parse_one(lex_spec(s@))),
    {
        let tokens = SExpr::lex(s);
        let mut pos: usize = 0;
        let r = SExpr::parse(&tokens, &mut pos);
        assert(texts(tokens@).subrange(0, tokens@.len() as int) =~= texts(tokens@));
        r
    }

    /// Appends the printed form of the expression.
    pub fn push_printed(&self, out: &mut String)
        ensures
            final(out)@ == old(out)@ + print(self@),
        decreases self,
    {
        match self {
            SExpr::Bool(b) => {
                if *b {
                    push_text(out, "true");
                } else {
                    push_text(out, "false");
                }
            },
            SExpr::Num(n) => push_num(out, *n),
            SExpr::Str(s) => {
                push_char(out, '"');
                push_text(out, s.as_str());
                push_char(out, '"');
                assert(final(out)@ =~= old(out)@ + print(self@));
            },
            SExpr::Symbol(s) => push_text(out, s.as_str()),
            SExpr::List(v) => {
                let ghost xs = self@->List_0;
                proof {
                    lemma_list_view(*v);
                }
                push_char(out, '(');
                let mut i: usize = 0;
                while i < v.len()
                    invariant
                        i <= v.len(),
                        *self == SExpr::List(*v),
                        xs == views(v@),
                        out@ == old(out)@.push('(') + print_items(xs.subrange(0, i as int)),
                    decreases v.len() - i,
                {
                    let ghost before = out@;
                    if i > 0 {
                        push_char(out, ' ');
                    }
                    proof {
                        assert(decreases_to!(*v => v[i as int]));
                        assert(decreases_to!(*self => self->List_0));
                        assert(decreases_to!(*v => v[i as int]));
                        assert(decreases_to!(*self => self->List_0));
                    }
                    v[i].push_printed(out);
                    i = i + 1;
                    let ghost pre = xs.subrange(0, i as int);
                    assert(pre.drop_last() =~= xs.subrange(0, i - 1));
                    assert(pre.last() == v@[i - 1]@);
                    if i == 1 {
                        assert(xs.subrange(0, 0) =~= Seq::<Val>::empty());
                    }
                }
                push_char(out, ')');
                assert(xs.subrange(0, v.len() as int) =~= xs);
                assert(final(out)@ =~= old(out)@ + print(self@));
            },
        }
    }

    /// The printed form of the expression.
    pub fn to_text(&self) -> (r: String)
        ensures
            r@ == print(self@),
    {
        let mut out = String::new();
        self.push_printed(&mut out);
        assert(out@ =~= print(self@));
        out
    }
}

impl std::str::FromStr for SExpr {
    type Err = &'static str;

    fn from_str(s: &str) -> Result<SExpr, &'static str> {
        match SExpr::parse_text(s) {
            Some(e) => Ok(e),
            None => Err("failed to parse SExpr"),
        }
    }
}

} // verus!
