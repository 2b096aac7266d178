use vstd::prelude::*;

use crate::sexpr::{in_string, is_quoted, lex_spec, lex_state, parse_one, print, Val};
use crate::decimal::{lemma_num_text_round_trip, num_text, num_token};
use crate::text::{is_digit, is_ws};

verus! {

/// Whether `c` may stand in a token of its own kind: neither whitespace nor a parenthesis.
pub open spec fn plain_char(c: char) -> bool {
    !is_ws(c) && c != '(' && c != ')'
}

/// Whether each double quote in `s` comes right after a backslash.
pub open spec fn quotes_escaped(s: Seq<char>) -> bool {
    forall|i: int| 0 <= i < s.len() && #[trigger] s[i] == '"' ==> i > 0 && s[i - 1] == '\\'
}

/// Whether the printed form of a literal value reads back as that value: symbols that are
/// not spelled like another literal and are one token, strings whose quotes are all escaped,
/// and every boolean and in-range number.
pub open spec fn reads_back(v: Val) -> bool {
    match v {
        Val::Bool(_) => true,
        Val::Num(n) => i64::MIN <= n <= i64::MAX,
        Val::Str(s) => quotes_escaped(s),
        Val::Symbol(s) => s.len() > 0 && s[0] != '"' && (forall|i: int|
            0 <= i < s.len() ==> plain_char(#[trigger] s[i])) && s != "true"@ && s != "false"@
            && num_token(s) is None,
        Val::List(_) => false,
    }
}

/// A run of plain characters that does not open a string is read as one token under way.
proof fn lemma_plain_prefix(s: Seq<char>, k: int)
    requires
        0 < k <= s.len(),
        s[0] != '"',
        forall|i: int| 0 <= i < s.len() ==> plain_char(#[trigger] s[i]),
    ensures
        lex_state(s.subrange(0, k)) == (Seq::<Seq<char>>::empty(), Some(s.subrange(0, k))),
    decreases k,
{
    let p = s.subrange(0, k);
    assert(p.drop_last() =~= s.subrange(0, k - 1));
    assert(p.last() == s[k - 1]);
    assert(plain_char(s[k - 1]));
    if k == 1 {
        assert(s.subrange(0, 0) =~= Seq::<char>::empty());
        assert(lex_state(Seq::<char>::empty()) == (Seq::<Seq<char>>::empty(), None::<Seq<char>>));
        assert(p =~= seq![s[0]]);
    } else {
        lemma_plain_prefix(s, k - 1);
        assert(!in_string(s.subrange(0, k - 1)));
        assert(p =~= s.subrange(0, k - 1).push(s[k - 1]));
    }
}

/// A run of plain characters that does not open a string is one token.
proof fn lemma_plain_token(s: Seq<char>)
    requires
        s.len() > 0,
        s[0] != '"',
        forall|i: int| 0 <= i < s.len() ==> plain_char(#[trigger] s[i]),
    ensures
        lex_spec(s) == seq![s],
{
    lemma_plain_prefix(s, s.len() as int);
    assert(s.subrange(0, s.len() as int) =~= s);
}

/// Inside a quoted string whose inner quotes are all escaped, the token runs on.
proof fn lemma_quoted_prefix(s: Seq<char>, k: int)
    requires
        1 <= k <= s.len() + 1,
        quotes_escaped(s),
    ensures
        lex_state((seq!['"'] + s).subrange(0, k)) == (
            Seq::<Seq<char>>::empty(),
            Some((seq!['"'] + s).subrange(0, k)),
        ),
    decreases k,
{
    let w = seq!['"'] + s;
    let p = w.subrange(0, k);
    assert(p.drop_last() =~= w.subrange(0, k - 1));
    if k == 1 {
        assert(w.subrange(0, 0) =~= Seq::<char>::empty());
        assert(lex_state(Seq::<char>::empty()) == (Seq::<Seq<char>>::empty(), None::<Seq<char>>));
        assert(p =~= seq!['"']);
    } else {
        lemma_quoted_prefix(s, k - 1);
        let t = w.subrange(0, k - 1);
        assert(in_string(t));
        assert(p.last() == s[k - 2]);
        if s[k - 2] == '"' {
            assert(k - 2 > 0 && s[k - 3] == '\\');
            assert(t.last() == s[k - 3]);
        }
        assert(p =~= t.push(s[k - 2]));
    }
}

/// A quoted string whose inner quotes are all escaped is one token.
proof fn lemma_quoted_token(s: Seq<char>)
    requires
        quotes_escaped(s),
    ensures
        lex_spec(seq!['"'] + s + seq!['"']) == seq![seq!['"'] + s + seq!['"']],
{
    let w = seq!['"'] + s;
    let full = w + seq!['"'];
    lemma_quoted_prefix(s, s.len() + 1int);
    assert(w.subrange(0, s.len() + 1int) =~= w);
    assert(full.drop_last() =~= w);
    assert(full.last() == '"');
    assert(w.push('"') =~= full);
}

/// Printing a literal value, splitting the text into tokens and parsing them gives the value
/// back, for every value that `reads_back` admits.
pub proof fn lemma_print_lex_parse(v: Val)
    requires
        reads_back(v),
    ensures
        lex_spec(print(v)).len() == 1,
        parse_one(lex_spec(print(v))) == v,
{
    reveal_strlit("true");
    reveal_strlit("false");
    reveal_strlit("(");
    match v {
        Val::Bool(b) => {
            let s = print(v);
            lemma_plain_token(s);
            assert(!is_quoted(s));
        },
        Val::Num(n) => {
            let s = num_text(n);
            lemma_num_text_round_trip(n as i64);
            assert(plain_char('-'));
            assert(plain_char('.'));
            assert forall|i: int| 0 <= i < s.len() implies plain_char(#[trigger] s[i]) by {
                if is_digit(s[i]) {
                    assert(plain_char(s[i]));
                }
            }
            assert(is_digit(s[0]) || s[0] == '-');
            lemma_plain_token(s);
            assert(s != "true"@ && s != "false"@ && s != "("@);
        },
        Val::Str(s) => {
            lemma_quoted_token(s);
            let w = seq!['"'] + s + seq!['"'];
            assert(w.subrange(1, w.len() - 1) =~= s);
            assert(w != "true"@ && w != "false"@);
        },
        Val::Symbol(s) => {
            lemma_plain_token(s);
            assert(!is_quoted(s));
            assert(s != "("@) by {
                assert(plain_char(s[0]));
            }
        },
        Val::List(_) => {},
    }
}

} // verus!
