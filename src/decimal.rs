use vstd::prelude::*;

use crate::text::{
    all_digits, digit_char, digit_val, digits_val, is_digit, lemma_digits_val_nonneg,
    lemma_nat_text, nat_text, push_char, push_nat, read_digits,
};

verus! {

/// Numbers are held in millionths: an `SExpr::Num(n)` stands for `n / SCALE`.
pub const SCALE: i64 = 1000000;

pub open spec fn pow10(k: nat) -> nat
    decreases k,
{
    if k == 0 {
        1
    } else {
        10 * pow10((k - 1) as nat)
    }
}

/// The index of the first `.` in `b`, or its length.
pub open spec fn dot_index(b: Seq<char>) -> int
    decreases b.len(),
{
    if b.len() == 0 {
        0
    } else if b[0] == '.' {
        0
    } else {
        1 + dot_index(b.skip(1))
    }
}

/// A number token without its minus sign, if it has one.
pub open spec fn unsigned_part(s: Seq<char>) -> Seq<char> {
    if s.len() > 0 && s[0] == '-' {
        s.skip(1)
    } else {
        s
    }
}

/// The digits after the `.` of an unsigned number token; none where it has no `.`.
pub open spec fn frac_part(b: Seq<char>) -> Seq<char> {
    if dot_index(b) < b.len() {
        b.skip(dot_index(b) + 1)
    } else {
        Seq::empty()
    }
}

/// The value in millionths of an unsigned number token: digits, then optionally a `.` and one
/// to six digits.
pub open spec fn magnitude_of(b: Seq<char>) -> Option<int> {
    let ip = b.subrange(0, dot_index(b));
    let fp = frac_part(b);
    if ip.len() > 0 && all_digits(ip) && (dot_index(b) == b.len() || (1 <= fp.len() <= 6
        && all_digits(fp))) {
        Some(digits_val(ip) * 1000000 + digits_val(fp) * pow10((6 - fp.len()) as nat))
    } else {
        None
    }
}

/// The value in millionths that a token spells, with an optional leading minus sign.
pub open spec fn decimal_of(s: Seq<char>) -> Option<int> {
    match magnitude_of(unsigned_part(s)) {
        Some(m) => Some(
            if s.len() > 0 && s[0] == '-' {
                -m
            } else {
                m
            },
        ),
        None => None,
    }
}

/// The number that a token spells, where it spells one that fits in 64 bits of millionths.
pub open spec fn num_token(s: Seq<char>) -> Option<i64> {
    match decimal_of(s) {
        Some(v) => if i64::MIN <= v <= i64::MAX {
            Some(v as i64)
        } else {
            None
        },
        None => None,
    }
}

/// The `k` lowest decimal digits of `f`, zeros in front included.
pub open spec fn fixed_digits(f: nat, k: nat) -> Seq<char>
    decreases k,
{
    if k == 0 {
        Seq::empty()
    } else {
        fixed_digits(f / 10, (k - 1) as nat).push(digit_char((f % 10) as int))
    }
}

/// The `k` fraction digits of `f` (as in `f / 10^k`), trailing zeros dropped.
pub open spec fn frac_text(f: nat, k: nat) -> Seq<char>
    decreases k,
{
    if k > 0 && f % 10 == 0 {
        frac_text(f / 10, (k - 1) as nat)
    } else {
        fixed_digits(f, k)
    }
}

/// The shortest decimal text of `v` millionths: a minus sign where negative, the integer
/// digits, and a `.` with the fraction digits where the fraction is not zero.
pub open spec fn num_text(v: int) -> Seq<char> {
    let m: nat = if v < 0 {
        (-v) as nat
    } else {
        v as nat
    };
    let sign = if v < 0 {
        seq!['-']
    } else {
        Seq::<char>::empty()
    };
    let frac = if m % 1000000 == 0 {
        Seq::<char>::empty()
    } else {
        seq!['.'] + frac_text(m % 1000000, 6)
    };
    sign + nat_text(m / 1000000) + frac
}

proof fn lemma_dot_index_scan(s: Seq<char>, start: int, p: int)
    requires
        0 <= start <= p < s.len(),
        s[p] != '.',
    ensures
        dot_index(s.skip(p)) == 1 + dot_index(s.skip(p + 1)),
{
    assert(s.skip(p).skip(1) =~= s.skip(p + 1));
}

proof fn lemma_digits_val_bound(s: Seq<char>)
    requires
        all_digits(s),
    ensures
        digits_val(s) < pow10(s.len()),
    decreases s.len(),
{
    if s.len() > 0 {
        lemma_digits_val_bound(s.drop_last());
        assert(is_digit(s[s.len() - 1]));
        let a = digits_val(s.drop_last());
        let d = digit_val(s.last());
        let p = pow10((s.len() - 1) as nat);
        assert(a * 10 + d < 10 * p) by (nonlinear_arith)
            requires
                a < p,
                0 <= d <= 9,
        ;
    }
}

proof fn lemma_pow10_split(a: nat, b: nat)
    ensures
        pow10(a) * pow10(b) == pow10(a + b),
        pow10(a) >= 1,
    decreases a,
{
    if a > 0 {
        lemma_pow10_split((a - 1) as nat, b);
        assert(pow10(a) * pow10(b) == 10 * (pow10((a - 1) as nat) * pow10(b))) by (nonlinear_arith)
            requires
                pow10(a) == 10 * pow10((a - 1) as nat),
        ;
        let c = (a + b - 1) as nat;
        assert(c == (a - 1) as nat + b);
        assert(pow10((a - 1) as nat) * pow10(b) == pow10(c));
        assert(pow10(a + b) == 10 * pow10(c));
    } else {
        assert(pow10(0) == 1);
        assert(a + b == b);
    }
}

proof fn lemma_pow10_mono(a: nat, b: nat)
    requires
        a <= b,
    ensures
        pow10(a) <= pow10(b),
    decreases b,
{
    if a < b {
        lemma_pow10_mono(a, (b - 1) as nat);
    }
}

/// Reads a token as a number in millionths, as `num_token` says.
pub fn parse_num(s: &str) -> (r: Option<i64>)
    ensures
        r == num_token(s@),
{
    let n = s.unicode_len();
    let neg = n > 0 && s.get_char(0) == '-';
    let start: usize = if neg {
        1
    } else {
        0
    };
    let ghost b = unsigned_part(s@);
    assert(b =~= s@.skip(start as int));
    let mut p: usize = start;
    while p < n && s.get_char(p) != '.'
        invariant
            n == s@.len(),
            start <= p <= n,
            b == s@.skip(start as int),
            dot_index(b) == (p - start) + dot_index(s@.skip(p as int)),
        decreases n - p,
    {
        proof {
            lemma_dot_index_scan(s@, start as int, p as int);
        }
        p = p + 1;
    }
    let d = p;
    assert(dot_index(b) == d - start) by {
        if d < n {
            assert(s@.skip(d as int)[0] == '.');
        } else {
            assert(s@.skip(d as int).len() == 0);
        }
    }
    assert(b.subrange(0, dot_index(b)) =~= s@.subrange(start as int, d as int));
    if d == start {
        assert(magnitude_of(b) is None);
        return None;
    }
    let int_val = match read_digits(s, start, d, 9223372036854) {
        Some(v) => v,
        None => {
            proof {
                let ip = b.subrange(0, dot_index(b));
                let fp = frac_part(b);
                if magnitude_of(b) is Some {
                    if fp.len() > 0 {
                        lemma_digits_val_nonneg(fp);
                    } else {
                        assert(digits_val(fp) == 0);
                    }
                    let x = digits_val(ip);
                    let y = digits_val(fp) * pow10((6 - fp.len()) as nat);
                    let pw = pow10((6 - fp.len()) as nat);
                    assert(digits_val(fp) * pw >= 0) by (nonlinear_arith)
                        requires
                            digits_val(fp) >= 0,
                            pw >= 0,
                    ;
                    assert(x * 1000000 + y > 9223372036854775808) by (nonlinear_arith)
                        requires
                            x > 9223372036854,
                            y >= 0,
                    ;
                }
            }
            return None;
        },
    };
    let mut frac_val: u64 = 0;
    let mut mul: u64 = 1000000;
    let ghost fp = frac_part(b);
    if d < n {
        assert(fp =~= s@.subrange(d + 1, n as int));
        let flen = n - d - 1;
        if flen == 0 || flen > 6 {
            return None;
        }
        match read_digits(s, d + 1, n, 999999) {
            Some(v) => {
                frac_val = v;
            },
            None => {
                proof {
                    if all_digits(fp) {
                        lemma_digits_val_bound(fp);
                        lemma_pow10_mono(fp.len(), 6);
                        assert(pow10(6) == 1000000) by {
                            reveal_with_fuel(pow10, 7);
                        }
                    }
                }
                return None;
            },
        }
        mul = 1;
        let mut i: usize = 0;
        while i < 6 - flen
            invariant
                flen <= 6,
                i <= 6 - flen,
                mul as nat == pow10(i as nat),
                mul <= 1000000,
            decreases 6 - flen - i,
        {
            proof {
                lemma_pow10_mono((i + 1) as nat, 6);
                assert(pow10(6) == 1000000) by {
                    reveal_with_fuel(pow10, 7);
                }
            }
            mul = mul * 10;
            i = i + 1;
        }
        proof {
            lemma_digits_val_bound(fp);
            lemma_pow10_split(flen as nat, (6 - flen) as nat);
            assert(pow10(6) == 1000000) by {
                reveal_with_fuel(pow10, 7);
            }
            assert(frac_val * mul < 1000000) by (nonlinear_arith)
                requires
                    frac_val < pow10(flen as nat),
                    pow10(flen as nat) * mul == 1000000,
            ;
        }
    } else {
        assert(fp =~= Seq::<char>::empty());
        assert(pow10(6) == 1000000) by {
            reveal_with_fuel(pow10, 7);
        }
    }
    proof {
        lemma_digits_val_nonneg(fp);
    }
    let mag: u64 = int_val * 1000000 + frac_val * mul;
    assert(magnitude_of(b) == Some(mag as int));
    if neg {
        if mag > 9223372036854775808 {
            None
        } else if mag == 9223372036854775808 {
            Some(i64::MIN)
        } else {
            Some(-(mag as i64))
        }
    } else {
        if mag > 9223372036854775807 {
            None
        } else {
            Some(mag as i64)
        }
    }
}

fn push_fixed(s: &mut String, f: u64, k: u64)
    ensures
        final(s)@ == old(s)@ + fixed_digits(f as nat, k as nat),
    decreases k,
{
    if k > 0 {
        push_fixed(s, f / 10, k - 1);
        let d = (f % 10) as u8;
        push_char(s, (d + 48) as char);
        assert(digit_char((f % 10) as int) == (d + 48) as char);
        assert(old(s)@ + fixed_digits(f as nat, k as nat) =~= (old(s)@ + fixed_digits(
            (f / 10) as nat,
            (k - 1) as nat,
        )).push((d + 48) as char));
    } else {
        assert(old(s)@ + fixed_digits(f as nat, k as nat) =~= old(s)@);
    }
}

fn push_frac(s: &mut String, f: u64, k: u64)
    ensures
        final(s)@ == old(s)@ + frac_text(f as nat, k as nat),
    decreases k,
{
    if k > 0 && f % 10 == 0 {
        push_frac(s, f / 10, k - 1);
    } else {
        push_fixed(s, f, k);
    }
}

/// Appends the text of `v` millionths, as `num_text` says.
pub fn push_num(s: &mut String, v: i64)
    ensures
        final(s)@ == old(s)@ + num_text(v as int),
{
    let m: u64 = if v < 0 {
        (-(v as i128)) as u64
    } else {
        v as u64
    };
    if v < 0 {
        push_char(s, '-');
    }
    let ghost s1 = s@;
    push_nat(s, m / 1000000);
    let r = m % 1000000;
    let ghost s2 = s@;
    if r != 0 {
        push_char(s, '.');
        push_frac(s, r, 6);
        assert(s@ =~= s2 + (seq!['.'] + frac_text(r as nat, 6)));
    }
    assert(final(s)@ =~= old(s)@ + num_text(v as int));
}

proof fn lemma_fixed_digits(f: nat, k: nat)
    requires
        f < pow10(k),
    ensures
        fixed_digits(f, k).len() == k,
        all_digits(fixed_digits(f, k)),
        digits_val(fixed_digits(f, k)) == f,
    decreases k,
{
    if k == 0 {
        assert(digits_val(Seq::<char>::empty()) == 0);
    } else {
        let p = pow10((k - 1) as nat);
        assert(f / 10 < p) by (nonlinear_arith)
            requires
                f < 10 * p,
        ;
        lemma_fixed_digits(f / 10, (k - 1) as nat);
        let t = fixed_digits(f, k);
        assert(t.drop_last() =~= fixed_digits(f / 10, (k - 1) as nat));
        assert(digit_val(digit_char((f % 10) as int)) == f % 10);
        assert(f == (f / 10) * 10 + f % 10);
    }
}

proof fn lemma_frac_text(f: nat, k: nat)
    requires
        0 < f < pow10(k),
    ensures
        1 <= frac_text(f, k).len() <= k,
        all_digits(frac_text(f, k)),
        digits_val(frac_text(f, k)) * pow10((k - frac_text(f, k).len()) as nat) == f,
    decreases k,
{
    if k > 0 && f % 10 == 0 {
        let p = pow10((k - 1) as nat);
        assert(0 < f / 10 < p) by (nonlinear_arith)
            requires
                0 < f < 10 * p,
                f % 10 == 0,
        ;
        lemma_frac_text(f / 10, (k - 1) as nat);
        let t = frac_text(f / 10, (k - 1) as nat);
        assert(frac_text(f, k) == t);
        let e = (k - 1 - t.len()) as nat;
        assert(digits_val(t) * pow10(e) == f / 10);
        assert((k - t.len()) as nat == e + 1);
        assert(pow10(e + 1) == 10 * pow10(e));
        assert(digits_val(t) * pow10(e + 1) == 10 * (digits_val(t) * pow10(e))) by (nonlinear_arith)
            requires
                pow10(e + 1) == 10 * pow10(e),
        ;
        assert(f == (f / 10) * 10);
        assert(digits_val(t) * pow10(e + 1) == f);
    } else {
        if k == 0 {
            assert(false);
        }
        lemma_fixed_digits(f, k);
        assert((k - fixed_digits(f, k).len()) as nat == 0);
        assert(pow10(0) == 1);
        assert(frac_text(f, k) == fixed_digits(f, k));
    }
}

/// The text of a number in millionths reads back as that number, and is made of digits, a
/// leading minus sign where negative, and at most one `.`.
pub proof fn lemma_num_text_round_trip(v: i64)
    ensures
        num_token(num_text(v as int)) == Some(v),
        num_text(v as int).len() > 0,
        is_digit(num_text(v as int)[0]) || num_text(v as int)[0] == '-',
        forall|i: int|
            0 <= i < num_text(v as int).len() ==> (is_digit(#[trigger] num_text(v as int)[i])
                || num_text(v as int)[i] == '-' || num_text(v as int)[i] == '.'),
{
    let t = num_text(v as int);
    let m: nat = if v < 0 {
        (-v) as nat
    } else {
        v as nat
    };
    let q = m / 1000000;
    let r = m % 1000000;
    let ip = nat_text(q);
    lemma_nat_text(q);
    assert(pow10(6) == 1000000) by {
        reveal_with_fuel(pow10, 7);
    }
    let fr = if r == 0 {
        Seq::<char>::empty()
    } else {
        seq!['.'] + frac_text(r, 6)
    };
    if r != 0 {
        lemma_frac_text(r, 6);
    }
    let b = ip + fr;
    assert(unsigned_part(t) =~= b) by {
        if v < 0 {
            assert(t =~= seq!['-'] + b);
            assert(t.skip(1) =~= b);
        } else {
            assert(t =~= b);
        }
    }
    lemma_dot_index_concat(ip, fr);
    assert(dot_index(fr) == 0);
    assert(b.subrange(0, dot_index(b)) =~= ip);
    if r == 0 {
        assert(frac_part(b) =~= Seq::<char>::empty());
        assert(digits_val(Seq::<char>::empty()) == 0);
    } else {
        assert(frac_part(b) =~= frac_text(r, 6));
    }
    assert(m == q * 1000000 + r);
    assert(decimal_of(t) == Some(v as int));
    assert forall|i: int| 0 <= i < t.len() implies (is_digit(#[trigger] t[i]) || t[i] == '-'
        || t[i] == '.') by {
        let sl: int = if v < 0 {
            1
        } else {
            0
        };
        if i >= sl && i < sl + ip.len() {
            assert(t[i] == ip[i - sl]);
        } else if i >= sl + ip.len() + 1 {
            assert(t[i] == fr[i - sl - ip.len()]);
            assert(fr[i - sl - ip.len()] == frac_text(r, 6)[i - sl - ip.len() - 1]);
        }
    }
    assert(is_digit(t[0]) || t[0] == '-') by {
        if v >= 0 {
            assert(t[0] == ip[0]);
        }
    }
}

proof fn lemma_dot_index_bounds(b: Seq<char>)
    ensures
        0 <= dot_index(b) <= b.len(),
    decreases b.len(),
{
    if b.len() > 0 && b[0] != '.' {
        lemma_dot_index_bounds(b.skip(1));
    }
}

/// A token that starts with neither a digit nor a minus sign is no number.
pub proof fn lemma_not_number(s: Seq<char>)
    requires
        s.len() > 0,
        s[0] != '-',
        !is_digit(s[0]),
    ensures
        num_token(s) is None,
{
    lemma_dot_index_bounds(s);
    if s[0] != '.' {
        lemma_dot_index_bounds(s.skip(1));
        assert(s.subrange(0, dot_index(s))[0] == s[0]);
    }
}

proof fn lemma_dot_index_concat(a: Seq<char>, c: Seq<char>)
    requires
        all_digits(a),
    ensures
        dot_index(a + c) == a.len() + dot_index(c),
    decreases a.len(),
{
    if a.len() > 0 {
        assert(is_digit(a[0]));
        assert((a + c).skip(1) =~= a.skip(1) + c);
        lemma_dot_index_concat(a.skip(1), c);
    } else {
        assert(a + c =~= c);
    }
}

} // verus!
