//! The JSON text used to save a context: strings with canonical escapes,
//! decimal integers, lists, and the readers and writers for them.
use vstd::prelude::*;
use crate::text::{decimal, digit_char, push_decimal};
use crate::types::{Op, op_code_spec, lemma_op_code_injective};

verus! {

/// Appends one character to a string.
///
/// Trusted: calls `String::push`, which (as its documentation says) appends
/// the character at the end of the string.
#[verifier::external_body]
pub fn push_char(s: &mut String, c: char)
    ensures
        final(s)@ == old(s)@.push(c),
{
    s.push(c);
}

/// The characters of a string slice.
pub fn chars_of(s: &str) -> (v: Vec<char>)
    ensures
        v@ == s@,
{
    broadcast use vstd::string::group_string_axioms;

    let mut v: Vec<char> = Vec::new();
    for c in it: s.chars()
        invariant
            v@ == it.seq().take(it.index() as int),
    {
        v.push(c);
    }
    v
}

/// The lowercase hexadecimal digit of `d` (below 16).
pub open spec fn hex_char(d: nat) -> char {
    if d < 10 {
        digit_char(d)
    } else if d == 10 {
        'a'
    } else if d == 11 {
        'b'
    } else if d == 12 {
        'c'
    } else if d == 13 {
        'd'
    } else if d == 14 {
        'e'
    } else {
        'f'
    }
}

/// How a character is written inside a JSON string: quote and backslash are
/// escaped by a backslash, control characters as `\u00XX`, all others as
/// themselves.
pub open spec fn escape_char(c: char) -> Seq<char> {
    if c == '"' {
        seq!['\\', '"']
    } else if c == '\\' {
        seq!['\\', '\\']
    } else if (c as u32) < 32 {
        seq!['\\', 'u', '0', '0', hex_char((c as u32 / 16) as nat), hex_char((c as u32 % 16) as nat)]
    } else {
        seq![c]
    }
}

/// The escaped form of a sequence of characters.
pub open spec fn escape(s: Seq<char>) -> Seq<char>
    decreases s.len(),
{
    if s.len() == 0 {
        Seq::empty()
    } else {
        escape(s.drop_last()) + escape_char(s.last())
    }
}

/// A JSON string holding `s`.
pub open spec fn quote(s: Seq<char>) -> Seq<char> {
    seq!['"'] + escape(s) + seq!['"']
}

/// Items separated by commas.
pub open spec fn joined(items: Seq<Seq<char>>) -> Seq<char>
    decreases items.len(),
{
    if items.len() == 0 {
        Seq::empty()
    } else if items.len() == 1 {
        items[0]
    } else {
        joined(items.drop_last()) + seq![','] + items.last()
    }
}

/// A JSON list of the given item texts.
pub open spec fn json_list(items: Seq<Seq<char>>) -> Seq<char> {
    seq!['['] + joined(items) + seq![']']
}


/// `w` appears in `t` at `p`.
pub open spec fn occurs_at(t: Seq<char>, p: int, w: Seq<char>) -> bool {
    0 <= p && p + w.len() <= t.len() && t.subrange(p, p + w.len()) == w
}

/// `w` appears in `t` at `p` and is followed by a comma or a closing bracket
/// or brace.
pub open spec fn occurs_then_stop(t: Seq<char>, p: int, w: Seq<char>) -> bool {
    &&& occurs_at(t, p, w)
    &&& p + w.len() < t.len()
    &&& (t[p + w.len()] == ',' || t[p + w.len()] == ']' || t[p + w.len()] == '}')
}

/// The numeral of `n` appears in `t` at `p`, followed by a non-digit or the
/// end.
pub open spec fn numeral_at(t: Seq<char>, p: int, n: nat) -> bool {
    &&& occurs_at(t, p, decimal(n))
    &&& (p + decimal(n).len() == t.len() || !is_digit(t[p + decimal(n).len()]))
}

/// Whether a character is a decimal digit.
pub open spec fn is_digit(c: char) -> bool {
    '0' <= c && c <= '9'
}

/// The value of a decimal digit.
pub open spec fn digit_value(c: char) -> nat {
    (c as u32 - '0' as u32) as nat
}

/// The value of a sequence of decimal digits.
pub open spec fn digits_value(ds: Seq<char>) -> nat
    decreases ds.len(),
{
    if ds.len() == 0 {
        0
    } else {
        digits_value(ds.drop_last()) * 10 + digit_value(ds.last())
    }
}

/// A canonical decimal numeral: digits only, no leading zero except "0".
pub open spec fn canonical_digits(ds: Seq<char>) -> bool {
    &&& ds.len() > 0
    &&& forall|i: int| 0 <= i < ds.len() ==> is_digit(#[trigger] ds[i])
    &&& (ds[0] == '0' ==> ds.len() == 1)
}

proof fn lemma_digit_char(d: nat)
    requires
        d < 10,
    ensures
        is_digit(digit_char(d)),
        digit_value(digit_char(d)) == d,
        (digit_char(d) == '0') == (d == 0),
{
}

proof fn lemma_decimal(n: nat)
    ensures
        canonical_digits(decimal(n)),
        digits_value(decimal(n)) == n,
    decreases n,
{
    if n < 10 {
        lemma_digit_char(n);
        assert(decimal(n).drop_last() =~= Seq::<char>::empty());
        assert(decimal(n).last() == digit_char(n));
        assert(digits_value(Seq::<char>::empty()) == 0);
        assert(digits_value(decimal(n)) == digits_value(decimal(n).drop_last()) * 10 + digit_value(decimal(n).last()));
    } else {
        lemma_decimal(n / 10);
        lemma_digit_char(n % 10);
        let p = decimal(n / 10);
        let d = decimal(n);
        assert(d == p.push(digit_char(n % 10)));
        assert(d.drop_last() == p);
        assert forall|i: int| 0 <= i < d.len() implies is_digit(#[trigger] d[i]) by {
            if i < p.len() {
                assert(d[i] == p[i]);
            }
        }
        assert(d[0] == p[0]);
        if p[0] == '0' {
            assert(p.len() == 1);
            assert(p.drop_last() =~= Seq::<char>::empty());
            assert(p.last() == p[0]);
            assert(digits_value(Seq::<char>::empty()) == 0);
            assert(digit_value('0') == 0);
            assert(digits_value(p) == 0);
        }
        assert(digits_value(d) == digits_value(p) * 10 + n % 10);
        assert((n / 10) * 10 + n % 10 == n) by (nonlinear_arith);
    }
}

proof fn lemma_digits_positive(ds: Seq<char>)
    requires
        ds.len() > 0,
        forall|i: int| 0 <= i < ds.len() ==> is_digit(#[trigger] ds[i]),
        ds[0] != '0',
    ensures
        digits_value(ds) >= 1,
    decreases ds.len(),
{
    if ds.len() > 1 {
        let t = ds.drop_last();
        assert forall|i: int| 0 <= i < t.len() implies is_digit(#[trigger] t[i]) by {
            assert(t[i] == ds[i]);
        }
        lemma_digits_positive(t);
    }
}

proof fn lemma_canonical_is_decimal(ds: Seq<char>)
    requires
        canonical_digits(ds),
    ensures
        decimal(digits_value(ds)) == ds,
    decreases ds.len(),
{
    if ds.len() == 1 {
        assert(is_digit(ds[0]));
        let v = digit_value(ds[0]);
        assert(ds.drop_last() =~= Seq::<char>::empty());
        assert(digits_value(Seq::<char>::empty()) == 0);
        assert(ds.last() == ds[0]);
        assert(digits_value(ds) == v);
        assert(v < 10);
        assert(digit_char(v) == ds[0]);
        assert(decimal(v) =~= ds);
    } else {
        let t = ds.drop_last();
        assert(t[0] == ds[0]);
        assert forall|i: int| 0 <= i < t.len() implies is_digit(#[trigger] t[i]) by {
            assert(t[i] == ds[i]);
        }
        lemma_canonical_is_decimal(t);
        lemma_digits_positive(t);
        let v = digits_value(ds);
        let d = digit_value(ds.last());
        assert(is_digit(ds[ds.len() - 1]));
        assert(v == digits_value(t) * 10 + d);
        assert(v >= 10);
        assert(v / 10 == digits_value(t) && v % 10 == d) by (nonlinear_arith)
            requires
                v == digits_value(t) * 10 + d,
                d < 10,
        ;
        assert(digit_char(d) == ds.last());
        assert(decimal(v) =~= ds);
    }
}

proof fn lemma_digits_value_prefix(ds: Seq<char>, k: int)
    requires
        0 <= k <= ds.len(),
    ensures
        digits_value(ds.take(k)) <= digits_value(ds),
    decreases ds.len(),
{
    if k < ds.len() {
        lemma_digits_value_prefix(ds.drop_last(), k);
        assert(ds.drop_last().take(k) =~= ds.take(k));
    } else {
        assert(ds.take(k) =~= ds);
    }
}

/// Reads a canonical decimal integer at `pos`, which must be followed by a
/// non-digit or the end.
pub fn parse_u64(s: &Vec<char>, pos: usize) -> (r: Option<(u64, usize)>)
    requires
        pos <= s@.len(),
    ensures
        r matches Some((n, q)) ==> pos < q <= s@.len() && q == pos + decimal(n as nat).len() && numeral_at(
            s@,
            pos as int,
            n as nat,
        ),
        forall|n: u64| #[trigger] numeral_at(s@, pos as int, n as nat) ==> r == Some(
            (n, (pos + decimal(n as nat).len()) as usize),
        ),
{
    let mut q = pos;
    while q < s.len() && '0' <= s[q] && s[q] <= '9'
        invariant
            pos <= q <= s@.len(),
            forall|i: int| pos <= i < q ==> is_digit(#[trigger] s@[i]),
        decreases s@.len() - q,
    {
        q = q + 1;
    }
    let ghost run = s@.subrange(pos as int, q as int);
    assert forall|i: int| 0 <= i < run.len() implies is_digit(#[trigger] run[i]) by {
        assert(run[i] == s@[pos + i]);
    }
    proof {
        assert forall|n: u64| #[trigger] numeral_at(s@, pos as int, n as nat) implies run == decimal(n as nat) by {
            lemma_decimal(n as nat);
            let d = decimal(n as nat);
            assert forall|i: int| pos <= i < pos + d.len() implies is_digit(s@[i]) by {
                assert(s@[i] == d[i - pos]);
            }
            if q < pos + d.len() {
                assert(is_digit(s@[q as int]));
            }
            if q > pos + d.len() {
                assert(is_digit(s@[pos + d.len()]));
            }
            assert(run =~= d);
        }
    }
    if q == pos {
        proof {
            assert forall|n: u64| #[trigger] numeral_at(s@, pos as int, n as nat) implies false by {
                lemma_decimal(n as nat);
            }
        }
        return None;
    }
    if q - pos > 1 && s[pos] == '0' {
        proof {
            assert(run[0] == s@[pos as int]);
            assert forall|n: u64| #[trigger] numeral_at(s@, pos as int, n as nat) implies false by {
                lemma_decimal(n as nat);
            }
        }
        return None;
    }
    assert(run[0] == s@[pos as int]);
    assert(canonical_digits(run));
    let mut acc: u64 = 0;
    let mut i = pos;
    while i < q
        invariant
            pos <= i <= q <= s@.len(),
            run == s@.subrange(pos as int, q as int),
            forall|j: int| 0 <= j < run.len() ==> is_digit(#[trigger] run[j]),
            acc == digits_value(run.take(i - pos)),
            forall|n: u64| #[trigger] numeral_at(s@, pos as int, n as nat) ==> run == decimal(n as nat),
        decreases q - i,
    {
        let c = s[i];
        assert(run[i - pos] == c);
        assert(is_digit(run[i - pos]));
        let d = (c as u32 - '0' as u32) as u64;
        if acc > (u64::MAX - d) / 10 {
            proof {
                lemma_digits_value_prefix(run, (i - pos + 1) as int);
                assert(run.take(i - pos + 1).drop_last() =~= run.take(i - pos));
                assert(acc * 10 + d > u64::MAX) by (nonlinear_arith)
                    requires
                        acc > (u64::MAX - d) / 10,
                        d < 10,
                ;
                assert(digits_value(run) > u64::MAX);
                assert forall|n: u64| #[trigger] numeral_at(s@, pos as int, n as nat) implies false by {
                    lemma_decimal(n as nat);
                }
            }
            return None;
        }
        assert(acc * 10 + d <= u64::MAX) by (nonlinear_arith)
            requires
                acc <= (u64::MAX - d) / 10,
                d < 10,
        ;
        proof {
            assert(run.take(i - pos + 1).drop_last() =~= run.take(i - pos));
            assert(run.take(i - pos + 1).last() == c);
        }
        acc = acc * 10 + d;
        i = i + 1;
    }
    proof {
        assert(run.take(q - pos) =~= run);
        lemma_canonical_is_decimal(run);
        assert forall|n: u64| #[trigger] numeral_at(s@, pos as int, n as nat) implies n == acc by {
            lemma_decimal(n as nat);
        }
        if q < s@.len() {
            assert(!is_digit(s@[q as int]));
        }
        assert(occurs_at(s@, pos as int, decimal(acc as nat)));
    }
    Some((acc, q))
}

proof fn lemma_char_eq(a: char, b: char)
    requires
        a as u32 == b as u32,
    ensures
        a == b,
{
}

proof fn lemma_escape_append(a: Seq<char>, b: Seq<char>)
    ensures
        escape(a + b) == escape(a) + escape(b),
    decreases b.len(),
{
    if b.len() == 0 {
        assert(a + b =~= a);
        assert(escape(a) + escape(b) =~= escape(a));
    } else {
        lemma_escape_append(a, b.drop_last());
        assert((a + b).drop_last() =~= a + b.drop_last());
        assert((a + b).last() == b.last());
        assert(escape(a + b) =~= escape(a) + escape(b));
    }
}

proof fn lemma_escape_split(w: Seq<char>, k: int)
    requires
        0 <= k < w.len(),
    ensures
        escape(w) == escape(w.take(k)) + escape_char(w[k]) + escape(w.skip(k + 1)),
        escape(w.take(k + 1)) == escape(w.take(k)) + escape_char(w[k]),
{
    assert(w =~= w.take(k) + seq![w[k]] + w.skip(k + 1));
    lemma_escape_append(w.take(k) + seq![w[k]], w.skip(k + 1));
    lemma_escape_append(w.take(k), seq![w[k]]);
    assert(seq![w[k]].drop_last() =~= Seq::<char>::empty());
    assert(escape(Seq::<char>::empty()) =~= Seq::<char>::empty());
    assert(seq![w[k]].last() == w[k]);
    assert(escape(seq![w[k]]) =~= escape_char(w[k]));
    assert(w.take(k + 1) =~= w.take(k) + seq![w[k]]);
}

/// The hexadecimal digit character of `d`.
fn hex_digit(d: u32) -> (c: char)
    requires
        d < 16,
    ensures
        c == hex_char(d as nat),
{
    if d == 0 { '0' }
    else if d == 1 { '1' }
    else if d == 2 { '2' }
    else if d == 3 { '3' }
    else if d == 4 { '4' }
    else if d == 5 { '5' }
    else if d == 6 { '6' }
    else if d == 7 { '7' }
    else if d == 8 { '8' }
    else if d == 9 { '9' }
    else if d == 10 { 'a' }
    else if d == 11 { 'b' }
    else if d == 12 { 'c' }
    else if d == 13 { 'd' }
    else if d == 14 { 'e' }
    else { 'f' }
}

/// The value of a lowercase hexadecimal digit character.
fn hex_value(c: char) -> (r: Option<u32>)
    ensures
        r matches Some(v) ==> v < 16 && hex_char(v as nat) == c,
        r is None ==> forall|v: nat| v < 16 ==> hex_char(v) != c,
{
    if '0' <= c && c <= '9' {
        let v = c as u32 - '0' as u32;
        proof { lemma_digit_char(v as nat); assert(digit_char(v as nat) == c); }
        Some(v)
    } else if c == 'a' { Some(10) }
    else if c == 'b' { Some(11) }
    else if c == 'c' { Some(12) }
    else if c == 'd' { Some(13) }
    else if c == 'e' { Some(14) }
    else if c == 'f' { Some(15) }
    else {
        proof {
            assert forall|v: nat| v < 16 implies hex_char(v) != c by {
                if v < 10 { lemma_digit_char(v); }
            }
        }
        None
    }
}

/// Appends the escaped form of one character.
fn push_escaped(out: &mut String, c: char)
    ensures
        final(out)@ == old(out)@ + escape_char(c),
{
    if c == '"' {
        push_char(out, '\\');
        push_char(out, '"');
    } else if c == '\\' {
        push_char(out, '\\');
        push_char(out, '\\');
    } else if (c as u32) < 32 {
        let code = c as u32;
        push_char(out, '\\');
        push_char(out, 'u');
        push_char(out, '0');
        push_char(out, '0');
        push_char(out, hex_digit(code / 16));
        push_char(out, hex_digit(code % 16));
    } else {
        push_char(out, c);
    }
    assert(final(out)@ =~= old(out)@ + escape_char(c));
}

/// Appends `s` as a JSON string.
pub fn push_quoted(out: &mut String, s: &[char])
    ensures
        final(out)@ == old(out)@ + quote(s@),
{
    let ghost start = out@;
    push_char(out, '"');
    let mut i: usize = 0;
    while i < s.len()
        invariant
            i <= s@.len(),
            out@ == start + seq!['"'] + escape(s@.take(i as int)),
        decreases s@.len() - i,
    {
        proof { lemma_escape_split(s@, i as int); }
        push_escaped(out, s[i]);
        i = i + 1;
    }
    assert(s@.take(i as int) =~= s@);
    push_char(out, '"');
    assert(out@ =~= start + quote(s@));
}

/// Appends the characters of `s` as a JSON string.
pub fn push_quoted_str(out: &mut String, s: &str)
    ensures
        final(out)@ == old(out)@ + quote(s@),
{
    let cs = chars_of(s);
    push_quoted(out, cs.as_slice());
}

/// Reads a JSON string at `pos` and returns the characters it holds.
pub fn parse_quoted(s: &Vec<char>, pos: usize) -> (r: Option<(Vec<char>, usize)>)
    requires
        pos <= s@.len(),
    ensures
        r matches Some((v, q)) ==> q == pos + quote(v@).len() && occurs_at(s@, pos as int, quote(v@)),
        forall|w: Seq<char>| #[trigger] occurs_at(s@, pos as int, quote(w)) ==> (r matches Some((v, q)) && v@ == w),
{
    proof {
        assert forall|w: Seq<char>| #[trigger] occurs_at(s@, pos as int, quote(w)) implies s@[pos as int] == '"' by {
            assert(quote(w)[0] == '"');
            assert(s@.subrange(pos as int, pos + quote(w).len())[0] == s@[pos as int]);
        }
    }
    if pos >= s.len() || s[pos] != '"' {
        return None;
    }
    let mut out: Vec<char> = Vec::new();
    let mut i = pos + 1;
    while i < s.len()
        invariant
            pos < i <= s@.len(),
            s@[pos as int] == '"',
            s@.subrange(pos + 1, i as int) == escape(out@),
            forall|w: Seq<char>| #[trigger] occurs_at(s@, pos as int, quote(w)) ==> out@.len() <= w.len()
                && out@ == w.take(out@.len() as int) && i == pos + 1 + escape(out@).len(),
        decreases s@.len() - i,
    {
        let ghost k = out@.len() as int;
        proof {
            assert forall|w: Seq<char>| #[trigger] occurs_at(s@, pos as int, quote(w)) implies (k < w.len() ==> occurs_at(s@, i as int, escape_char(w[k])))
                && (k == w.len() ==> s@[i as int] == '"') by {
                assert(quote(w) == seq!['"'] + escape(w) + seq!['"']);
                if k < w.len() {
                    lemma_escape_split(w, k);
                    let e = escape_char(w[k]);
                    assert forall|j: int| 0 <= j < e.len() implies s@[i + j] == e[j] by {
                        assert(quote(w)[1 + escape(w.take(k)).len() + j] == e[j]);
                        assert(s@[pos + 1 + escape(w.take(k)).len() + j] == quote(w)[1 + escape(w.take(k)).len() + j]);
                    }
                    assert(s@.subrange(i as int, i + e.len()) =~= e);
                } else {
                    assert(w.take(k) =~= w);
                    assert(quote(w)[quote(w).len() - 1] == '"');
                    assert(s@[pos + quote(w).len() - 1] == quote(w)[quote(w).len() - 1]);
                }
            }
        }
        let c = s[i];
        if c == '"' {
            proof {
                assert forall|w: Seq<char>| #[trigger] occurs_at(s@, pos as int, quote(w)) implies out@ == w by {
                    if k < w.len() {
                        assert(occurs_at(s@, i as int, escape_char(w[k])));
                        assert(s@.subrange(i as int, i + escape_char(w[k]).len())[0] == s@[i as int]);
                    }
                    assert(w.take(k) =~= w) by {
                        if k < w.len() {
                            assert(false);
                        }
                    }
                }
                assert(s@.subrange(pos as int, i + 1) =~= quote(out@));
            }
            return Some((out, i + 1));
        }
        let ghost before = out@;
        if c == '\\' {
            if i + 1 >= s.len() {
                proof {
                    assert forall|w: Seq<char>| #[trigger] occurs_at(s@, pos as int, quote(w)) implies false by {
                        if k < w.len() {
                            assert(occurs_at(s@, i as int, escape_char(w[k])));
                            assert(s@.subrange(i as int, i + escape_char(w[k]).len())[0] == s@[i as int]);
                        }
                    }
                }
                return None;
            }
            let c1 = s[i + 1];
            if c1 == '"' || c1 == '\\' {
                out.push(c1);
                proof {
                    assert(escape_char(c1) =~= seq![c, c1]);
                    assert(out@.drop_last() == before);
                    assert(s@.subrange(pos + 1, i + 2) =~= escape(before) + escape_char(c1));
                    assert forall|w: Seq<char>| #[trigger] occurs_at(s@, pos as int, quote(w)) implies out@.len() <= w.len()
                        && out@ == w.take(out@.len() as int) && i + 2 == pos + 1 + escape(out@).len() by {
                        if k < w.len() {
                            let e = escape_char(w[k]);
                            assert(occurs_at(s@, i as int, e));
                            assert(s@.subrange(i as int, i + e.len())[0] == s@[i as int]);
                            assert(s@.subrange(i as int, i + e.len())[1] == s@[i + 1]);
                            assert(w[k] == c1);
                            lemma_escape_split(w, k);
                            assert(w.take(k + 1) =~= before.push(c1));
                        } else {
                            assert(s@[i as int] == '"');
                        }
                    }
                }
                i = i + 2;
            } else if c1 == 'u' {
                if s.len() - i <= 5 || s[i + 2] != '0' || s[i + 3] != '0' {
                    proof {
                        assert forall|w: Seq<char>| #[trigger] occurs_at(s@, pos as int, quote(w)) implies false by {
                            if k < w.len() {
                                let e = escape_char(w[k]);
                                assert(occurs_at(s@, i as int, e));
                                assert(s@.subrange(i as int, i + e.len())[0] == s@[i as int]);
                                assert(s@.subrange(i as int, i + e.len())[1] == s@[i + 1]);
                                if (w[k] as u32) < 32 && w[k] != '"' && w[k] != '\\' {
                                    assert(s@.subrange(i as int, i + e.len())[2] == s@[i + 2]);
                                    assert(s@.subrange(i as int, i + e.len())[3] == s@[i + 3]);
                                }
                            }
                        }
                    }
                    return None;
                }
                let hi = hex_value(s[i + 4]);
                let lo = hex_value(s[i + 5]);
                match (hi, lo) {
                    (Some(h), Some(l)) => {
                        if h >= 2 {
                            proof {
                                assert forall|w: Seq<char>| #[trigger] occurs_at(s@, pos as int, quote(w)) implies false by {
                                    if k < w.len() {
                                        let e = escape_char(w[k]);
                                        assert(occurs_at(s@, i as int, e));
                                        assert(s@.subrange(i as int, i + e.len())[0] == s@[i as int]);
                                        assert(s@.subrange(i as int, i + e.len())[1] == s@[i + 1]);
                                        if (w[k] as u32) < 32 && w[k] != '"' && w[k] != '\\' {
                                            assert(s@.subrange(i as int, i + e.len())[4] == s@[i + 4]);
                                            assert((w[k] as u32) / 16 < 2);
                                            if (w[k] as u32) / 16 == 0 {
                                                assert(hex_char(0) == '0');
                                            } else {
                                                assert(hex_char(1) == '1');
                                            }
                                        }
                                    }
                                }
                            }
                            return None;
                        }
                        let code: u32 = h * 16 + l;
                        let ch = (code as u8) as char;
                        assert(ch as u32 == code);
                        out.push(ch);
                        proof {
                            assert(code / 16 == h && code % 16 == l);
                            assert(ch != '"' && ch != '\\');
                            assert(escape_char(ch) =~= seq!['\\', 'u', '0', '0', s@[i + 4], s@[i + 5]]);
                            assert(out@.drop_last() == before);
                            assert(s@.subrange(pos + 1, i + 6) =~= escape(before) + escape_char(ch));
                            assert forall|w: Seq<char>| #[trigger] occurs_at(s@, pos as int, quote(w)) implies out@.len() <= w.len()
                                && out@ == w.take(out@.len() as int) && i + 6 == pos + 1 + escape(out@).len() by {
                                if k < w.len() {
                                    let e = escape_char(w[k]);
                                    assert(occurs_at(s@, i as int, e));
                                    assert(s@.subrange(i as int, i + e.len())[0] == s@[i as int]);
                                    assert(s@.subrange(i as int, i + e.len())[1] == s@[i + 1]);
                                    assert((w[k] as u32) < 32 && w[k] != '"' && w[k] != '\\');
                                    assert(s@.subrange(i as int, i + e.len())[4] == s@[i + 4]);
                                    assert(s@.subrange(i as int, i + e.len())[5] == s@[i + 5]);
                                    let wc = w[k] as u32;
                                    assert forall|a: nat, b: nat| a < 16 && b < 16 && a != b implies hex_char(a) != hex_char(b) by {
                                        if a < 10 { lemma_digit_char(a); }
                                        if b < 10 { lemma_digit_char(b); }
                                    }
                                    assert(hex_char((wc / 16) as nat) == hex_char(h as nat));
                                    assert(hex_char((wc % 16) as nat) == hex_char(l as nat));
                                    assert(wc / 16 == h);
                                    assert(wc % 16 == l);
                                    assert(wc == code) by (nonlinear_arith)
                                        requires
                                            wc / 16 == h,
                                            wc % 16 == l,
                                            code == h * 16 + l,
                                    ;
                                    assert(w[k] as u32 == ch as u32);
                                    lemma_char_eq(w[k], ch);
                                    lemma_escape_split(w, k);
                                    assert(w.take(k + 1) =~= before.push(ch));
                                } else {
                                    assert(s@[i as int] == '"');
                                }
                            }
                        }
                        i = i + 6;
                    },
                    _ => {
                        proof {
                            assert forall|w: Seq<char>| #[trigger] occurs_at(s@, pos as int, quote(w)) implies false by {
                                if k < w.len() {
                                    let e = escape_char(w[k]);
                                    assert(occurs_at(s@, i as int, e));
                                    assert(s@.subrange(i as int, i + e.len())[0] == s@[i as int]);
                                    assert(s@.subrange(i as int, i + e.len())[1] == s@[i + 1]);
                                    if (w[k] as u32) < 32 && w[k] != '"' && w[k] != '\\' {
                                        assert(s@.subrange(i as int, i + e.len())[4] == s@[i + 4]);
                                        assert(s@.subrange(i as int, i + e.len())[5] == s@[i + 5]);
                                    }
                                }
                            }
                        }
                        return None;
                    },
                }
            } else {
                proof {
                    assert forall|w: Seq<char>| #[trigger] occurs_at(s@, pos as int, quote(w)) implies false by {
                        if k < w.len() {
                            let e = escape_char(w[k]);
                            assert(occurs_at(s@, i as int, e));
                            assert(s@.subrange(i as int, i + e.len())[0] == s@[i as int]);
                            assert(s@.subrange(i as int, i + e.len())[1] == s@[i + 1]);
                        }
                    }
                }
                return None;
            }
        } else if (c as u32) < 32 {
            proof {
                assert forall|w: Seq<char>| #[trigger] occurs_at(s@, pos as int, quote(w)) implies false by {
                    if k < w.len() {
                        let e = escape_char(w[k]);
                        assert(occurs_at(s@, i as int, e));
                        assert(s@.subrange(i as int, i + e.len())[0] == s@[i as int]);
                    }
                }
            }
            return None;
        } else {
            out.push(c);
            proof {
                assert(escape_char(c) =~= seq![c]);
                assert(out@.drop_last() == before);
                assert(s@.subrange(pos + 1, i + 1) =~= escape(before) + escape_char(c));
                assert forall|w: Seq<char>| #[trigger] occurs_at(s@, pos as int, quote(w)) implies out@.len() <= w.len()
                    && out@ == w.take(out@.len() as int) && i + 1 == pos + 1 + escape(out@).len() by {
                    if k < w.len() {
                        let e = escape_char(w[k]);
                        assert(occurs_at(s@, i as int, e));
                        assert(s@.subrange(i as int, i + e.len())[0] == s@[i as int]);
                        assert(w[k] == c);
                        lemma_escape_split(w, k);
                        assert(w.take(k + 1) =~= before.push(c));
                    }
                }
            }
            i = i + 1;
        }
    }
    proof {
        assert forall|w: Seq<char>| #[trigger] occurs_at(s@, pos as int, quote(w)) implies false by {
            let k = out@.len() as int;
            if k < w.len() {
                lemma_escape_split(w, k);
            } else {
                assert(w.take(k) =~= w);
            }
        }
    }
    None
}

/// The views of a sequence of values.
pub open spec fn views<X: View>(xs: Seq<X>) -> Seq<X::V> {
    xs.map_values(|x: X| x@)
}

/// What follows the first `k` items of a list's joined text.
pub open spec fn joined_rest(items: Seq<Seq<char>>, k: int) -> Seq<char> {
    if k >= items.len() {
        Seq::empty()
    } else {
        seq![','] + joined(items.skip(k))
    }
}

pub proof fn lemma_joined_prefix(items: Seq<Seq<char>>, k: int)
    requires
        1 <= k <= items.len(),
    ensures
        joined(items) == joined(items.take(k)) + joined_rest(items, k),
    decreases items.len(),
{
    if k == items.len() {
        assert(items.take(k) =~= items);
        assert(joined(items) + Seq::<char>::empty() =~= joined(items));
    } else {
        let dl = items.drop_last();
        lemma_joined_prefix(dl, k);
        assert(dl.take(k) =~= items.take(k));
        let sk = items.skip(k);
        if k == items.len() - 1 {
            assert(sk =~= seq![items.last()]);
            assert(joined(sk) == items.last());
            assert(joined(items) =~= joined(items.take(k)) + joined_rest(items, k));
        } else {
            assert(sk.drop_last() =~= dl.skip(k));
            assert(sk.last() == items.last());
            assert(joined(sk) == joined(dl.skip(k)) + seq![','] + items.last());
            assert(joined(items) =~= joined(items.take(k)) + joined_rest(items, k));
        }
    }
}

pub proof fn lemma_joined_step(items: Seq<Seq<char>>, k: int)
    requires
        0 <= k < items.len(),
    ensures
        joined(items.take(k + 1)) == (if k == 0 { Seq::empty() } else { joined(items.take(k)) + seq![','] }) + items[k],
{
    let t = items.take(k + 1);
    assert(t.drop_last() =~= items.take(k));
    assert(t.last() == items[k]);
    if k == 0 {
        assert(Seq::<char>::empty() + items[0] =~= items[0]);
    }
}

/// `item` reads an item: on success it names the item and consumes exactly
/// the item's text.
pub open spec fn reader_sound<X: View, P: Fn(&Vec<char>, usize) -> Option<(X, usize)>>(
    item: P,
    text: spec_fn(X::V) -> Seq<char>,
    ok: spec_fn(X::V) -> bool,
) -> bool {
    forall|s: &Vec<char>, p: usize, r: Option<(X, usize)>|
        p <= s@.len() && #[trigger] call_ensures(item, (s, p), r) ==> (r matches Some((x, q)) ==> ok(x@) && q == p
            + text(x@).len() && occurs_at(s@, p as int, text(x@)))
}

/// `item` reads every valid item whose text stands at the position and is
/// followed by a comma or a closing bracket or brace.
pub open spec fn reader_complete<X: View, P: Fn(&Vec<char>, usize) -> Option<(X, usize)>>(
    item: P,
    text: spec_fn(X::V) -> Seq<char>,
    ok: spec_fn(X::V) -> bool,
) -> bool {
    forall|s: &Vec<char>, p: usize, v: X::V, r: Option<(X, usize)>|
        #![trigger call_ensures(item, (s, p), r), ok(v)]
        p <= s@.len() && ok(v) && occurs_then_stop(s@, p as int, text(v)) && call_ensures(item, (s, p), r) ==> (r matches Some((x, q)) && x@ == v)
}

/// The item texts are not empty and do not begin with a closing bracket.
pub open spec fn texts_start_well<V>(text: spec_fn(V) -> Seq<char>, ok: spec_fn(V) -> bool) -> bool {
    forall|v: V| #[trigger] ok(v) ==> text(v).len() > 0 && text(v)[0] != ']'
}

/// Reads a JSON list whose items `item` reads.
pub fn parse_list<X: View, P: Fn(&Vec<char>, usize) -> Option<(X, usize)>>(
    s: &Vec<char>,
    pos: usize,
    item: &P,
    Ghost(text): Ghost<spec_fn(X::V) -> Seq<char>>,
    Ghost(ok): Ghost<spec_fn(X::V) -> bool>,
) -> (r: Option<(Vec<X>, usize)>)
    requires
        pos <= s@.len(),
        forall|s2: &Vec<char>, p: usize| p <= s2@.len() ==> call_requires(*item, (s2, p)),
        reader_sound(*item, text, ok),
        reader_complete(*item, text, ok),
        texts_start_well(text, ok),
    ensures
        r matches Some((xs, q)) ==> (forall|i: int| 0 <= i < xs@.len() ==> ok(#[trigger] xs@[i]@)) && q == pos
            + json_list(views(xs@).map_values(text)).len() && occurs_at(s@, pos as int, json_list(views(xs@).map_values(text))),
        forall|vs: Seq<X::V>| (forall|i: int| 0 <= i < vs.len() ==> ok(#[trigger] vs[i])) && #[trigger] occurs_at(
            s@,
            pos as int,
            json_list(vs.map_values(text)),
        ) ==> (r matches Some((xs, q)) && views(xs@) == vs),
{
    proof {
        assert forall|vs: Seq<X::V>| (forall|i: int| 0 <= i < vs.len() ==> ok(#[trigger] vs[i])) && #[trigger] occurs_at(
            s@,
            pos as int,
            json_list(vs.map_values(text)),
        ) implies s@[pos as int] == '[' && pos + 1 < s@.len() && (s@[pos + 1] == ']' <==> vs.len() == 0) by {
            let t = vs.map_values(text);
            let l = json_list(t);
            assert(l[0] == '[');
            assert(s@.subrange(pos as int, pos + l.len())[0] == s@[pos as int]);
            assert(s@.subrange(pos as int, pos + l.len())[1] == s@[pos + 1]);
            if vs.len() == 0 {
                assert(l =~= seq!['[', ']']);
            } else {
                assert(ok(vs[0]));
                lemma_joined_prefix(t, 1);
                lemma_joined_step(t, 0);
                assert(t.take(0) =~= Seq::<Seq<char>>::empty());
                assert(joined(t)[0] == t[0][0]);
                assert(l[1] == t[0][0]);
            }
        }
    }
    if pos >= s.len() || s[pos] != '[' {
        return None;
    }
    if pos + 1 >= s.len() {
        return None;
    }
    let mut xs: Vec<X> = Vec::new();
    if s[pos + 1] == ']' {
        proof {
            assert(views(xs@).map_values(text) =~= Seq::<Seq<char>>::empty());
            assert(s@.subrange(pos as int, pos + 2) =~= json_list(views(xs@).map_values(text)));
            assert forall|vs: Seq<X::V>| (forall|i: int| 0 <= i < vs.len() ==> ok(#[trigger] vs[i])) && #[trigger] occurs_at(
                s@,
                pos as int,
                json_list(vs.map_values(text)),
            ) implies views(xs@) == vs by {
                assert(vs =~= Seq::<X::V>::empty());
                assert(views(xs@) =~= Seq::<X::V>::empty());
            }
        }
        return Some((xs, pos + 2));
    }
    let mut i = pos + 1;
    while i < s.len()
        invariant
            pos < i <= s@.len(),
            s@[pos as int] == '[',
            forall|j: int| 0 <= j < xs@.len() ==> ok(#[trigger] xs@[j]@),
            s@.subrange(pos as int, i as int) == seq!['['] + (if xs@.len() == 0 {
                Seq::<char>::empty()
            } else {
                joined(views(xs@).map_values(text)) + seq![',']
            }),
            forall|s2: &Vec<char>, p: usize| p <= s2@.len() ==> call_requires(*item, (s2, p)),
            reader_sound(*item, text, ok),
            reader_complete(*item, text, ok),
            texts_start_well(text, ok),
            forall|vs: Seq<X::V>| (forall|j: int| 0 <= j < vs.len() ==> ok(#[trigger] vs[j])) && #[trigger] occurs_at(
                s@,
                pos as int,
                json_list(vs.map_values(text)),
            ) ==> xs@.len() < vs.len() && views(xs@) == vs.take(xs@.len() as int) && i == pos + 1 + (if xs@.len() == 0 {
                0
            } else {
                joined(vs.map_values(text).take(xs@.len() as int)).len() + 1
            }),
        decreases s@.len() - i,
    {
        let ghost k = xs@.len() as int;
        proof {
            assert forall|vs: Seq<X::V>| (forall|j: int| 0 <= j < vs.len() ==> ok(#[trigger] vs[j])) && #[trigger] occurs_at(
                s@,
                pos as int,
                json_list(vs.map_values(text)),
            ) implies occurs_then_stop(s@, i as int, text(vs[k])) && ok(vs[k]) && (s@[i + text(vs[k]).len()] == ','
                <==> k + 1 < vs.len()) && (s@[i + text(vs[k]).len()] == ',' || s@[i + text(vs[k]).len()] == ']') by {
                let t = vs.map_values(text);
                let l = json_list(t);
                assert(ok(vs[k]));
                lemma_joined_prefix(t, k + 1);
                lemma_joined_step(t, k);
                let pre = if k == 0 { Seq::<char>::empty() } else { joined(t.take(k)) + seq![','] };
                assert(l =~= seq!['['] + pre + t[k] + joined_rest(t, k + 1) + seq![']']);
                assert(pre.len() + 1 + pos == i);
                let after = i + t[k].len();
                assert forall|j: int| 0 <= j < t[k].len() implies s@[i + j] == t[k][j] by {
                    assert(l[1 + pre.len() + j] == t[k][j]);
                    assert(s@.subrange(pos as int, pos + l.len())[1 + pre.len() + j] == l[1 + pre.len() + j]);
                }
                assert(s@.subrange(i as int, after) =~= t[k]);
                assert(l[(1 + pre.len() + t[k].len()) as int] == s@[after]) by {
                    assert(s@.subrange(pos as int, pos + l.len())[(1 + pre.len() + t[k].len()) as int] == s@[after]);
                }
                if k + 1 < vs.len() {
                    assert(joined_rest(t, k + 1)[0] == ',');
                    assert(l[(1 + pre.len() + t[k].len()) as int] == ',');
                } else {
                    assert(joined_rest(t, k + 1) =~= Seq::<char>::empty());
                    assert(l[(1 + pre.len() + t[k].len()) as int] == ']');
                }
            }
        }
        let res = item(s, i);
        proof {
            assert(call_ensures(*item, (s, i), res));
            assert(res matches Some((x, q)) ==> ok(x@) && q == i + text(x@).len() && occurs_at(s@, i as int, text(x@)));
        }
        match res {
            None => {
                proof {
                    assert forall|vs: Seq<X::V>| (forall|j: int| 0 <= j < vs.len() ==> ok(#[trigger] vs[j])) && #[trigger] occurs_at(
                        s@,
                        pos as int,
                        json_list(vs.map_values(text)),
                    ) implies false by {
                        assert(ok(vs[k]));
                        assert(occurs_then_stop(s@, i as int, text(vs[k])));
                    }
                }
                return None;
            },
            Some((x, q)) => {
                let ghost old_xs = views(xs@);
                proof {
                    assert(ok(x@));
                }
                xs.push(x);
                proof {
                    assert(views(xs@) =~= old_xs.push(x@));
                    let t_new = views(xs@).map_values(text);
                    assert(t_new.take(k) =~= old_xs.map_values(text));
                    lemma_joined_step(t_new, k);
                    assert(t_new.take(k + 1) =~= t_new);
                    assert(s@.subrange(pos as int, q as int) =~= s@.subrange(pos as int, i as int) + s@.subrange(i as int, q as int));
                    assert(s@.subrange(pos as int, q as int) =~= seq!['['] + joined(t_new));
                    assert forall|vs: Seq<X::V>| (forall|j: int| 0 <= j < vs.len() ==> ok(#[trigger] vs[j])) && #[trigger] occurs_at(
                        s@,
                        pos as int,
                        json_list(vs.map_values(text)),
                    ) implies views(xs@) == vs.take(k + 1) && q == i + text(vs[k]).len() by {
                        assert(ok(vs[k]));
                        assert(occurs_then_stop(s@, i as int, text(vs[k])));
                        assert(x@ == vs[k]);
                        assert(views(xs@) =~= vs.take(k + 1));
                    }
                }
                if q >= s.len() {
                    proof {
                        assert forall|vs: Seq<X::V>| (forall|j: int| 0 <= j < vs.len() ==> ok(#[trigger] vs[j])) && #[trigger] occurs_at(
                            s@,
                            pos as int,
                            json_list(vs.map_values(text)),
                        ) implies false by {
                            assert(occurs_then_stop(s@, i as int, text(vs[k])));
                        }
                    }
                    return None;
                }
                if s[q] == ']' {
                    proof {
                        let t_new = views(xs@).map_values(text);
                        assert(s@.subrange(pos as int, q + 1) =~= json_list(t_new));
                        assert forall|vs: Seq<X::V>| (forall|j: int| 0 <= j < vs.len() ==> ok(#[trigger] vs[j])) && #[trigger] occurs_at(
                            s@,
                            pos as int,
                            json_list(vs.map_values(text)),
                        ) implies views(xs@) == vs by {
                            assert(occurs_then_stop(s@, i as int, text(vs[k])));
                            assert(k + 1 == vs.len());
                            assert(vs.take(k + 1) =~= vs);
                        }
                    }
                    return Some((xs, q + 1));
                }
                if s[q] != ',' {
                    proof {
                        assert forall|vs: Seq<X::V>| (forall|j: int| 0 <= j < vs.len() ==> ok(#[trigger] vs[j])) && #[trigger] occurs_at(
                            s@,
                            pos as int,
                            json_list(vs.map_values(text)),
                        ) implies false by {
                            assert(occurs_then_stop(s@, i as int, text(vs[k])));
                        }
                    }
                    return None;
                }
                proof {
                    let t_new = views(xs@).map_values(text);
                    assert(s@.subrange(pos as int, q + 1) =~= seq!['['] + joined(t_new) + seq![',']);
                    assert forall|vs: Seq<X::V>| (forall|j: int| 0 <= j < vs.len() ==> ok(#[trigger] vs[j])) && #[trigger] occurs_at(
                        s@,
                        pos as int,
                        json_list(vs.map_values(text)),
                    ) implies xs@.len() < vs.len() && q + 1 == pos + 1 + joined(vs.map_values(text).take(xs@.len() as int)).len() + 1 by {
                        assert(occurs_then_stop(s@, i as int, text(vs[k])));
                        assert(k + 1 < vs.len());
                        let t = vs.map_values(text);
                        lemma_joined_step(t, k);
                        assert(t.take(k + 1).len() == k + 1);
                    }
                }
                i = q + 1;
            },
        }
    }
    proof {
        assert forall|vs: Seq<X::V>| (forall|j: int| 0 <= j < vs.len() ==> ok(#[trigger] vs[j])) && #[trigger] occurs_at(
            s@,
            pos as int,
            json_list(vs.map_values(text)),
        ) implies false by {
            let k = xs@.len() as int;
            let t = vs.map_values(text);
            assert(ok(vs[k]));
            lemma_joined_prefix(t, k + 1);
            lemma_joined_step(t, k);
        }
    }
    None
}

/// A part of a text that appears in `t` appears there too.
pub proof fn lemma_occurs_sub(t: Seq<char>, p: int, w: Seq<char>, a: int, b: int)
    requires
        occurs_at(t, p, w),
        0 <= a <= b <= w.len(),
    ensures
        occurs_at(t, p + a, w.subrange(a, b)),
{
    assert forall|j: int| 0 <= j < b - a implies t.subrange(p + a, p + b)[j] == w.subrange(a, b)[j] by {
        assert(t.subrange(p, p + w.len())[a + j] == t[p + a + j]);
    }
    assert(t.subrange(p + a, p + b) =~= w.subrange(a, b));
}

/// Texts that appear one after the other in `t` make up their concatenation.
pub proof fn lemma_occurs_concat(t: Seq<char>, p: int, a: Seq<char>, b: Seq<char>)
    requires
        occurs_at(t, p, a),
        occurs_at(t, p + a.len(), b),
    ensures
        occurs_at(t, p, a + b),
{
    assert forall|j: int| 0 <= j < a.len() + b.len() implies t.subrange(p, p + a.len() + b.len())[j] == (a + b)[j] by {
        if j < a.len() {
            assert(t.subrange(p, p + a.len())[j] == t[p + j]);
        } else {
            assert(t.subrange(p + a.len(), p + a.len() + b.len())[j - a.len()] == t[p + j]);
        }
    }
    assert(t.subrange(p, p + a.len() + b.len()) =~= a + b);
}

/// Whether `t` holds the character `c` at `p`.
pub fn char_at(s: &Vec<char>, p: usize, c: char) -> (r: bool)
    ensures
        s@.len() <= usize::MAX,
        r == (p < s@.len() && s@[p as int] == c),
        r ==> occurs_at(s@, p as int, seq![c]),
        occurs_at(s@, p as int, seq![c]) ==> r,
{
    let n = s.len();
    let r = p < n && s[p] == c;
    proof {
        if r {
            assert(s@.subrange(p as int, p + 1) =~= seq![c]);
        }
        if occurs_at(s@, p as int, seq![c]) {
            assert(s@.subrange(p as int, p + 1)[0] == s@[p as int]);
        }
    }
    r
}

/// Whether `t` holds the characters of `lit` at `p`.
pub fn lit_at(s: &Vec<char>, p: usize, lit: &str) -> (r: bool)
    ensures
        s@.len() <= usize::MAX,
        r == occurs_at(s@, p as int, lit@),
{
    let cs = chars_of(lit);
    if p > s.len() || s.len() - p < cs.len() {
        return false;
    }
    let n = s.len();
    let mut j: usize = 0;
    while j < cs.len()
        invariant
            n == s@.len(),
            cs@ == lit@,
            p + cs@.len() <= s@.len(),
            j <= cs@.len(),
            forall|q: int| 0 <= q < j ==> s@[p + q] == cs@[q],
        decreases cs@.len() - j,
    {
        assert(p + j < s@.len());
        if s[p + j] != cs[j] {
            proof {
                assert(s@.subrange(p as int, p + cs@.len())[j as int] == s@[p + j]);
            }
            return false;
        }
        j = j + 1;
    }
    assert(s@.subrange(p as int, p + cs@.len()) =~= lit@);
    true
}

/// A decimal numeral, as a function.
pub open spec fn num_fn() -> spec_fn(u64) -> Seq<char> {
    |n: u64| decimal(n as nat)
}

/// A JSON string, as a function.
pub open spec fn quote_fn() -> spec_fn(Seq<char>) -> Seq<char> {
    |v: Seq<char>| quote(v)
}

/// Every value is accepted.
pub open spec fn any_u64() -> spec_fn(u64) -> bool {
    |n: u64| true
}


/// A JSON list of integers.
pub open spec fn num_list_text(v: Seq<u64>) -> Seq<char> {
    json_list(v.map_values(num_fn()))
}


/// Reads a decimal integer followed by a comma or a closing bracket or brace.
pub fn read_num(s: &Vec<char>, p: usize) -> (r: Option<(u64, usize)>)
    requires
        p <= s@.len(),
    ensures
        r matches Some((n, q)) ==> q == p + decimal(n as nat).len() && occurs_at(s@, p as int, decimal(n as nat)),
        forall|n: u64| #![trigger decimal(n as nat)] occurs_then_stop(s@, p as int, decimal(n as nat)) ==> r == Some(
            (n, (p + decimal(n as nat).len()) as usize),
        ),
{
    proof {
        assert forall|n: u64| #![trigger decimal(n as nat)] occurs_then_stop(s@, p as int, decimal(n as nat)) implies numeral_at(
            s@,
            p as int,
            n as nat,
        ) by {}
    }
    parse_u64(s, p)
}

/// Reads a JSON string.
pub fn read_str(s: &Vec<char>, p: usize) -> (r: Option<(Vec<char>, usize)>)
    requires
        p <= s@.len(),
    ensures
        r matches Some((v, q)) ==> q == p + quote(v@).len() && occurs_at(s@, p as int, quote(v@)),
        forall|w: Seq<char>| #[trigger] occurs_at(s@, p as int, quote(w)) ==> (r matches Some((v, q)) && v@ == w),
{
    parse_quoted(s, p)
}

/// Reads a JSON list of integers.
pub fn read_num_list(s: &Vec<char>, p: usize) -> (r: Option<(Vec<u64>, usize)>)
    requires
        p <= s@.len(),
    ensures
        r matches Some((v, q)) ==> q == p + num_list_text(v@).len() && occurs_at(s@, p as int, num_list_text(v@)),
        forall|w: Seq<u64>| #[trigger] occurs_at(s@, p as int, num_list_text(w)) ==> (r matches Some((v, q)) && v@ == w),
{
    proof {
        assert forall|v: u64| #[trigger] any_u64()(v) implies num_fn()(v).len() > 0 && num_fn()(v)[0] != ']' by {
            lemma_decimal(v as nat);
            assert(is_digit(decimal(v as nat)[0]));
        }
        assert forall|s2: &Vec<char>, p2: usize, v: u64, r2: Option<(u64, usize)>|
            #![trigger call_ensures(read_num, (s2, p2), r2), any_u64()(v)]
            p2 <= s2@.len() && any_u64()(v) && occurs_then_stop(s2@, p2 as int, num_fn()(v)) && call_ensures(read_num, (s2, p2), r2)
            implies (r2 matches Some((x, q)) && x@ == v) by {
            assert(occurs_then_stop(s2@, p2 as int, decimal(v as nat)));
        }
    }
    let r = parse_list(s, p, &read_num, Ghost(num_fn()), Ghost(any_u64()));
    proof {
        assert forall|v: Vec<u64>| #[trigger] views(v@) == v@ by {
            assert(views(v@) =~= v@);
        }
        assert forall|w: Seq<u64>| #[trigger] occurs_at(s@, p as int, num_list_text(w)) implies (r matches Some((v, q)) && v@ == w) by {
            assert(forall|i: int| 0 <= i < w.len() ==> #[trigger] any_u64()(w[i]));
            assert(occurs_at(s@, p as int, json_list(w.map_values(num_fn()))));
        }
    }
    r
}

/// An alias entry: `["NAME",id]`.
pub open spec fn alias_text(v: (Seq<char>, u64)) -> Seq<char> {
    seq!['['] + quote(v.0) + seq![','] + decimal(v.1 as nat) + seq![']']
}

/// An alias entry, as a function.
pub open spec fn alias_fn() -> spec_fn((Seq<char>, u64)) -> Seq<char> {
    |v: (Seq<char>, u64)| alias_text(v)
}

/// Reads an alias entry.
pub fn read_alias(s: &Vec<char>, p: usize) -> (r: Option<((Vec<char>, u64), usize)>)
    requires
        p <= s@.len(),
    ensures
        r matches Some((x, q)) ==> q == p + alias_text(x@).len() && occurs_at(s@, p as int, alias_text(x@)),
        forall|v: (Seq<char>, u64)| #![trigger alias_text(v)] occurs_at(s@, p as int, alias_text(v)) ==> (r matches Some((x, q)) && x@ == v),
{
    proof {
        assert forall|v: (Seq<char>, u64)| #[trigger] occurs_at(s@, p as int, alias_text(v)) implies {
            let a: int = 1 + quote(v.0).len() as int;
            &&& s@[p as int] == '['
            &&& occurs_at(s@, p + 1, quote(v.0))
            &&& s@[p + a] == ','
            &&& occurs_then_stop(s@, p + a + 1, decimal(v.1 as nat))
            &&& s@[p + a + 1 + decimal(v.1 as nat).len()] == ']'
        } by {
            let t = alias_text(v);
            let a: int = 1 + quote(v.0).len() as int;
            let d = decimal(v.1 as nat);
            let dl: int = d.len() as int;
            let tl: int = t.len() as int;
            lemma_occurs_sub(s@, p as int, t, 0, 1);
            lemma_occurs_sub(s@, p as int, t, 1, a);
            lemma_occurs_sub(s@, p as int, t, a, a + 1);
            lemma_occurs_sub(s@, p as int, t, a + 1, a + 1 + dl);
            lemma_occurs_sub(s@, p as int, t, a + 1 + dl, tl);
            assert(t.subrange(0, 1) =~= seq!['[']);
            assert(t.subrange(1, a) =~= quote(v.0));
            assert(t.subrange(a, a + 1) =~= seq![',']);
            assert(t.subrange(a + 1, a + 1 + dl) =~= d);
            assert(t.subrange(a + 1 + dl, tl) =~= seq![']']);
            assert(s@.subrange(p as int, p + 1)[0] == s@[p as int]);
            assert(s@.subrange(p + a, p + a + 1)[0] == s@[p + a]);
            assert(s@.subrange(p + a + 1 + dl, p + tl)[0] == s@[p + a + 1 + dl]);
        }
    }
    if !char_at(s, p, '[') {
        return None;
    }
    let (name, p1) = match read_str(s, p + 1) {
        Some(x) => x,
        None => {
            return None;
        },
    };
    if !char_at(s, p1, ',') {
        return None;
    }
    let (id, p2) = match read_num(s, p1 + 1) {
        Some(x) => x,
        None => {
            return None;
        },
    };
    if !char_at(s, p2, ']') {
        return None;
    }
    proof {
        let t = alias_text((name@, id));
        lemma_occurs_concat(s@, p as int, seq!['['], quote(name@));
        lemma_occurs_concat(s@, p as int, seq!['['] + quote(name@), seq![',']);
        lemma_occurs_concat(s@, p as int, seq!['['] + quote(name@) + seq![','], decimal(id as nat));
        lemma_occurs_concat(s@, p as int, seq!['['] + quote(name@) + seq![','] + decimal(id as nat), seq![']']);
        assert forall|v: (Seq<char>, u64)| #[trigger] occurs_at(s@, p as int, alias_text(v)) implies (name@, id) == v by {
            let a: int = 1 + quote(v.0).len() as int;
            assert(occurs_at(s@, p + 1, quote(v.0)));
            assert(name@ == v.0);
            assert(occurs_then_stop(s@, p + a + 1, decimal(v.1 as nat)));
        }
    }
    Some(((name, id), p2 + 1))
}


/// The text of a verb: its numeric code.
pub open spec fn op_text(op: Op) -> Seq<char> {
    decimal(op_code_spec(op) as nat)
}

/// Reads a verb, written as its numeric code, followed by a comma or a
/// closing bracket or brace.
pub fn read_op(s: &Vec<char>, p: usize) -> (r: Option<(Op, usize)>)
    requires
        p <= s@.len(),
    ensures
        r matches Some((op, q)) ==> q == p + op_text(op).len() && occurs_at(s@, p as int, op_text(op)),
        forall|op: Op| #[trigger] occurs_then_stop(s@, p as int, op_text(op)) ==> r == Some(
            (op, (p + op_text(op).len()) as usize),
        ),
{
    proof {
        assert forall|op: Op| #[trigger] occurs_then_stop(s@, p as int, op_text(op)) implies occurs_then_stop(
            s@,
            p as int,
            decimal((op_code_spec(op) as u64) as nat),
        ) by {}
    }
    match read_num(s, p) {
        None => None,
        Some((n, q)) => {
            if n > 6 {
                return None;
            }
            match Op::from_code(n as u32) {
                Some(op) => {
                    proof {
                        assert forall|op2: Op| #[trigger] occurs_then_stop(s@, p as int, op_text(op2)) implies op2 == op by {
                            lemma_op_code_injective(op, op2);
                        }
                    }
                    Some((op, q))
                },
                None => None,
            }
        },
    }
}

/// Reads a size, written in decimal, followed by a comma or a closing
/// bracket or brace.
pub fn read_usize(s: &Vec<char>, p: usize) -> (r: Option<(usize, usize)>)
    requires
        p <= s@.len(),
    ensures
        r matches Some((n, q)) ==> q == p + decimal(n as nat).len() && occurs_at(s@, p as int, decimal(n as nat)),
        forall|n: usize| #![trigger decimal(n as nat)] occurs_then_stop(s@, p as int, decimal(n as nat)) ==> r == Some(
            (n, (p + decimal(n as nat).len()) as usize),
        ),
{
    proof {
        assert forall|n: usize| #![trigger decimal(n as nat)] occurs_then_stop(s@, p as int, decimal(n as nat)) implies occurs_then_stop(
            s@,
            p as int,
            decimal((n as u64) as nat),
        ) by {}
    }
    match read_num(s, p) {
        None => None,
        Some((n, q)) => {
            if n > usize::MAX as u64 {
                return None;
            }
            Some((n as usize, q))
        },
    }
}

/// A size in decimal, as a function.
pub open spec fn usize_fn() -> spec_fn(usize) -> Seq<char> {
    |n: usize| decimal(n as nat)
}

/// Every size is accepted.
pub open spec fn any_usize() -> spec_fn(usize) -> bool {
    |n: usize| true
}

/// A JSON list of sizes.
pub open spec fn usize_list_text(v: Seq<usize>) -> Seq<char> {
    json_list(v.map_values(usize_fn()))
}

/// Reads a JSON list of sizes.
pub fn read_usize_list(s: &Vec<char>, p: usize) -> (r: Option<(Vec<usize>, usize)>)
    requires
        p <= s@.len(),
    ensures
        r matches Some((v, q)) ==> q == p + usize_list_text(v@).len() && occurs_at(s@, p as int, usize_list_text(v@)),
        forall|w: Seq<usize>| #[trigger] occurs_at(s@, p as int, usize_list_text(w)) ==> (r matches Some((v, q)) && v@ == w),
{
    proof {
        assert forall|v: usize| #[trigger] any_usize()(v) implies usize_fn()(v).len() > 0 && usize_fn()(v)[0] != ']' by {
            lemma_decimal(v as nat);
            assert(is_digit(decimal(v as nat)[0]));
        }
        assert forall|s2: &Vec<char>, p2: usize, v: usize, r2: Option<(usize, usize)>|
            #![trigger call_ensures(read_usize, (s2, p2), r2), any_usize()(v)]
            p2 <= s2@.len() && any_usize()(v) && occurs_then_stop(s2@, p2 as int, usize_fn()(v)) && call_ensures(read_usize, (s2, p2), r2)
            implies (r2 matches Some((x, q)) && x@ == v) by {
            assert(occurs_then_stop(s2@, p2 as int, decimal(v as nat)));
        }
    }
    let r = parse_list(s, p, &read_usize, Ghost(usize_fn()), Ghost(any_usize()));
    proof {
        assert forall|v: Vec<usize>| #[trigger] views(v@) == v@ by {
            assert(views(v@) =~= v@);
        }
        assert forall|w: Seq<usize>| #[trigger] occurs_at(s@, p as int, usize_list_text(w)) implies (r matches Some((v, q)) && v@ == w) by {
            assert(forall|i: int| 0 <= i < w.len() ==> #[trigger] any_usize()(w[i]));
            assert(occurs_at(s@, p as int, json_list(w.map_values(usize_fn()))));
        }
    }
    r
}


/// A text that appears in `t` at `p` begins with the character there.
pub proof fn lemma_occurs_first(t: Seq<char>, p: int, w: Seq<char>)
    requires
        occurs_at(t, p, w),
        w.len() > 0,
    ensures
        t[p] == w[0],
{
    assert(t.subrange(p, p + w.len())[0] == t[p]);
}

/// The text of an optional goal: a JSON string, or `null`.
pub open spec fn goal_text(g: Option<Seq<char>>) -> Seq<char> {
    match g {
        Some(t) => quote(t),
        None => seq!['n', 'u', 'l', 'l'],
    }
}

/// The characters of an optional vector of characters.
pub open spec fn chars_opt(g: Option<Vec<char>>) -> Option<Seq<char>> {
    match g {
        Some(v) => Some(v@),
        None => None,
    }
}

/// Reads an optional goal: a JSON string, or `null`.
pub fn read_goal(s: &Vec<char>, p: usize) -> (r: Option<(Option<Vec<char>>, usize)>)
    requires
        p <= s@.len(),
    ensures
        r matches Some((g, q)) ==> q == p + goal_text(chars_opt(g)).len() && occurs_at(s@, p as int, goal_text(chars_opt(g))),
        forall|w: Option<Seq<char>>| #[trigger] occurs_at(s@, p as int, goal_text(w)) ==> (r matches Some((g, q)) && chars_opt(g) == w),
{
    proof {
        reveal_strlit("null");
        assert("null"@ =~= seq!['n', 'u', 'l', 'l']);
    }
    if lit_at(s, p, "null") {
        proof {
            assert forall|w: Option<Seq<char>>| #[trigger] occurs_at(s@, p as int, goal_text(w)) implies w is None by {
                lemma_occurs_first(s@, p as int, seq!['n', 'u', 'l', 'l']);
                if let Some(t) = w {
                    lemma_occurs_first(s@, p as int, quote(t));
                }
            }
        }
        return Some((None, p + 4));
    }
    match read_str(s, p) {
        Some((v, q)) => {
            proof {
                assert forall|w: Option<Seq<char>>| #[trigger] occurs_at(s@, p as int, goal_text(w)) implies w == Some(v@) by {
                    if w is None {
                        assert(false);
                    }
                }
            }
            Some((Some(v), q))
        },
        None => None,
    }
}

/// The text of a flag: `true` or `false`.
pub open spec fn bool_text(b: bool) -> Seq<char> {
    if b {
        seq!['t', 'r', 'u', 'e']
    } else {
        seq!['f', 'a', 'l', 's', 'e']
    }
}

/// Reads a flag: `true` or `false`.
pub fn read_bool(s: &Vec<char>, p: usize) -> (r: Option<(bool, usize)>)
    requires
        p <= s@.len(),
    ensures
        r matches Some((b, q)) ==> q == p + bool_text(b).len() && occurs_at(s@, p as int, bool_text(b)),
        forall|w: bool| #[trigger] occurs_at(s@, p as int, bool_text(w)) ==> r == Some((w, (p + bool_text(w).len()) as usize)),
{
    proof {
        reveal_strlit("true");
        reveal_strlit("false");
        assert("true"@ =~= seq!['t', 'r', 'u', 'e']);
        assert("false"@ =~= seq!['f', 'a', 'l', 's', 'e']);
        assert forall|w: bool| #[trigger] occurs_at(s@, p as int, bool_text(w)) implies s@[p as int] == bool_text(w)[0] by {
            lemma_occurs_first(s@, p as int, bool_text(w));
        }
    }
    if lit_at(s, p, "true") {
        proof {
            lemma_occurs_first(s@, p as int, bool_text(true));
        }
        return Some((true, p + 4));
    }
    if lit_at(s, p, "false") {
        proof {
            lemma_occurs_first(s@, p as int, bool_text(false));
        }
        return Some((false, p + 5));
    }
    None
}


/// A concatenation that appears in `t` at `p` is its first part at `p`
/// followed by its second part.
pub proof fn lemma_occurs_split(t: Seq<char>, p: int, a: Seq<char>, b: Seq<char>)
    requires
        occurs_at(t, p, a + b),
    ensures
        occurs_at(t, p, a),
        occurs_at(t, p + a.len(), b),
{
    lemma_occurs_sub(t, p, a + b, 0, a.len() as int);
    lemma_occurs_sub(t, p, a + b, a.len() as int, (a + b).len() as int);
    assert((a + b).subrange(0, a.len() as int) =~= a);
    assert((a + b).subrange(a.len() as int, (a + b).len() as int) =~= b);
}


/// A string holding the given characters.
pub fn string_from_chars(v: &Vec<char>) -> (s: String)
    ensures
        s@ == v@,
{
    let mut s = String::new();
    let mut i: usize = 0;
    while i < v.len()
        invariant
            i <= v@.len(),
            s@ == v@.take(i as int),
        decreases v@.len() - i,
    {
        push_char(&mut s, v[i]);
        i = i + 1;
        assert(s@ =~= v@.take(i as int));
    }
    assert(v@.take(i as int) =~= v@);
    s
}

} // verus!
