//! Rendering of integers and of lists of integers as text.
use vstd::prelude::*;

verus! {

/// The character of a decimal digit.
pub open spec fn digit_char(d: nat) -> char {
    if d == 0 { '0' }
    else if d == 1 { '1' }
    else if d == 2 { '2' }
    else if d == 3 { '3' }
    else if d == 4 { '4' }
    else if d == 5 { '5' }
    else if d == 6 { '6' }
    else if d == 7 { '7' }
    else if d == 8 { '8' }
    else { '9' }
}

/// The decimal rendering of a natural number, most significant digit first,
/// without leading zeros ("0" for zero).
pub open spec fn decimal(n: nat) -> Seq<char>
    decreases n,
{
    if n < 10 {
        seq![digit_char(n)]
    } else {
        decimal(n / 10).push(digit_char(n % 10))
    }
}

fn digit_str(d: u64) -> (s: &'static str)
    requires
        d < 10,
    ensures
        s@ == seq![digit_char(d as nat)],
{
    if d == 0 {
        proof { reveal_strlit("0"); }
        "0"
    } else if d == 1 {
        proof { reveal_strlit("1"); }
        "1"
    } else if d == 2 {
        proof { reveal_strlit("2"); }
        "2"
    } else if d == 3 {
        proof { reveal_strlit("3"); }
        "3"
    } else if d == 4 {
        proof { reveal_strlit("4"); }
        "4"
    } else if d == 5 {
        proof { reveal_strlit("5"); }
        "5"
    } else if d == 6 {
        proof { reveal_strlit("6"); }
        "6"
    } else if d == 7 {
        proof { reveal_strlit("7"); }
        "7"
    } else if d == 8 {
        proof { reveal_strlit("8"); }
        "8"
    } else {
        proof { reveal_strlit("9"); }
        "9"
    }
}

/// Appends the decimal rendering of `n` to `out`.
pub fn push_decimal(out: &mut String, n: u64)
    ensures
        final(out)@ == old(out)@ + decimal(n as nat),
    decreases n,
{
    if n < 10 {
        out.append(digit_str(n));
    } else {
        push_decimal(out, n / 10);
        out.append(digit_str(n % 10));
        assert(decimal(n as nat) == decimal((n / 10) as nat).push(digit_char((n % 10) as nat)));
    }
}

/// The rendering of a list of integers as `[a, b, c]`.
pub open spec fn list_text(s: Seq<usize>) -> Seq<char> {
    seq!['['] + list_items(s) + seq![']']
}

/// The items of a list separated by `", "`.
pub open spec fn list_items(s: Seq<usize>) -> Seq<char>
    decreases s.len(),
{
    if s.len() == 0 {
        Seq::empty()
    } else if s.len() == 1 {
        decimal(s[0] as nat)
    } else {
        list_items(s.drop_last()) + seq![',', ' '] + decimal(s.last() as nat)
    }
}

/// Appends the rendering of `s` as a list (`[1, 2, 3]`) to `out`.
pub fn push_list(out: &mut String, s: &[usize])
    ensures
        final(out)@ == old(out)@ + list_text(s@),
{
    proof {
        reveal_strlit("[");
        assert("["@ =~= seq!['[']);
    }
    out.append("[");
    let ghost start = out@;
    let mut i: usize = 0;
    while i < s.len()
        invariant
            i <= s@.len(),
            out@ == start + list_items(s@.take(i as int)),
        decreases s@.len() - i,
    {
        let ghost before = out@;
        proof {
            reveal_strlit(", ");
            assert(", "@ =~= seq![',', ' ']);
        }
        if i > 0 {
            out.append(", ");
        }
        push_decimal(out, s[i] as u64);
        proof {
            let t = s@.take(i + 1);
            assert(t.drop_last() == s@.take(i as int));
            assert(t.last() == s@[i as int]);
            if i == 0 {
                assert(before == start);
                assert(out@ == start + decimal(s@[0] as nat));
                assert(list_items(t) == decimal(t[0] as nat));
            } else {
                assert(out@ == before + seq![',', ' '] + decimal(s@[i as int] as nat));
            }
        }
        i = i + 1;
    }
    assert(s@.take(i as int) == s@);
    proof {
        reveal_strlit("]");
        assert("]"@ =~= seq![']']);
    }
    out.append("]");
}

} // verus!
