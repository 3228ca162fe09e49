//! Text that the renderer writes: room in a buffer, numbers in decimal, and finding a
//! marker in a text.

use vstd::prelude::*;
use vstd::string::StringExecFns;

verus! {

/// `String::try_reserve`: makes room for `additional` more bytes if it can. The text is
/// the same either way; a capacity that cannot be had is no error.
#[verifier::external_body]
pub(crate) fn reserve_text(buf: &mut String, additional: usize)
    ensures
        final(buf)@ == old(buf)@,
{
    _ = buf.try_reserve(additional);
}

/// Whether `pat` occurs in `s` at `i`.
pub open spec fn occurs_at(s: Seq<char>, pat: Seq<char>, i: int) -> bool {
    0 <= i && i + pat.len() <= s.len() && s.subrange(i, i + pat.len()) == pat
}

/// `str::split_once`: the text before and the text after the first occurrence of `pat` in
/// `s`, if it occurs.
#[verifier::external_body]
pub(crate) fn split_once<'a>(s: &'a str, pat: &str) -> (parts: Option<(&'a str, &'a str)>)
    ensures
        match parts {
            Some((before, after)) => {
                &&& s@ == before@ + pat@ + after@
                &&& forall|j: int| 0 <= j < before@.len() ==> !occurs_at(s@, pat@, j)
            },
            None => forall|j: int| !occurs_at(s@, pat@, j),
        },
{
    s.split_once(pat)
}

/// The digit character for `d`.
pub open spec fn digit_char(d: nat) -> char {
    (d + 48) as char
}

/// `n` in decimal.
pub open spec fn decimal(n: nat) -> Seq<char>
    decreases n,
{
    if n < 10 {
        seq![digit_char(n)]
    } else {
        decimal(n / 10).push(digit_char(n % 10))
    }
}

/// The text of the digit `d`.
fn digit_text(d: u64) -> (text: &'static str)
    requires
        d < 10,
    ensures
        text@ == seq![digit_char(d as nat)],
{
    proof {
        reveal_strlit("0");
        reveal_strlit("1");
        reveal_strlit("2");
        reveal_strlit("3");
        reveal_strlit("4");
        reveal_strlit("5");
        reveal_strlit("6");
        reveal_strlit("7");
        reveal_strlit("8");
        reveal_strlit("9");
    }
    match d {
        0 => "0",
        1 => "1",
        2 => "2",
        3 => "3",
        4 => "4",
        5 => "5",
        6 => "6",
        7 => "7",
        8 => "8",
        _ => "9",
    }
}

/// Writes `n` in decimal at the end of `buf`.
pub fn push_decimal(buf: &mut String, n: u64)
    ensures
        final(buf)@ == old(buf)@ + decimal(n as nat),
    decreases n,
{
    if n >= 10 {
        push_decimal(buf, n / 10);
    }
    buf.append(digit_text(n % 10));
    proof {
        if n >= 10 {
            assert(decimal(n as nat) == decimal((n / 10) as nat).push(digit_char((n % 10) as nat)));
        }
    }
}

/// Writes `text` at the end of `buf`.
pub fn push_text(buf: &mut String, text: &str)
    ensures
        final(buf)@ == old(buf)@ + text@,
{
    buf.append(text);
}

} // verus!
