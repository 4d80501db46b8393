//! Classifying path tokens.
//!
//! A token of the exact shape `[` + one or more ASCII digits + `]` is an
//! index token; its digits name a list position. Every other token is a key,
//! including numeric text without brackets, negative numbers, and partial
//! brackets. An index token whose digits overflow `usize` is malformed. A
//! bare run of digits also names a list position when it is navigated against
//! a list, which is how enumerated list paths read back; that never makes it
//! an index token.

use crate::value::PathError;
use vstd::prelude::*;
use vstd::string::StrSliceExecFns;
use vstd::string::StringExecFns;

verus! {

/// `c` is an ASCII digit.
pub open spec fn is_digit(c: char) -> bool {
    48 <= c as u32 <= 57
}

/// The value of the digit `c`.
pub open spec fn digit_val(c: char) -> nat
    recommends
        is_digit(c),
{
    (c as u32 - 48) as nat
}

/// `t` is one or more ASCII digits.
pub open spec fn is_digits(t: Seq<char>) -> bool {
    t.len() > 0 && forall|i: int| 0 <= i < t.len() ==> is_digit(#[trigger] t[i])
}

/// The number the digits of `t` write in decimal.
pub open spec fn digits_val(t: Seq<char>) -> nat
    recommends
        is_digits(t),
    decreases t.len(),
{
    if t.len() == 0 {
        0
    } else {
        digits_val(t.drop_last()) * 10 + digit_val(t.last())
    }
}

/// `t` is exactly `[` + digits + `]`.
pub open spec fn is_index_token(t: Seq<char>) -> bool {
    t.len() >= 3 && t[0] == '[' && t[t.len() - 1] == ']' && is_digits(
        t.subrange(1, t.len() - 1),
    )
}

/// The position an index token names.
pub open spec fn index_val(t: Seq<char>) -> nat
    recommends
        is_index_token(t),
{
    digits_val(t.subrange(1, t.len() - 1))
}

/// No index token among `toks` overflows `usize`.
pub open spec fn tokens_ok(toks: Seq<Seq<char>>) -> bool {
    forall|i: int|
        0 <= i < toks.len() && is_index_token(#[trigger] toks[i]) ==> index_val(toks[i])
            <= usize::MAX as nat
}

/// A longer run of digits writes a number at least as large.
pub proof fn lemma_digits_val_prefix(t: Seq<char>, i: int)
    requires
        0 <= i <= t.len(),
    ensures
        digits_val(t.take(i)) <= digits_val(t),
    decreases t.len() - i,
{
    if i < t.len() {
        lemma_digits_val_prefix(t.drop_last(), i);
        assert(t.drop_last().take(i) =~= t.take(i));
        assert(digits_val(t.drop_last()) * 10 + digit_val(t.last()) >= digits_val(
            t.drop_last(),
        ));
    } else {
        assert(t.take(i) =~= t);
    }
}

/// Reads the digits of `s` as a number; absent when `s` is not a digit run or
/// its value overflows `usize`.
pub fn parse_digits(s: &str) -> (r: Option<usize>)
    ensures
        match r {
            Some(v) => is_digits(s@) && v == digits_val(s@),
            None => !is_digits(s@) || digits_val(s@) > usize::MAX as nat,
        },
{
    let n = s.unicode_len();
    if n == 0 {
        return None;
    }
    let mut acc: usize = 0;
    let mut i: usize = 0;
    while i < n
        invariant
            i <= n,
            n == s@.len(),
            n > 0,
            forall|t: int| 0 <= t < i ==> is_digit(#[trigger] s@[t]),
            acc == digits_val(s@.take(i as int)),
        decreases n - i,
    {
        let c = s.get_char(i);
        let code: u32 = c as u32;
        if code < 48 || code > 57 {
            return None;
        }
        let d: usize = (code - 48) as usize;
        if acc > (usize::MAX - d) / 10 {
            proof {
                assert(acc * 10 + d > usize::MAX as nat) by (nonlinear_arith)
                    requires
                        acc > (usize::MAX - d) / 10,
                        d <= usize::MAX,
                ;
                assert(digits_val(s@.take(i + 1)) == digits_val(s@.take(i as int)) * 10 + d) by {
                    assert(s@.take(i + 1).drop_last() =~= s@.take(i as int));
                    assert(s@.take(i + 1).last() == s@[i as int]);
                }
                lemma_digits_val_prefix(s@, i + 1);
            }
            return None;
        }
        proof {
            assert(acc * 10 + d <= usize::MAX as nat) by (nonlinear_arith)
                requires
                    acc <= (usize::MAX - d) / 10,
                    d <= usize::MAX,
            ;
            assert(digits_val(s@.take(i + 1)) == digits_val(s@.take(i as int)) * 10 + d) by {
                assert(s@.take(i + 1).drop_last() =~= s@.take(i as int));
                assert(s@.take(i + 1).last() == s@[i as int]);
            }
        }
        acc = acc * 10 + d;
        i += 1;
    }
    proof {
        assert(s@.take(n as int) =~= s@);
    }
    Some(acc)
}

/// Reads `s` as an index token: the named position, absent when `s` is not an
/// index token, or the overflow fault.
pub fn index_of_token(s: &str) -> (r: Result<Option<usize>, PathError>)
    ensures
        match r {
            Ok(Some(v)) => is_index_token(s@) && v == index_val(s@),
            Ok(None) => !is_index_token(s@),
            Err(e) => e == PathError::MalformedIndexToken && is_index_token(s@) && index_val(s@)
                > usize::MAX as nat,
        },
{
    let n = s.unicode_len();
    if n < 3 {
        return Ok(None);
    }
    if s.get_char(0) != '[' || s.get_char(n - 1) != ']' {
        return Ok(None);
    }
    let middle = s.substring_char(1, n - 1);
    proof {
        assert(middle@ =~= s@.subrange(1, n - 1));
    }
    match parse_digits(middle) {
        Some(v) => Ok(Some(v)),
        None => {
            if digits_only(middle) {
                Err(PathError::MalformedIndexToken)
            } else {
                Ok(None)
            }
        },
    }
}

/// `s` is one or more ASCII digits.
fn digits_only(s: &str) -> (r: bool)
    ensures
        r == is_digits(s@),
{
    let n = s.unicode_len();
    if n == 0 {
        return false;
    }
    let mut i: usize = 0;
    while i < n
        invariant
            i <= n,
            n == s@.len(),
            forall|t: int| 0 <= t < i ==> is_digit(#[trigger] s@[t]),
        decreases n - i,
    {
        let code: u32 = s.get_char(i) as u32;
        if code < 48 || code > 57 {
            return false;
        }
        i += 1;
    }
    true
}

/// No index token among `toks` overflows; reports the fault otherwise.
pub fn check_tokens(toks: &Vec<String>) -> (r: Result<(), PathError>)
    ensures
        match r {
            Ok(()) => tokens_ok(toks.deep_view()),
            Err(e) => e == PathError::MalformedIndexToken && !tokens_ok(toks.deep_view()),
        },
{
    let mut i: usize = 0;
    while i < toks.len()
        invariant
            i <= toks.len(),
            forall|t: int|
                0 <= t < i && is_index_token(#[trigger] toks.deep_view()[t]) ==> index_val(
                    toks.deep_view()[t],
                ) <= usize::MAX as nat,
        decreases toks.len() - i,
    {
        match index_of_token(toks[i].as_str()) {
            Ok(_) => {},
            Err(e) => {
                proof {
                    assert(toks.deep_view()[i as int] == toks[i as int]@);
                }
                return Err(e);
            },
        }
        proof {
            assert(toks.deep_view()[i as int] == toks[i as int]@);
        }
        i += 1;
    }
    Ok(())
}

/// The decimal writing of `n`, highest digit first.
pub open spec fn dec_str(n: nat) -> Seq<char>
    decreases n,
{
    if n < 10 {
        seq![((48 + n) as u8) as char]
    } else {
        dec_str(n / 10) + seq![((48 + n % 10) as u8) as char]
    }
}

/// A decimal writing is all digits and writes back the number it came from.
pub proof fn lemma_dec_str(n: nat)
    ensures
        is_digits(dec_str(n)),
        digits_val(dec_str(n)) == n,
    decreases n,
{
    if n < 10 {
        assert(is_digit(dec_str(n)[0]));
        assert(dec_str(n).drop_last() =~= Seq::<char>::empty());
        assert(digits_val(Seq::<char>::empty()) == 0);
        assert(digit_val(((48 + n) as u8) as char) == n);
    } else {
        lemma_dec_str(n / 10);
        let whole = dec_str(n);
        assert(whole.drop_last() =~= dec_str(n / 10));
        assert(whole.last() == ((48 + n % 10) as u8) as char);
        assert(is_digit(whole.last()));
        assert(digits_val(whole) == (n / 10) * 10 + n % 10);
        assert(forall|i: int|
            0 <= i < whole.len() ==> is_digit(#[trigger] whole[i])) by {
            assert(forall|i: int|
                0 <= i < whole.len() - 1 ==> whole[i] == dec_str(n / 10)[i]);
        }
    }
}

/// One digit as text.
fn digit_str(d: usize) -> (r: &'static str)
    requires
        d < 10,
    ensures
        r@ =~= seq![((48 + d) as u8) as char],
{
    let r = match d {
        0 => "0",
        1 => "1",
        2 => "2",
        3 => "3",
        4 => "4",
        5 => "5",
        6 => "6",
        7 => "7",
        8 => "8",
        _ => "9",
    };
    proof {
        reveal_strlit("0");
        reveal_strlit("1");
        reveal_strlit("2");
        reveal_strlit("3");
        reveal_strlit("4");
        reveal_strlit("5");
        reveal_strlit("6");
        reveal_strlit("7");
        reveal_strlit("8");
        reveal_strlit("9");
    }
    r
}

/// The decimal writing of `n` as a string.
pub fn usize_to_dec(n: usize) -> (r: String)
    ensures
        r@ == dec_str(n as nat),
    decreases n,
{
    if n < 10 {
        String::from_str(digit_str(n))
    } else {
        let mut s = usize_to_dec(n / 10);
        s.append(digit_str(n % 10));
        s
    }
}

} // verus!
