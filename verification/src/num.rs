//! Decimal text for the integer scalars: rendering and parsing, with exact
//! specifications relating both directions to `dec_val` / `u64_dec`.
use vstd::prelude::*;

use crate::error::Error;

verus! {

/// The decimal digit character for `d` (`0 <= d <= 9`).
pub open spec fn dec_digit(d: int) -> char {
    if d == 0 {
        '0'
    } else if d == 1 {
        '1'
    } else if d == 2 {
        '2'
    } else if d == 3 {
        '3'
    } else if d == 4 {
        '4'
    } else if d == 5 {
        '5'
    } else if d == 6 {
        '6'
    } else if d == 7 {
        '7'
    } else if d == 8 {
        '8'
    } else {
        '9'
    }
}

/// The usual decimal rendering of a non-negative integer: no sign, no
/// leading zeros except for the number zero itself.
pub open spec fn u64_dec(n: int) -> Seq<char>
    decreases n,
{
    if n < 10 {
        seq![dec_digit(n)]
    } else {
        u64_dec(n / 10).push(dec_digit(n % 10))
    }
}

/// The decimal rendering of a signed integer: a leading `-` for negatives.
pub open spec fn i64_dec(n: int) -> Seq<char> {
    if n >= 0 {
        u64_dec(n)
    } else {
        seq!['-'] + u64_dec(-n)
    }
}

pub open spec fn is_dec_digit(c: char) -> bool {
    '0' <= c && c <= '9'
}

pub open spec fn digit_val(c: char) -> int {
    c as int - '0' as int
}

/// The numeric value of a digit string, most significant digit first.
pub open spec fn dec_val(s: Seq<char>) -> int
    decreases s.len(),
{
    if s.len() == 0 {
        0
    } else {
        dec_val(s.drop_last()) * 10 + digit_val(s.last())
    }
}

pub open spec fn all_digits(s: Seq<char>) -> bool {
    forall|i: int| 0 <= i < s.len() ==> is_dec_digit(#[trigger] s[i])
}

/// The digit body of an integer token: everything after an optional leading
/// sign, which is `+` or, where `signed` is allowed, `-`.
pub open spec fn dec_body(s: Seq<char>) -> Seq<char> {
    if s.len() > 0 && (s[0] == '+' || s[0] == '-') {
        s.drop_first()
    } else {
        s
    }
}

pub open spec fn dec_negative(s: Seq<char>) -> bool {
    s.len() > 0 && s[0] == '-'
}

/// Whether `s` is accepted by the standard textual conversion to `u64`:
/// an optional `+`, then one or more digits, with a value in range.
pub open spec fn u64_text_ok(s: Seq<char>) -> bool {
    &&& s.len() > 0
    &&& s[0] != '-'
    &&& dec_body(s).len() > 0
    &&& all_digits(dec_body(s))
    &&& dec_val(dec_body(s)) <= u64::MAX
}

pub open spec fn u64_text_val(s: Seq<char>) -> int {
    dec_val(dec_body(s))
}

/// Whether `s` is accepted by the standard textual conversion to `i64`:
/// an optional sign, then one or more digits, with a value in range.
pub open spec fn i64_text_ok(s: Seq<char>) -> bool {
    &&& s.len() > 0
    &&& dec_body(s).len() > 0
    &&& all_digits(dec_body(s))
    &&& i64::MIN <= i64_text_val(s) <= i64::MAX
}

pub open spec fn i64_text_val(s: Seq<char>) -> int {
    if dec_negative(s) {
        -dec_val(dec_body(s))
    } else {
        dec_val(dec_body(s))
    }
}

/// The decimal digit of `d` as a one-character text.
fn digit_str(d: u64) -> (r: &'static str)
    requires
        0 <= d <= 9,
    ensures
        r@ == seq![dec_digit(d as int)],
{
    proof {
        reveal_strlit("0");
        reveal_strlit("1");
        reveal_strlit("2");
        reveal_strlit("3");
        reveal_strlit("4");
        reveal_strlit("5");
        reveal_strlit("6");
        reveal_strlit("7");
        reveal_strlit("8");
        reveal_strlit("9");
    }
    if d == 0 {
        "0"
    } else if d == 1 {
        "1"
    } else if d == 2 {
        "2"
    } else if d == 3 {
        "3"
    } else if d == 4 {
        "4"
    } else if d == 5 {
        "5"
    } else if d == 6 {
        "6"
    } else if d == 7 {
        "7"
    } else if d == 8 {
        "8"
    } else {
        "9"
    }
}

/// Renders `n` in decimal.
pub fn u64_string(n: u64) -> (r: String)
    ensures
        r@ == u64_dec(n as int),
    decreases n,
{
    if n < 10 {
        String::from_str(digit_str(n))
    } else {
        let mut s = u64_string(n / 10);
        s.append(digit_str(n % 10));
        proof {
            assert(u64_dec(n as int) =~= u64_dec(n as int / 10) + seq![dec_digit(n as int % 10)]);
        }
        s
    }
}

/// Renders `n` in decimal, with a leading `-` when negative.
pub fn i64_string(n: i64) -> (r: String)
    ensures
        r@ == i64_dec(n as int),
{
    if n >= 0 {
        u64_string(n as u64)
    } else {
        let magnitude: u64 = if n == i64::MIN {
            9223372036854775808u64
        } else {
            (-n) as u64
        };
        let mut s = String::from_str("-");
        s.append(u64_string(magnitude).as_str());
        proof {
            reveal_strlit("-");
            assert(s@ =~= seq!['-'] + u64_dec(-(n as int)));
        }
        s
    }
}

/// A value below every digit extension: appending digits never shrinks it.
proof fn lemma_dec_val_prefix(s: Seq<char>, i: int)
    requires
        0 <= i <= s.len(),
        all_digits(s),
    ensures
        dec_val(s) >= dec_val(s.take(i)),
        dec_val(s) >= 0,
    decreases s.len() - i,
{
    if i == s.len() {
        assert(s.take(i) =~= s);
        lemma_dec_val_nonneg(s);
    } else {
        lemma_dec_val_prefix(s, i + 1);
        assert(s.take(i + 1).drop_last() =~= s.take(i));
        assert(dec_val(s.take(i + 1)) == dec_val(s.take(i)) * 10 + digit_val(s.take(i + 1).last()));
        lemma_dec_val_nonneg(s.take(i));
        assert(dec_val(s.take(i)) * 10 >= dec_val(s.take(i))) by {
            assert(dec_val(s.take(i)) >= 0);
        };
    }
}

proof fn lemma_dec_val_nonneg(s: Seq<char>)
    requires
        all_digits(s),
    ensures
        dec_val(s) >= 0,
    decreases s.len(),
{
    if s.len() > 0 {
        assert(all_digits(s.drop_last())) by {
            assert(forall|i: int| 0 <= i < s.len() - 1 ==> s.drop_last()[i] == s[i]);
        };
        lemma_dec_val_nonneg(s.drop_last());
    }
}

/// Parses the digits of `s` between `from` and the end as a decimal number.
fn parse_digits(s: &str, from: usize) -> (r: Result<u64, Error>)
    requires
        from <= s@.len(),
    ensures
        match r {
            Ok(v) => {
                &&& s@.len() - from > 0
                &&& all_digits(s@.skip(from as int))
                &&& dec_val(s@.skip(from as int)) <= u64::MAX
                &&& v == dec_val(s@.skip(from as int))
            },
            Err(e) => {
                &&& !(s@.len() - from > 0 && all_digits(s@.skip(from as int)) && dec_val(
                    s@.skip(from as int),
                ) <= u64::MAX)
                &&& e matches Error::Deserialize(_)
            },
        },
{
    let ghost body = s@.skip(from as int);
    let n = s.unicode_len();
    if from >= n {
        return Err(Error::invalid_number());
    }
    let mut value: u64 = 0;
    let mut i: usize = from;
    while i < n
        invariant
            from <= i <= n,
            n == s@.len(),
            body == s@.skip(from as int),
            all_digits(body.take(i - from)),
            value == dec_val(body.take(i - from)),
        decreases n - i,
    {
        let c = s.get_char(i);
        let code: u32 = c as u32;
        if code < 48 || code > 57 {
            proof {
                assert(body[i - from] == c);
                assert('0' as u32 == 48 && '9' as u32 == 57);
                assert(!is_dec_digit(c));
            }
            return Err(Error::invalid_number());
        }
        let d: u64 = (code - 48) as u64;
        proof {
            assert(body[i - from] == c);
            assert('0' as u32 == 48 && '9' as u32 == 57);
            assert(is_dec_digit(c) && digit_val(c) == d);
        }
        let next = match value.checked_mul(10) {
            Some(m) => m.checked_add(d),
            None => None,
        };
        match next {
            Some(v2) => {
                value = v2;
                i = i + 1;
                proof {
                    assert(body.take(i - from).drop_last() =~= body.take(i - 1 - from));
                    assert(body.take(i - from).last() == c);
                }
            },
            None => {
                proof {
                    let part = body.take(i + 1 - from);
                    assert(part.drop_last() =~= body.take(i - from));
                    assert(part.last() == c);
                    assert(dec_val(part) == value * 10 + d);
                    if all_digits(body) && dec_val(body) <= u64::MAX {
                        lemma_dec_val_prefix(body, i + 1 - from);
                        assert(dec_val(body) >= dec_val(part));
                    }
                }
                return Err(Error::invalid_number());
            },
        }
    }
    proof {
        assert(body.take(n - from) =~= body);
    }
    Ok(value)
}

/// Parses `s` as the standard textual conversion to `u64` does: an optional
/// leading `+`, then decimal digits.
pub fn parse_u64(s: &str) -> (r: Result<u64, Error>)
    ensures
        match r {
            Ok(v) => u64_text_ok(s@) && v == u64_text_val(s@),
            Err(e) => !u64_text_ok(s@) && e matches Error::Deserialize(_),
        },
{
    let n = s.unicode_len();
    if n == 0 {
        return Err(Error::invalid_number());
    }
    let first = s.get_char(0);
    let from: usize = if first == '+' {
        1
    } else {
        0
    };
    if first == '-' {
        return Err(Error::invalid_number());
    }
    proof {
        if from == 1 {
            assert(dec_body(s@) =~= s@.skip(1));
        } else {
            assert(dec_body(s@) =~= s@.skip(0));
            assert(s@.skip(0) =~= s@);
        }
    }
    parse_digits(s, from)
}

/// Parses `s` as the standard textual conversion to `i64` does: an optional
/// sign, then decimal digits.
pub fn parse_i64(s: &str) -> (r: Result<i64, Error>)
    ensures
        match r {
            Ok(v) => i64_text_ok(s@) && v == i64_text_val(s@),
            Err(e) => !i64_text_ok(s@) && e matches Error::Deserialize(_),
        },
{
    let n = s.unicode_len();
    if n == 0 {
        return Err(Error::invalid_number());
    }
    let first = s.get_char(0);
    let negative = first == '-';
    let from: usize = if first == '+' || first == '-' {
        1
    } else {
        0
    };
    proof {
        if from == 1 {
            assert(dec_body(s@) =~= s@.skip(1));
        } else {
            assert(dec_body(s@) =~= s@.skip(0));
            assert(s@.skip(0) =~= s@);
        }
    }
    let magnitude = match parse_digits(s, from) {
        Ok(v) => v,
        Err(e) => {
            return Err(e);
        },
    };
    if negative {
        if magnitude > 9223372036854775808u64 {
            Err(Error::invalid_number())
        } else if magnitude == 9223372036854775808u64 {
            Ok(i64::MIN)
        } else {
            Ok(-(magnitude as i64))
        }
    } else {
        if magnitude > i64::MAX as u64 {
            Err(Error::invalid_number())
        } else {
            Ok(magnitude as i64)
        }
    }
}

} // verus!
