//! Numeric strings: decimal representations of signed 32-bit integers, with a
//! verified parser and a verified formatter.

use vstd::prelude::*;

verus! {

/// A decimal digit character, `'0'` (code point 48) through `'9'` (code point 57).
pub open spec fn is_digit_char(c: char) -> bool {
    48 <= c as int <= 57
}

/// The value of a single decimal digit character.
pub open spec fn digit_value(c: char) -> int {
    c as int - 48
}

/// Every character of the sequence is a decimal digit.
pub open spec fn all_digits(s: Seq<char>) -> bool {
    forall|i: int| 0 <= i < s.len() ==> is_digit_char(#[trigger] s[i])
}

/// The integer encoded by a sequence of decimal digits, most significant digit first.
pub open spec fn digits_value(s: Seq<char>) -> int
    decreases s.len(),
{
    if s.len() == 0 {
        0
    } else {
        digits_value(s.drop_last()) * 10 + digit_value(s.last())
    }
}

/// The digit part of a numeric string: everything after an optional leading minus sign.
pub open spec fn digit_part(s: Seq<char>) -> Seq<char> {
    if s.len() > 0 && s[0] == '-' {
        s.skip(1)
    } else {
        s
    }
}

/// The signed integer a numeric string stands for.
pub open spec fn numeric_value(s: Seq<char>) -> int {
    if s.len() > 0 && s[0] == '-' {
        -digits_value(s.skip(1))
    } else {
        digits_value(s)
    }
}

/// A numeric string: an optional leading minus sign, then at least one decimal
/// digit, encoding a value in the range of `i32`.
pub open spec fn is_numeric_string(s: Seq<char>) -> bool {
    &&& digit_part(s).len() > 0
    &&& all_digits(digit_part(s))
    &&& i32::MIN <= numeric_value(s) <= i32::MAX
}

/// A sequence of digits encodes a non-negative value.
proof fn lemma_digits_value_nonneg(s: Seq<char>)
    requires
        all_digits(s),
    ensures
        digits_value(s) >= 0,
    decreases s.len(),
{
    if s.len() > 0 {
        lemma_digits_value_nonneg(s.drop_last());
    }
}

/// Extending a digit sequence on the right can only increase its value.
proof fn lemma_digits_value_prefix(s: Seq<char>, i: int)
    requires
        all_digits(s),
        0 <= i <= s.len(),
    ensures
        digits_value(s.take(i)) <= digits_value(s),
    decreases s.len() - i,
{
    if i == s.len() {
        assert(s.take(i) =~= s);
    } else {
        lemma_digits_value_prefix(s, i + 1);
        let t = s.take(i + 1);
        assert(t.drop_last() =~= s.take(i));
        lemma_digits_value_nonneg(s.take(i));
        assert(digits_value(t) == digits_value(s.take(i)) * 10 + digit_value(t.last()));
    }
}

/// The digit character for a single decimal digit value.
pub open spec fn digit_char_of(d: int) -> char {
    if d == 0 {
        '0'
    } else if d == 1 {
        '1'
    } else if d == 2 {
        '2'
    } else if d == 3 {
        '3'
    } else if d == 4 {
        '4'
    } else if d == 5 {
        '5'
    } else if d == 6 {
        '6'
    } else if d == 7 {
        '7'
    } else if d == 8 {
        '8'
    } else {
        '9'
    }
}

/// The canonical decimal digit sequence of a non-negative integer: no sign and
/// no leading zeros (except for the value zero itself, written `"0"`).
pub open spec fn decimal_digits(n: nat) -> Seq<char>
    decreases n,
{
    if n < 10 {
        seq![digit_char_of(n as int)]
    } else {
        decimal_digits(n / 10).push(digit_char_of((n % 10) as int))
    }
}

/// The canonical decimal representation of a signed integer: a minus sign for
/// negative values, then the digits of the magnitude.
pub open spec fn decimal_of(v: int) -> Seq<char> {
    if v < 0 {
        seq!['-'] + decimal_digits((-v) as nat)
    } else {
        decimal_digits(v as nat)
    }
}

/// The canonical digit sequence of `n` is non-empty, all digits, and encodes `n`.
proof fn lemma_decimal_digits_value(n: nat)
    ensures
        decimal_digits(n).len() >= 1,
        all_digits(decimal_digits(n)),
        digits_value(decimal_digits(n)) == n,
    decreases n,
{
    if n < 10 {
        let s = decimal_digits(n);
        assert(s.drop_last() =~= Seq::<char>::empty());
        assert(digits_value(s.drop_last()) == 0);
        assert(digits_value(s) == digit_value(digit_char_of(n as int)));
    } else {
        lemma_decimal_digits_value(n / 10);
        let s = decimal_digits(n);
        assert(s.drop_last() =~= decimal_digits(n / 10));
        assert(digits_value(s) == (n / 10) * 10 + digit_value(digit_char_of((n % 10) as int)));
        assert(n == (n / 10) * 10 + n % 10) by (nonlinear_arith);
    }
}

/// The canonical decimal representation of any `i32` value is a numeric string
/// and parses back to that same value.
pub proof fn lemma_decimal_of_numeric(v: int)
    requires
        i32::MIN <= v <= i32::MAX,
    ensures
        is_numeric_string(decimal_of(v)),
        numeric_value(decimal_of(v)) == v,
{
    if v < 0 {
        lemma_decimal_digits_value((-v) as nat);
        let s = decimal_of(v);
        assert(s[0] == '-');
        assert(s.skip(1) =~= decimal_digits((-v) as nat));
        assert(digit_part(s) == s.skip(1));
    } else {
        lemma_decimal_digits_value(v as nat);
        let s = decimal_of(v);
        assert(is_digit_char(s[0]));
        assert(s[0] != '-');
        assert(digit_part(s) == s);
    }
}

/// A one-character string slice holding the given decimal digit.
fn digit_str(d: u32) -> (r: &'static str)
    requires
        d <= 9,
    ensures
        r@ == seq![digit_char_of(d as int)],
{
    proof {
        reveal_strlit("0");
        reveal_strlit("1");
        reveal_strlit("2");
        reveal_strlit("3");
        reveal_strlit("4");
        reveal_strlit("5");
        reveal_strlit("6");
        reveal_strlit("7");
        reveal_strlit("8");
        reveal_strlit("9");
    }
    let r = if d == 0 {
        "0"
    } else if d == 1 {
        "1"
    } else if d == 2 {
        "2"
    } else if d == 3 {
        "3"
    } else if d == 4 {
        "4"
    } else if d == 5 {
        "5"
    } else if d == 6 {
        "6"
    } else if d == 7 {
        "7"
    } else if d == 8 {
        "8"
    } else {
        "9"
    };
    proof {
        assert(r@ =~= seq![digit_char_of(d as int)]);
    }
    r
}

/// Appends the canonical digit sequence of `m` to `out`.
fn push_decimal_digits(m: u64, out: &mut String)
    ensures
        final(out)@ == old(out)@ + decimal_digits(m as nat),
    decreases m,
{
    if m >= 10 {
        push_decimal_digits(m / 10, out);
    }
    let d = (m % 10) as u32;
    let ghost before = out@;
    out.append(digit_str(d));
    proof {
        if m < 10 {
            assert(out@ =~= old(out)@ + decimal_digits(m as nat));
        } else {
            assert(before == old(out)@ + decimal_digits((m / 10) as nat));
            assert(decimal_digits(m as nat) == decimal_digits((m / 10) as nat).push(
                digit_char_of((m % 10) as int),
            ));
            assert(out@ =~= old(out)@ + decimal_digits(m as nat));
        }
    }
}

/// Formats an `i32` as its canonical decimal numeric string.
pub fn to_decimal_string(v: i32) -> (r: String)
    ensures
        r@ == decimal_of(v as int),
{
    let mut out = String::new();
    if v < 0 {
        proof {
            reveal_strlit("-");
        }
        out.append("-");
        let m = (-(v as i64)) as u64;
        push_decimal_digits(m, &mut out);
        proof {
            assert(out@ =~= seq!['-'] + decimal_digits((-(v as int)) as nat));
        }
    } else {
        push_decimal_digits(v as u64, &mut out);
        proof {
            assert(out@ =~= decimal_digits(v as nat));
        }
    }
    out
}

/// Parses a decimal numeric string into an `i32`. Returns `Some` exactly on
/// well-formed numeric strings whose value fits in an `i32`.
pub fn parse_numeric(s: &str) -> (r: Option<i32>)
    ensures
        r is Some <==> is_numeric_string(s@),
        r matches Some(v) ==> v as int == numeric_value(s@),
{
    let n = s.unicode_len();
    let neg = n > 0 && s.get_char(0) == '-';
    let start: usize = if neg {
        1
    } else {
        0
    };
    if start == n {
        // The digit part is empty: not a numeric string.
        assert(digit_part(s@).len() == 0);
        return None;
    }
    let ghost dp = digit_part(s@);
    proof {
        assert(dp =~= s@.skip(start as int));
    }
    let limit: i64 = if neg {
        2147483648
    } else {
        2147483647
    };
    let mut acc: i64 = 0;
    let mut i: usize = start;
    while i < n
        invariant
            start <= i <= n,
            n == s@.len(),
            start == 1 <==> (n > 0 && s@[0] == '-'),
            start == 0 || start == 1,
            neg <==> start == 1,
            dp == s@.skip(start as int),
            all_digits(dp.take(i - start)),
            acc == digits_value(dp.take(i - start)),
            0 <= acc <= limit,
            limit == if neg { 0x8000_0000i64 } else { 0x7fff_ffffi64 },
        decreases n - i,
    {
        let c = s.get_char(i);
        let cc = c as u32;
        proof {
            assert(dp[i - start] == c);
        }
        if cc < 48 || cc > 57 {
            // A non-digit in the digit part: not a numeric string.
            assert(!all_digits(dp));
            return None;
        }
        let d = cc - 48;
        let next = acc * 10 + (d as i64);
        proof {
            assert(dp.take(i + 1 - start).drop_last() =~= dp.take(i - start));
            assert(dp.take(i + 1 - start).last() == c);
        }
        if next > limit {
            // The digits seen so far already exceed the range of `i32`, and
            // further digits can only increase the magnitude.
            proof {
                if is_numeric_string(s@) {
                    assert(digits_value(dp.take(i + 1 - start)) == acc * 10 + digit_value(c));
                    assert(digit_value(c) == d as int);
                    lemma_digits_value_prefix(dp, i + 1 - start);
                    assert(digits_value(dp) >= next);
                    if neg {
                        assert(numeric_value(s@) == -digits_value(dp));
                        assert(numeric_value(s@) < i32::MIN);
                    } else {
                        assert(dp =~= s@);
                        assert(numeric_value(s@) == digits_value(dp));
                        assert(numeric_value(s@) > i32::MAX);
                    }
                }
            }
            return None;
        }
        acc = next;
        i = i + 1;
    }
    proof {
        assert(dp.take(i - start) =~= dp);
        if neg {
            assert(numeric_value(s@) == -digits_value(dp));
        } else {
            assert(numeric_value(s@) == digits_value(dp));
        }
    }
    if neg {
        let v = -acc;
        assert(i32::MIN <= v <= i32::MAX);
        Some(v as i32)
    } else {
        assert(i32::MIN <= acc <= i32::MAX);
        Some(acc as i32)
    }
}

} // verus!
