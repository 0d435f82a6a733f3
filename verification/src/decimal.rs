//! Decimal notation of integers: reading a signed 64-bit literal and
//! writing integers out.

use vstd::prelude::*;
use crate::chars::is_ascii_digit;

verus! {

/// The value of the decimal digit `c`.
pub open spec fn digit_value(c: char) -> nat {
    (c as u32 - '0' as u32) as nat
}

/// The decimal digit of value `d`, for `d < 10`.
pub open spec fn digit_char(d: nat) -> char {
    ('0' as u32 + d) as char
}

/// Whether every character of `s` is a decimal digit.
pub open spec fn all_digits(s: Seq<char>) -> bool {
    forall|i: int| 0 <= i < s.len() ==> is_ascii_digit(#[trigger] s[i])
}

/// The number that the digit string `s` denotes, most significant digit
/// first. The empty string denotes 0.
pub open spec fn digits_value(s: Seq<char>) -> nat
    decreases s.len(),
{
    if s.len() == 0 {
        0
    } else {
        digits_value(s.drop_last()) * 10 + digit_value(s.last())
    }
}

/// The integer that `s` denotes as a signed 64-bit literal: an optional
/// sign `+` or `-`, then one or more decimal digits, with a value that
/// an `i64` can hold. `None` for every other string.
pub open spec fn parse_i64(s: Seq<char>) -> Option<i64> {
    if s.len() > 0 && s[0] == '-' {
        let d = s.drop_first();
        if d.len() > 0 && all_digits(d) && digits_value(d) <= 0x8000_0000_0000_0000 {
            Some((-(digits_value(d) as int)) as i64)
        } else {
            None
        }
    } else {
        let d = if s.len() > 0 && s[0] == '+' {
            s.drop_first()
        } else {
            s
        };
        if d.len() > 0 && all_digits(d) && digits_value(d) <= 0x7FFF_FFFF_FFFF_FFFF {
            Some(digits_value(d) as i64)
        } else {
            None
        }
    }
}

/// The decimal digits of `n`, without leading zeros.
pub open spec fn nat_decimal(n: nat) -> Seq<char>
    decreases n,
{
    if n < 10 {
        seq![digit_char(n)]
    } else {
        nat_decimal(n / 10).push(digit_char(n % 10))
    }
}

/// The decimal notation of `v`: a `-` for a negative number, then the
/// digits of its magnitude.
pub open spec fn int_decimal(v: int) -> Seq<char> {
    if v < 0 {
        seq!['-'] + nat_decimal((-v) as nat)
    } else {
        nat_decimal(v as nat)
    }
}

/// Extending a digit string never lowers its value.
pub proof fn lemma_digits_value_prefix(s: Seq<char>, k: int)
    requires
        0 <= k <= s.len(),
    ensures
        digits_value(s.take(k)) <= digits_value(s),
    decreases s.len() - k,
{
    if k == s.len() {
        assert(s.take(k) == s);
    } else {
        lemma_digits_value_prefix(s, k + 1);
        assert(s.take(k + 1).drop_last() == s.take(k));
    }
}

/// The decimal digits of a number are one or more digits, and they denote
/// the number.
pub proof fn lemma_nat_decimal(n: nat)
    ensures
        nat_decimal(n).len() > 0,
        all_digits(nat_decimal(n)),
        digits_value(nat_decimal(n)) == n,
    decreases n,
{
    let s = nat_decimal(n);
    if n < 10 {
        assert(s.drop_last() == Seq::<char>::empty());
        assert(digits_value(s.drop_last()) == 0);
    } else {
        lemma_nat_decimal(n / 10);
        assert(s.drop_last() == nat_decimal(n / 10));
        assert forall|i: int| 0 <= i < s.len() implies is_ascii_digit(#[trigger] s[i]) by {
            if i < s.len() - 1 {
                assert(s[i] == nat_decimal(n / 10)[i]);
            }
        }
    }
}

/// The decimal notation of a 64-bit integer reads back as that integer.
pub proof fn lemma_decimal_reads_back(v: i64)
    ensures
        parse_i64(int_decimal(v as int)) == Some(v),
{
    if v < 0 {
        let m = (-v) as nat;
        lemma_nat_decimal(m);
        assert(int_decimal(v as int).drop_first() == nat_decimal(m));
    } else {
        lemma_nat_decimal(v as nat);
        let s = nat_decimal(v as nat);
        assert(is_ascii_digit(s[0]));
    }
}

/// The value of the digits `digits[from..]`, read under the given bound:
/// `Some(v)` when it is at most `limit`, else `None`.
fn read_digits(digits: &[char], from: usize, limit: u64) -> (r: Option<u64>)
    requires
        from <= digits.len(),
        9 <= limit <= 0x8000_0000_0000_0000,
    ensures
        r == (if all_digits(digits@.skip(from as int)) && digits_value(digits@.skip(from as int))
            <= limit {
            Some(digits_value(digits@.skip(from as int)) as u64)
        } else {
            None
        }),
{
    let ghost d = digits@.skip(from as int);
    let mut acc: u64 = 0;
    let mut i: usize = from;
    while i < digits.len()
        invariant
            from <= i <= digits.len(),
            d == digits@.skip(from as int),
            9 <= limit <= 0x8000_0000_0000_0000,
            all_digits(d.take(i - from)),
            acc == digits_value(d.take(i - from)),
            acc <= limit,
        decreases digits.len() - i,
    {
        let c: char = digits[i];
        proof {
            assert(d[i - from] == c);
            assert(d.take(i - from + 1).drop_last() == d.take(i - from));
            assert(d.take(i - from + 1).last() == c);
        }
        if !('0' <= c && c <= '9') {
            proof {
                assert(!is_ascii_digit(d[i - from]));
            }
            return None;
        }
        let v: u64 = (c as u32 - '0' as u32) as u64;
        if acc > limit / 10 || acc * 10 > limit - v {
            proof {
                assert(digits_value(d.take(i - from + 1)) > limit);
                lemma_digits_value_prefix(d, i - from + 1);
            }
            return None;
        }
        acc = acc * 10 + v;
        proof {
            assert forall|j: int| 0 <= j < i - from + 1 implies is_ascii_digit(
                #[trigger] d.take(i - from + 1)[j],
            ) by {
                if j < i - from {
                    assert(d.take(i - from)[j] == d.take(i - from + 1)[j]);
                }
            }
        }
        i += 1;
    }
    proof {
        assert(d.take(i - from) == d);
    }
    Some(acc)
}

/// Reads `word` as a signed 64-bit decimal literal.
pub fn read_i64(word: &[char]) -> (r: Option<i64>)
    ensures
        r == parse_i64(word@),
{
    if word.len() == 0 {
        return None;
    }
    let first: char = word[0];
    proof {
        assert(word@.skip(1) == word@.drop_first());
        assert(word@.skip(0) == word@);
    }
    if first == '-' {
        if word.len() == 1 {
            return None;
        }
        match read_digits(word, 1, 0x8000_0000_0000_0000) {
            Some(m) => if m == 0x8000_0000_0000_0000 {
                Some(i64::MIN)
            } else {
                Some(-(m as i64))
            },
            None => None,
        }
    } else {
        let from: usize = if first == '+' {
            1
        } else {
            0
        };
        if word.len() == from {
            return None;
        }
        match read_digits(word, from, 0x7FFF_FFFF_FFFF_FFFF) {
            Some(m) => Some(m as i64),
            None => None,
        }
    }
}

/// Appends the decimal digits of `n` to `out`.
pub fn push_nat_decimal(out: &mut String, n: u64)
    ensures
        final(out)@ == old(out)@ + nat_decimal(n as nat),
    decreases n,
{
    if n >= 10 {
        push_nat_decimal(out, n / 10);
    }
    let d: u8 = (n % 10) as u8;
    out.push((48u8 + d) as char);
    proof {
        assert((48u8 + d) as char == digit_char((n % 10) as nat));
        if n < 10 {
            assert(old(out)@.push(digit_char(n as nat)) == old(out)@ + seq![digit_char(n as nat)]);
        } else {
            assert((old(out)@ + nat_decimal((n / 10) as nat)).push(digit_char((n % 10) as nat))
                == old(out)@ + nat_decimal((n / 10) as nat).push(digit_char((n % 10) as nat)));
        }
    }
}

/// Appends the decimal notation of `v` to `out`.
pub fn push_i64_decimal(out: &mut String, v: i64)
    ensures
        final(out)@ == old(out)@ + int_decimal(v as int),
{
    if v < 0 {
        out.push('-');
        let m: u64 = if v == i64::MIN {
            0x8000_0000_0000_0000
        } else {
            (-v) as u64
        };
        push_nat_decimal(out, m);
        proof {
            assert(old(out)@.push('-') + nat_decimal(m as nat) == old(out)@ + (seq!['-']
                + nat_decimal(m as nat)));
        }
    } else {
        push_nat_decimal(out, v as u64);
    }
}

} // verus!
