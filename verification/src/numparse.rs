//! Verified decimal parsing for the numeric fields of a trace line: an
//! unsigned descriptor id and a signed return value.

use vstd::prelude::*;

use crate::strutil::starts_with_char;

verus! {

/// Whether `c` is a decimal digit.
pub open spec fn is_digit(c: char) -> bool {
    '0' <= c && c <= '9'
}

/// The numeric value of a digit; 0 for any other character.
pub open spec fn digit_val(c: char) -> nat {
    if is_digit(c) {
        (c as int - '0' as int) as nat
    } else {
        0
    }
}

/// Whether every character of `s` is a decimal digit.
pub open spec fn all_digits(s: Seq<char>) -> bool {
    forall|i: int| 0 <= i < s.len() ==> is_digit(s[i])
}

/// The value of `s` read as a decimal numeral.
pub open spec fn digits_val(s: Seq<char>) -> nat
    decreases s.len(),
{
    if s.len() == 0 {
        0
    } else {
        digits_val(s.drop_last()) * 10 + digit_val(s.last())
    }
}

/// What `str::parse::<usize>` returns: the value of a non-empty all-digit
/// numeral, if it fits.
pub open spec fn parse_usize_spec(s: Seq<char>) -> Option<usize> {
    if s.len() > 0 && all_digits(s) && digits_val(s) <= usize::MAX as nat {
        Some(digits_val(s) as usize)
    } else {
        None
    }
}

/// What `str::parse::<i64>` returns: an optional sign, then a non-empty
/// all-digit numeral whose signed value fits.
pub open spec fn parse_i64_spec(s: Seq<char>) -> Option<i64> {
    if s.len() > 0 && s[0] == '-' {
        let m = s.skip(1);
        if m.len() > 0 && all_digits(m) && digits_val(m) <= 0x8000000000000000nat {
            Some((-(digits_val(m) as int)) as i64)
        } else {
            None
        }
    } else if s.len() > 0 && s[0] == '+' {
        let m = s.skip(1);
        if m.len() > 0 && all_digits(m) && digits_val(m) <= i64::MAX as nat {
            Some(digits_val(m) as i64)
        } else {
            None
        }
    } else {
        if s.len() > 0 && all_digits(s) && digits_val(s) <= i64::MAX as nat {
            Some(digits_val(s) as i64)
        } else {
            None
        }
    }
}

/// A numeral's value only grows as digits are appended.
proof fn lemma_digits_val_prefix_le(s: Seq<char>, j: int)
    requires
        0 <= j <= s.len(),
    ensures
        digits_val(s.take(j)) <= digits_val(s),
    decreases s.len() - j,
{
    if j < s.len() {
        lemma_digits_val_prefix_le(s, j + 1);
        assert(s.take(j + 1).drop_last() =~= s.take(j));
        assert(digits_val(s.take(j + 1)) == digits_val(s.take(j)) * 10 + digit_val(
            s.take(j + 1).last(),
        ));
    } else {
        assert(s.take(j) =~= s);
    }
}

/// Reads the digits of `s` from position `from` on as a decimal value,
/// refusing an empty or non-digit tail and any value above `limit`.
fn parse_digits(s: &str, from: usize, limit: u64) -> (r: Option<u64>)
    requires
        from <= s@.len(),
    ensures
        ({
            let m = s@.skip(from as int);
            match r {
                Some(v) => m.len() > 0 && all_digits(m) && digits_val(m) == v && v <= limit,
                None => !(m.len() > 0 && all_digits(m) && digits_val(m) <= limit as nat),
            }
        }),
{
    let ghost m = s@.skip(from as int);
    let n = s.unicode_len();
    if from == n {
        return None;
    }
    let mut acc: u64 = 0;
    let mut i: usize = from;
    while i < n
        invariant
            n == s@.len(),
            from <= i <= n,
            m == s@.skip(from as int),
            m.len() == n - from,
            forall|j: int| 0 <= j < i - from ==> is_digit(m[j]),
            acc == digits_val(m.take(i - from)),
            acc <= limit,
        decreases n - i,
    {
        let c = s.get_char(i);
        if c < '0' || c > '9' {
            proof {
                assert(m[i - from] == s@[i as int]);
            }
            return None;
        }
        let d: u64 = (c as u32 - '0' as u32) as u64;
        proof {
            assert(m[i - from] == s@[i as int]);
            assert(d == digit_val(m[i - from]));
        }
        if acc > limit / 10 || (acc == limit / 10 && d > limit % 10) {
            proof {
                assert(m.take(i - from + 1).drop_last() =~= m.take(i - from));
                assert(m.take(i - from + 1).last() == m[i - from]);
                assert(digits_val(m.take(i - from + 1)) == acc * 10 + d);
                assert(acc * 10 + d > limit);
                lemma_digits_val_prefix_le(m, i - from + 1);
            }
            return None;
        }
        proof {
            assert(m.take(i - from + 1).drop_last() =~= m.take(i - from));
            assert(m.take(i - from + 1).last() == m[i - from]);
            assert(acc * 10 + d <= limit);
        }
        acc = acc * 10 + d;
        i = i + 1;
    }
    proof {
        assert(m.take(n - from) =~= m);
    }
    Some(acc)
}

/// Parses a non-negative decimal numeral, as `str::parse::<usize>` does.
pub fn parse_usize(s: &str) -> (r: Option<usize>)
    ensures
        r == parse_usize_spec(s@),
{
    proof {
        assert(s@.skip(0) =~= s@);
    }
    match parse_digits(s, 0, usize::MAX as u64) {
        Some(v) => Some(v as usize),
        None => None,
    }
}

/// Parses an optionally signed decimal numeral, as `str::parse::<i64>` does.
pub fn parse_i64(s: &str) -> (r: Option<i64>)
    ensures
        r == parse_i64_spec(s@),
{
    if starts_with_char(s, '-') {
        match parse_digits(s, 1, 0x8000000000000000u64) {
            Some(v) => {
                if v == 0x8000000000000000u64 {
                    Some(i64::MIN)
                } else {
                    Some(-(v as i64))
                }
            },
            None => None,
        }
    } else if starts_with_char(s, '+') {
        match parse_digits(s, 1, i64::MAX as u64) {
            Some(v) => Some(v as i64),
            None => None,
        }
    } else {
        proof {
            assert(s@.skip(0) =~= s@);
        }
        match parse_digits(s, 0, i64::MAX as u64) {
            Some(v) => Some(v as i64),
            None => None,
        }
    }
}

} // verus!
