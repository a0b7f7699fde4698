//! Reading integers from text, as `str::parse` reads them.
use vstd::prelude::*;
use crate::text::chars_of;

verus! {

pub open spec fn is_digit(c: char) -> bool {
    '0' <= c && c <= '9'
}

/// Whether `s` is a non-empty run of ASCII digits.
pub open spec fn all_digits(s: Seq<char>) -> bool {
    s.len() > 0 && forall|i: int| 0 <= i < s.len() ==> is_digit(#[trigger] s[i])
}

/// The number that the decimal digits `s` write.
pub open spec fn digits_value(s: Seq<char>) -> int
    decreases s.len(),
{
    if s.len() == 0 {
        0
    } else {
        digits_value(s.drop_last()) * 10 + (s.last() as int - 48)
    }
}

/// The integer that `s` writes: digits, after an optional `+` or `-`.
pub open spec fn int_text(s: Seq<char>) -> Option<int> {
    if s.len() > 0 && (s[0] == '+' || s[0] == '-') {
        if all_digits(s.skip(1)) {
            Some(if s[0] == '-' { -digits_value(s.skip(1)) } else { digits_value(s.skip(1)) })
        } else {
            None
        }
    } else if all_digits(s) {
        Some(digits_value(s))
    } else {
        None
    }
}

/// `s.parse::<i64>()`: the integer `s` writes, when it fits in an `i64`.
pub open spec fn i64_text(s: Seq<char>) -> Option<i64> {
    match int_text(s) {
        Some(v) => if i64::MIN <= v <= i64::MAX { Some(v as i64) } else { None },
        None => None,
    }
}

pub proof fn lemma_digits_value_grows(s: Seq<char>, j: int)
    requires
        0 <= j <= s.len(),
        forall|i: int| 0 <= i < s.len() ==> is_digit(#[trigger] s[i]),
    ensures
        0 <= digits_value(s.take(j)) <= digits_value(s),
    decreases s.len(),
{
    if s.len() > 0 {
        if j == s.len() {
            assert(s.take(j) =~= s);
            lemma_digits_value_grows(s.drop_last(), j - 1);
            assert(s.drop_last().take(j - 1) =~= s.drop_last());
        } else {
            lemma_digits_value_grows(s.drop_last(), j);
            assert(s.drop_last().take(j) =~= s.take(j));
        }
    }
}

/// Parses `s` as an `i64`, as `str::parse` does.
pub fn parse_i64(s: &str) -> (r: Option<i64>)
    ensures
        r == i64_text(s@),
{
    let cs = chars_of(s);
    let n = cs.len();
    if n == 0 {
        return None;
    }
    let neg = cs[0] == '-';
    let start: usize = if cs[0] == '+' || cs[0] == '-' { 1 } else { 0 };
    let ghost d = cs@.skip(start as int);
    if start == n {
        assert(d.len() == 0);
        return None;
    }
    proof {
        if start == 0 {
            assert(d =~= cs@);
        }
    }
    let limit: u64 = 9223372036854775808;
    let mut acc: u64 = 0;
    let mut i: usize = start;
    while i < n
        invariant
            cs@ == s@,
            n == cs@.len(),
            start <= i <= n,
            d == cs@.skip(start as int),
            n > 0,
            start == (if cs@[0] == '+' || cs@[0] == '-' { 1usize } else { 0usize }),
            neg == (cs@[0] == '-'),
            start == 0 ==> d == cs@,
            limit == 9223372036854775808u64,
            acc <= limit,
            forall|k: int| 0 <= k < i - start ==> is_digit(#[trigger] d[k]),
            acc == digits_value(d.take(i - start)),
        decreases n - i,
    {
        let c = cs[i];
        if !('0' <= c && c <= '9') {
            assert(!is_digit(d[i - start]));
            return None;
        }
        let digit = (c as u32 - 48) as u64;
        assert(digit <= 9);
        assert(d.take(i - start + 1).drop_last() =~= d.take(i - start));
        if acc > (limit - digit) / 10 {
            proof {
                assert(digits_value(d.take(i - start + 1)) > limit);
            }
            i = i + 1;
            while i < n
                invariant
                    cs@ == s@,
                    n == cs@.len(),
                    start < i <= n,
                    d == cs@.skip(start as int),
                    n > 0,
                    start == (if cs@[0] == '+' || cs@[0] == '-' { 1usize } else { 0usize }),
                    start == 0 ==> d == cs@,
                    limit == 9223372036854775808u64,
                    forall|k: int| 0 <= k < i - start ==> is_digit(#[trigger] d[k]),
                    digits_value(d.take(i - start)) > limit,
                decreases n - i,
            {
                if !('0' <= cs[i] && cs[i] <= '9') {
                    assert(!is_digit(d[i - start]));
                    return None;
                }
                assert(d.take(i - start + 1).drop_last() =~= d.take(i - start));
                assert(is_digit(d[i - start]));
                i = i + 1;
            }
            proof {
                assert(d.take(i - start) =~= d);
                lemma_digits_value_grows(d, i - start);
                if start == 0 {
                    assert(d =~= cs@);
                }
            }
            return None;
        }
        acc = acc * 10 + digit;
        i = i + 1;
    }
    proof {
        assert(d.take(n - start) =~= d);
        if start == 0 {
            assert(d =~= cs@);
        }
    }
    if neg {
        if acc == limit {
            Some(-9223372036854775807i64 - 1)
        } else {
            Some(-(acc as i64))
        }
    } else if acc < limit {
        Some(acc as i64)
    } else {
        None
    }
}

} // verus!
