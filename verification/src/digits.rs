//! Decimal digit strings and their values.

use vstd::prelude::*;
use vstd::string::*;

verus! {

/// The byte of the digit `0`.
pub const ASCII_ZERO: u8 = 48;

/// The byte of the digit `9`.
pub const ASCII_NINE: u8 = 57;

/// `c` is one of the ASCII decimal digits `0` to `9`.
pub open spec fn is_digit(c: char) -> bool {
    '0' <= c && c <= '9'
}

/// The number that the digit `c` stands for.
pub open spec fn digit_value(c: char) -> nat
    recommends
        is_digit(c),
{
    (c as int - '0' as int) as nat
}

/// Every character of `s` at an index in `lo..hi` is a decimal digit.
pub open spec fn digits_in(s: Seq<char>, lo: int, hi: int) -> bool {
    forall|i: int| lo <= i < hi ==> is_digit(#[trigger] s[i])
}

/// Every character of `s` is a decimal digit.
pub open spec fn all_digits(s: Seq<char>) -> bool {
    digits_in(s, 0, s.len() as int)
}

/// The value of `s` read as a decimal numeral, most significant digit first.
/// The empty string has value 0; leading zeros change nothing.
pub open spec fn decimal_value(s: Seq<char>) -> nat
    decreases s.len(),
{
    if s.len() == 0 {
        0
    } else {
        10 * decimal_value(s.drop_last()) + digit_value(s.last())
    }
}

/// The digit that stands for `k`, a number below ten.
pub open spec fn digit_char(k: nat) -> char
    recommends
        k < 10,
{
    ('0' as int + k) as char
}

/// The decimal numeral of `n`, without leading zeros.
pub open spec fn decimal_digits(n: nat) -> Seq<char>
    decreases n,
{
    if n < 10 {
        seq![digit_char(n)]
    } else {
        decimal_digits(n / 10).push(digit_char(n % 10))
    }
}

/// The numeral of `n` is a string of digits, not empty, whose value is `n`.
pub proof fn lemma_decimal_digits(n: nat)
    ensures
        decimal_digits(n).len() > 0,
        all_digits(decimal_digits(n)),
        decimal_value(decimal_digits(n)) == n,
    decreases n,
{
    let s = decimal_digits(n);
    if n < 10 {
        assert(s.drop_last().len() == 0);
        assert(decimal_value(s.drop_last()) == 0);
        assert(s.last() == digit_char(n));
        assert(is_digit(s[0]));
    } else {
        lemma_decimal_digits(n / 10);
        assert(s.drop_last() =~= decimal_digits(n / 10));
        assert(s.last() == digit_char(n % 10));
        assert(is_digit(s.last()));
        assert forall|i: int| 0 <= i < s.len() implies is_digit(#[trigger] s[i]) by {
            if i < s.len() - 1 {
                assert(s[i] == decimal_digits(n / 10)[i]);
            }
        }
    }
}

/// `Some(v)` where `v` is at most `limit`, else `None`.
pub open spec fn bounded(v: nat, limit: u64) -> Option<u64> {
    if v <= limit {
        Some(v as u64)
    } else {
        None
    }
}

/// The number of characters of an ASCII string.
pub(crate) fn ascii_len(s: &str) -> (n: usize)
    requires
        s.is_ascii(),
    ensures
        n == s@.len(),
{
    proof {
        is_ascii_spec_bytes(s);
    }
    s.as_bytes().len()
}

/// The index at which the run of digits that starts at `from` ends: the
/// first index at or after `from` that holds no digit, or the length of `s`.
pub(crate) fn digit_run_end(s: &str, from: usize) -> (end: usize)
    requires
        s.is_ascii(),
        from <= s@.len(),
    ensures
        from <= end <= s@.len(),
        digits_in(s@, from as int, end as int),
        end < s@.len() ==> !is_digit(s@[end as int]),
{
    let n: usize = ascii_len(s);
    let mut end: usize = from;
    while end < n
        invariant
            s.is_ascii(),
            n == s@.len(),
            from <= end <= n,
            digits_in(s@, from as int, end as int),
        decreases n - end,
    {
        let b: u8 = s.get_ascii(end);
        if b < ASCII_ZERO || b > ASCII_NINE {
            return end;
        }
        end += 1;
    }
    end
}

/// Reads the digits of `s` at `from..to` as a decimal numeral. Returns the
/// value where it is at most `limit`, and `None` where it is larger.
pub(crate) fn parse_decimal(s: &str, from: usize, to: usize, limit: u64) -> (value: Option<u64>)
    requires
        s.is_ascii(),
        from <= to <= s@.len(),
        digits_in(s@, from as int, to as int),
        10 * limit + 9 <= u64::MAX,
    ensures
        value == bounded(decimal_value(s@.subrange(from as int, to as int)), limit),
{
    let mut acc: u64 = 0;
    let mut i: usize = from;
    assert(s@.subrange(from as int, from as int).len() == 0);
    while i < to
        invariant
            s.is_ascii(),
            from <= i <= to <= s@.len(),
            digits_in(s@, from as int, to as int),
            10 * limit + 9 <= u64::MAX,
            acc <= limit,
            acc == decimal_value(s@.subrange(from as int, i as int)),
        decreases to - i,
    {
        let b: u8 = s.get_ascii(i);
        let ghost before = s@.subrange(from as int, i as int);
        let ghost after = s@.subrange(from as int, i + 1);
        proof {
            assert(is_digit(s@[i as int]));
            assert(after.drop_last() =~= before);
            assert(after.last() == s@[i as int]);
        }
        let next: u64 = acc * 10 + (b - ASCII_ZERO) as u64;
        assert(next == decimal_value(after));
        if next > limit {
            proof {
                lemma_prefix_value(s@.subrange(from as int, to as int), i + 1 - from);
                assert(s@.subrange(from as int, to as int).subrange(0, i + 1 - from) =~= after);
            }
            return None;
        }
        acc = next;
        i += 1;
    }
    Some(acc)
}

/// A numeral is worth at least as much as any of its prefixes.
pub proof fn lemma_prefix_value(s: Seq<char>, k: int)
    requires
        0 <= k <= s.len(),
    ensures
        decimal_value(s.subrange(0, k)) <= decimal_value(s),
    decreases s.len() - k,
{
    if k == s.len() {
        assert(s.subrange(0, k) =~= s);
    } else {
        lemma_prefix_value(s.drop_last(), k);
        assert(s.drop_last().subrange(0, k) =~= s.subrange(0, k));
    }
}

} // verus!
