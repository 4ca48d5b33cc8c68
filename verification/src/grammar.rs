//! The shape of a description: `[count]d<sides>[(+|-)modifier]`.

use vstd::prelude::*;
use vstd::string::*;
use crate::digits::{ascii_len, digit_run_end, digits_in, is_digit};

verus! {

/// The byte of the letter `d`.
pub const ASCII_D: u8 = 100;

/// The byte of the sign `+`.
pub const ASCII_PLUS: u8 = 43;

/// The byte of the sign `-`.
pub const ASCII_MINUS: u8 = 45;

/// `c` is `+` or `-`.
pub open spec fn is_sign(c: char) -> bool {
    c == '+' || c == '-'
}

/// `s` is a description whose `d` stands at index `d` and whose modifier, if
/// it has one, starts with its sign at index `m`; without a modifier `m` is
/// the length of `s`.
///
/// The count is `s[0..d]`, any number of digits, none if it is left out.
/// The sides are `s[d+1..m]`, at least one digit. The modifier is a sign and
/// at least one digit, up to the end of `s`.
pub open spec fn has_shape(s: Seq<char>, d: int, m: int) -> bool {
    &&& 0 <= d
    &&& d + 1 < m <= s.len()
    &&& digits_in(s, 0, d)
    &&& s[d] == 'd'
    &&& digits_in(s, d + 1, m)
    &&& m < s.len() ==> {
        &&& is_sign(s[m])
        &&& m + 1 < s.len()
        &&& digits_in(s, m + 1, s.len() as int)
    }
}

/// The whole of `s` is a description.
pub open spec fn matches_grammar(s: Seq<char>) -> bool {
    exists|d: int, m: int| has_shape(s, d, m)
}

/// A description can be split in one way only.
pub proof fn lemma_shape_unique(s: Seq<char>, d1: int, m1: int, d2: int, m2: int)
    requires
        has_shape(s, d1, m1),
        has_shape(s, d2, m2),
    ensures
        d1 == d2,
        m1 == m2,
{
    if d1 < d2 {
        assert(is_digit(s[d1]));
    }
    if d2 < d1 {
        assert(is_digit(s[d2]));
    }
    if m1 < m2 {
        assert(is_digit(s[m1]));
    }
    if m2 < m1 {
        assert(is_digit(s[m2]));
    }
}

/// A description holds ASCII characters only.
pub proof fn lemma_shape_is_ascii(s: Seq<char>, d: int, m: int)
    requires
        has_shape(s, d, m),
    ensures
        vstd::utf8::is_ascii_chars(s),
{
    assert forall|i: int| 0 <= i < s.len() implies '\0' <= #[trigger] s[i] <= '\u{7f}' by {
        if i < d {
            assert(is_digit(s[i]));
        } else if d < i < m {
            assert(is_digit(s[i]));
        } else if m < i {
            assert(is_digit(s[i]));
        }
    }
}

/// A run of digits from `from` ends at the first character that is no digit,
/// and nowhere else.
pub proof fn lemma_first_break(s: Seq<char>, from: int, a: int, b: int)
    requires
        0 <= from <= a <= s.len(),
        from <= b <= s.len(),
        digits_in(s, from, a),
        digits_in(s, from, b),
        a < s.len() ==> !is_digit(s[a]),
        b < s.len() ==> !is_digit(s[b]),
    ensures
        a == b,
{
    if a < b {
        assert(is_digit(s[a]));
    }
    if b < a {
        assert(is_digit(s[b]));
    }
}

/// Splits a description: the index of its `d` and the index at which its
/// modifier starts (the length of `s` where it has none). `None` where `s`
/// is no description.
pub fn scan(s: &str) -> (split: Option<(usize, usize)>)
    ensures
        match split {
            Some((d, m)) => has_shape(s@, d as int, m as int),
            None => !matches_grammar(s@),
        },
{
    if !s.is_ascii() {
        assert forall|d: int, m: int| !has_shape(s@, d, m) by {
            if has_shape(s@, d, m) {
                lemma_shape_is_ascii(s@, d, m);
            }
        }
        return None;
    }
    let n: usize = ascii_len(s);
    let d: usize = digit_run_end(s, 0);
    if d >= n || s.get_ascii(d) != ASCII_D {
        assert forall|d2: int, m2: int| !has_shape(s@, d2, m2) by {
            if has_shape(s@, d2, m2) {
                lemma_first_break(s@, 0, d as int, d2);
            }
        }
        return None;
    }
    let m: usize = digit_run_end(s, d + 1);
    let signed: bool = m < n && (s.get_ascii(m) == ASCII_PLUS || s.get_ascii(m) == ASCII_MINUS);
    let e: usize = if signed {
        digit_run_end(s, m + 1)
    } else {
        m
    };
    if m > d + 1 && e == n && (m == n || e > m + 1) {
        Some((d, m))
    } else {
        assert forall|d2: int, m2: int| !has_shape(s@, d2, m2) by {
            if has_shape(s@, d2, m2) {
                lemma_first_break(s@, 0, d as int, d2);
                lemma_first_break(s@, d + 1, m as int, m2);
                if m < n {
                    lemma_first_break(s@, m + 1, e as int, n as int);
                }
            }
        }
        None
    }
}

} // verus!
