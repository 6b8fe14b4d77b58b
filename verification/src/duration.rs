//! Durations given on the command line: a whole number followed by an
//! optional unit, `h` (hours), `m` (minutes) or `s` (seconds, the default).
use vstd::prelude::*;
use crate::text::str_chars;

verus! {

/// `c` is an ASCII decimal digit.
pub open spec fn is_digit(c: char) -> bool {
    '0' <= c && c <= '9'
}

/// The value of a string of decimal digits.
pub open spec fn digits_value(s: Seq<char>) -> nat
    decreases s.len(),
{
    if s.len() == 0 {
        0
    } else {
        digits_value(s.drop_last()) * 10 + ((s.last() as int) - 48) as nat
    }
}

/// Every character of `d` is a decimal digit.
pub open spec fn all_digits(d: Seq<char>) -> bool {
    forall|i: int| 0 <= i < d.len() ==> is_digit(#[trigger] d[i])
}

/// `s` without a leading `+`.
pub open spec fn unsigned_part(s: Seq<char>) -> Seq<char> {
    if s.len() > 0 && s[0] == '+' {
        s.drop_first()
    } else {
        s
    }
}

/// How std's `u64::from_str` reads `s`: an optional `+`, then at least one
/// decimal digit and nothing else, with a value that fits in a `u64`.
pub open spec fn spec_parse_u64(s: Seq<char>) -> Option<u64> {
    let d = unsigned_part(s);
    if d.len() > 0 && all_digits(d) && digits_value(d) <= u64::MAX {
        Some(digits_value(d) as u64)
    } else {
        None
    }
}

/// The number part and the unit of an (already trimmed) duration: a final
/// `h`, `m` or `s` is the unit (3600, 60 or 1 seconds), anything else means
/// seconds and belongs to the number.
pub open spec fn spec_split_duration(t: Seq<char>) -> Option<(u64, u64)> {
    if t.len() == 0 {
        None
    } else {
        let (num, unit) = if t.last() == 'h' {
            (t.drop_last(), 3600u64)
        } else if t.last() == 'm' {
            (t.drop_last(), 60u64)
        } else if t.last() == 's' {
            (t.drop_last(), 1u64)
        } else {
            (t, 1u64)
        };
        match spec_parse_u64(num) {
            Some(n) => Some((n, unit)),
            None => None,
        }
    }
}

/// `c` has the Unicode `White_Space` property: tab, line feed, vertical
/// tab, form feed, carriage return, space, next line, no-break space, ogham
/// space mark, the spaces U+2000 to U+200A, line and paragraph separators,
/// narrow no-break space, medium mathematical space and ideographic space.
pub open spec fn is_white_space(c: char) -> bool {
    let u = c as u32;
    ||| 0x09 <= u <= 0x0D
    ||| u == 0x20
    ||| u == 0x85
    ||| u == 0xA0
    ||| u == 0x1680
    ||| 0x2000 <= u <= 0x200A
    ||| u == 0x2028
    ||| u == 0x2029
    ||| u == 0x202F
    ||| u == 0x205F
    ||| u == 0x3000
}

/// `s` without its leading white space.
pub open spec fn trim_start(s: Seq<char>) -> Seq<char>
    decreases s.len(),
{
    if s.len() > 0 && is_white_space(s[0]) {
        trim_start(s.drop_first())
    } else {
        s
    }
}

/// `s` without its trailing white space.
pub open spec fn trim_end(s: Seq<char>) -> Seq<char>
    decreases s.len(),
{
    if s.len() > 0 && is_white_space(s.last()) {
        trim_end(s.drop_last())
    } else {
        s
    }
}

/// `s` without leading and trailing white space.
pub open spec fn trimmed(s: Seq<char>) -> Seq<char> {
    trim_end(trim_start(s))
}

/// std's `str::trim`: `s` without the leading and trailing characters that
/// have the Unicode `White_Space` property (`char::is_whitespace`).
#[verifier::external_body]
fn trim_str(s: &str) -> (t: &str)
    ensures
        t@ == trimmed(s@),
{
    s.trim()
}

/// A prefix of a string of digits is worth no more than the whole string.
pub proof fn lemma_digits_prefix(s: Seq<char>, n: int)
    requires
        0 <= n <= s.len(),
        forall|k: int| 0 <= k < s.len() ==> is_digit(#[trigger] s[k]),
    ensures
        digits_value(s.take(n)) <= digits_value(s),
    decreases s.len(),
{
    if n < s.len() {
        let t = s.drop_last();
        assert(t.take(n) =~= s.take(n));
        lemma_digits_prefix(t, n);
        assert(digits_value(t) <= digits_value(t) * 10) by (nonlinear_arith);
    } else {
        assert(s.take(n) =~= s);
    }
}

/// Reads a whole `u64` the way std's `u64::from_str` does: an optional `+`
/// and then only decimal digits, within range.
pub fn parse_u64(s: &[char]) -> (r: Option<u64>)
    ensures
        r == spec_parse_u64(s@),
{
    let start: usize = if s.len() > 0 && s[0] == '+' { 1 } else { 0 };
    let ghost d = unsigned_part(s@);
    assert(d =~= s@.subrange(start as int, s@.len() as int));
    if start == s.len() {
        return None;
    }
    let mut value: u64 = 0;
    let mut i: usize = start;
    while i < s.len()
        invariant
            start <= i <= s@.len(),
            d =~= s@.subrange(start as int, s@.len() as int),
            d == unsigned_part(s@),
            forall|k: int| start <= k < i ==> is_digit(#[trigger] s@[k]),
            value as nat == digits_value(s@.subrange(start as int, i as int)),
        decreases s.len() - i,
    {
        let c = s[i];
        if !('0' <= c && c <= '9') {
            assert(!is_digit(d[i - start]));
            assert(!all_digits(d));
            return None;
        }
        let digit: u64 = (c as u32 - 48) as u64;
        assert(s@.subrange(start as int, i + 1).drop_last() =~= s@.subrange(start as int, i as int));
        if value > (u64::MAX - digit) / 10 {
            assert(digits_value(s@.subrange(start as int, i + 1)) > u64::MAX) by (nonlinear_arith)
                requires
                    value > (u64::MAX - digit) / 10,
                    digits_value(s@.subrange(start as int, i + 1)) == value * 10 + digit,
            ;
            proof {
                if all_digits(d) {
                    lemma_digits_prefix(d, i + 1 - start);
                    assert(d.take(i + 1 - start) =~= s@.subrange(start as int, i + 1));
                }
            }
            return None;
        }
        value = value * 10 + digit;
        i += 1;
    }
    Some(value)
}

/// Splits a trimmed duration into its number and unit (in seconds).
pub fn split_duration(t: &str) -> (r: Option<(u64, u64)>)
    ensures
        r == spec_split_duration(t@),
{
    let chars = str_chars(t);
    let n = chars.len();
    if n == 0 {
        return None;
    }
    let last = chars[n - 1];
    let all: &[char] = chars.as_slice();
    let (num, unit): (&[char], u64) = if last == 'h' {
        (&all[0..n - 1], 3600)
    } else if last == 'm' {
        (&all[0..n - 1], 60)
    } else if last == 's' {
        (&all[0..n - 1], 1)
    } else {
        (all, 1)
    };
    assert(chars@.drop_last() =~= chars@.subrange(0, n - 1));
    match parse_u64(num) {
        Some(v) => Some((v, unit)),
        None => None,
    }
}

/// Reads a duration such as `"90"`, `"30s"`, `"5m"` or `"2h"` (surrounding
/// whitespace is ignored) as a number of seconds. Text that does not read
/// as a duration, and a duration whose seconds do not fit in a `u64`, give
/// `None`.
pub fn parse_duration(s: &str) -> (r: Option<u64>)
    ensures
        r == match spec_split_duration(trimmed(s@)) {
            Some((n, unit)) => if n * unit <= u64::MAX {
                Some((n * unit) as u64)
            } else {
                None
            },
            None => None,
        },
{
    let t = trim_str(s);
    match split_duration(t) {
        Some((n, unit)) => n.checked_mul(unit),
        None => None,
    }
}

} // verus!
