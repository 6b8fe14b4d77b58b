//! Character classification, lexicographic order and the few string
//! conversions the library needs.
use vstd::prelude::*;

verus! {

/// `c` is one of `'a'..='z'`.
pub open spec fn is_lower(c: char) -> bool {
    'a' <= c && c <= 'z'
}

/// `c` is one of `'A'..='Z'`.
pub open spec fn is_upper(c: char) -> bool {
    'A' <= c && c <= 'Z'
}

/// `c` is an ASCII letter.
pub open spec fn is_ascii_letter(c: char) -> bool {
    is_lower(c) || is_upper(c)
}

/// ASCII lowercasing: upper-case ASCII letters map to their lower-case
/// counterpart, every other character is unchanged.
pub open spec fn ascii_lower(c: char) -> char {
    if is_upper(c) {
        ((c as u32) + 32) as char
    } else {
        c
    }
}

/// The letter with code `k` (0 for `'a'` up to 25 for `'z'`).
pub open spec fn letter(k: int) -> char {
    (97 + k) as char
}

/// The code (0..26) of a lower-case letter.
pub open spec fn letter_code(c: char) -> int {
    (c as int) - 97
}

/// Letters are the 26 consecutive code points from `'a'`.
pub broadcast proof fn lemma_letter(k: int)
    requires
        0 <= k < 26,
    ensures
        #[trigger] letter(k) as int == 97 + k,
        is_lower(letter(k)),
        letter_code(letter(k)) == k,
{
}

/// A lower-case letter is the letter of its code.
pub broadcast proof fn lemma_letter_code(c: char)
    requires
        is_lower(c),
    ensures
        0 <= #[trigger] letter_code(c) < 26,
        letter(letter_code(c)) == c,
{
}

/// Whether `c` is an ASCII lower-case letter.
pub fn char_is_lower(c: char) -> (b: bool)
    ensures
        b == is_lower(c),
{
    'a' <= c && c <= 'z'
}

/// Whether `c` is an ASCII letter.
pub fn char_is_ascii_letter(c: char) -> (b: bool)
    ensures
        b == is_ascii_letter(c),
{
    ('a' <= c && c <= 'z') || ('A' <= c && c <= 'Z')
}

/// ASCII lowercasing of one character.
pub fn char_ascii_lower(c: char) -> (r: char)
    ensures
        r == ascii_lower(c),
{
    if 'A' <= c && c <= 'Z' {
        let u: u32 = (c as u32) + 32;
        char_from_lower_code(u - 97)
    } else {
        c
    }
}

/// The letter with code `k`.
pub fn char_from_lower_code(k: u32) -> (c: char)
    requires
        k < 26,
    ensures
        c == letter(k as int),
        is_lower(c),
        letter_code(c) == k,
{
    let b: u8 = 97u8 + (k as u8);
    b as char
}

/// The characters of `s`, in order.
pub fn str_chars(s: &str) -> (v: Vec<char>)
    ensures
        v@ == s@,
{
    let mut v: Vec<char> = Vec::new();
    for c in it: s.chars()
        invariant
            v@ == it.seq().take(it.index()),
            it.seq() == s@,
    {
        v.push(c);
    }
    v
}

/// The decimal digit with value `d` (0..10).
pub open spec fn digit_char(d: nat) -> char {
    (48 + d) as char
}

/// Decimal representation of `n`, most significant digit first, no leading
/// zeros (`"0"` for zero).
pub open spec fn decimal(n: nat) -> Seq<char>
    decreases n,
{
    if n < 10 {
        seq![digit_char(n)]
    } else {
        decimal(n / 10).push(digit_char(n % 10))
    }
}

/// Builds a `String` from characters with std's `FromIterator<&char>` for
/// `String` (`collect`); the string holds exactly those characters, in order.
#[verifier::external_body]
pub fn string_from_chars(chars: &[char]) -> (s: String)
    ensures
        s@ == chars@,
{
    chars.iter().collect()
}

/// Appends the characters of `s`.
pub fn push_str(out: &mut Vec<char>, s: &str)
    ensures
        final(out)@ == old(out)@ + s@,
{
    let ghost start = out@;
    let chars = str_chars(s);
    for i in 0..chars.len()
        invariant
            chars@ == s@,
            out@ == start + chars@.take(i as int),
    {
        out.push(chars[i]);
        assert(chars@.take(i + 1) =~= chars@.take(i as int).push(chars@[i as int]));
        assert(out@ =~= start + chars@.take(i + 1));
    }
    assert(chars@.take(chars@.len() as int) =~= chars@);
}

/// Appends the decimal representation of `n`.
pub fn push_decimal(out: &mut Vec<char>, n: usize)
    ensures
        final(out)@ == old(out)@ + decimal(n as nat),
    decreases n,
{
    let ghost start = out@;
    if n < 10 {
        out.push(digit_of(n as u8));
        assert(out@ =~= start + decimal(n as nat));
    } else {
        push_decimal(out, n / 10);
        out.push(digit_of((n % 10) as u8));
        assert(out@ =~= start + decimal(n as nat));
    }
}

/// The decimal digit with value `d`.
fn digit_of(d: u8) -> (c: char)
    requires
        d < 10,
    ensures
        c == digit_char(d as nat),
{
    let b: u8 = 48u8 + d;
    b as char
}

/// The prefix, the character, then a closing quote.
pub fn quoted_char_message(prefix: &str, c: char) -> (s: String)
    ensures
        s@ == prefix@ + seq![c, '\''],
{
    let mut out: Vec<char> = Vec::new();
    push_str(&mut out, prefix);
    out.push(c);
    out.push('\'');
    assert(out@ =~= prefix@ + seq![c, '\'']);
    string_from_chars(out.as_slice())
}

/// "Expected <expected> letters, got <got>", the numbers in decimal.
pub fn count_mismatch_message(expected: usize, got: usize) -> (s: String)
    ensures
        s@ == "Expected "@ + decimal(expected as nat) + " letters, got "@ + decimal(got as nat),
{
    let mut out: Vec<char> = Vec::new();
    push_str(&mut out, "Expected ");
    push_decimal(&mut out, expected);
    push_str(&mut out, " letters, got ");
    push_decimal(&mut out, got);
    assert(out@ =~= "Expected "@ + decimal(expected as nat) + " letters, got "@ + decimal(got as nat));
    string_from_chars(out.as_slice())
}

/// Name for std's `char::is_alphabetic` (the Unicode `Alphabetic`
/// property) of `c`.
pub uninterp spec fn unicode_alphabetic(c: char) -> bool;

/// `c` is an ASCII character.
pub open spec fn is_ascii(c: char) -> bool {
    (c as u32) < 128
}

/// std's `char::is_alphabetic`. Its result is named, and the Unicode tables
/// behind it are not restated here; only that among ASCII characters the
/// alphabetic ones are exactly the letters `A..Z` and `a..z`.
#[verifier::external_body]
pub fn char_is_alphabetic(c: char) -> (b: bool)
    ensures
        b == unicode_alphabetic(c),
        is_ascii(c) ==> (b == is_ascii_letter(c)),
{
    c.is_alphabetic()
}

} // verus!
