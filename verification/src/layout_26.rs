//! A layout assigns one letter to each of the 26 positions of the board.
use vstd::prelude::*;
use crate::geometry::{Finger, Hand, Row, NUM_KEYS, key_at, spec_key};
use crate::text::{
    is_ascii, is_ascii_letter,
    char_ascii_lower, char_is_alphabetic, count_mismatch_message, str_chars, string_from_chars,
    unicode_alphabetic,
    lemma_letter,
    ascii_lower, char_from_lower_code, char_is_lower, decimal, is_lower, letter, letter_code,
    quoted_char_message,
};

verus! {

broadcast use vstd::array::group_array_axioms;

/// `n` spaces.
pub open spec fn spaces(n: nat) -> Seq<char> {
    Seq::new(n, |i: int| ' ')
}

/// The letters at positions `lo..hi`, each followed by a space.
pub open spec fn cells(ps: Seq<char>, lo: int, hi: int) -> Seq<char>
    decreases hi - lo,
{
    if hi <= lo {
        Seq::empty()
    } else {
        cells(ps, lo, hi - 1) + seq![ps[hi - 1], ' ']
    }
}

/// The three-row picture of a layout: the top row indented by four spaces,
/// the home row with the two pinky keys on each side, the bottom row
/// indented like the top one; the two hands are split by a bar.
pub open spec fn display_chars(ps: Seq<char>) -> Seq<char> {
    spaces(4) + cells(ps, 2, 6) + spaces(3) + seq!['|'] + spaces(3) + cells(ps, 13, 17) + seq!['\n']
        + seq![ps[0], ' ', ps[1], ' '] + cells(ps, 6, 10) + spaces(3) + seq!['|'] + spaces(3) + cells(ps, 17, 21)
        + seq![ps[24], ' ', ps[25], '\n']
        + spaces(4) + cells(ps, 10, 13) + spaces(5) + seq!['|'] + spaces(5) + cells(ps, 21, 24)
}

/// Appends `n` spaces.
fn push_spaces(out: &mut Vec<char>, n: usize)
    ensures
        final(out)@ == old(out)@ + spaces(n as nat),
{
    let ghost start = out@;
    for k in 0..n
        invariant
            out@ == start + spaces(k as nat),
    {
        out.push(' ');
        assert(out@ =~= start + spaces((k + 1) as nat));
    }
}

/// Appends the letters at positions `lo..hi`, each followed by a space.
fn push_cells(out: &mut Vec<char>, ps: &[char; NUM_KEYS], lo: usize, hi: usize)
    requires
        lo <= hi <= NUM_KEYS,
    ensures
        final(out)@ == old(out)@ + cells(ps@, lo as int, hi as int),
{
    let ghost start = out@;
    assert(cells(ps@, lo as int, lo as int) =~= Seq::<char>::empty());
    assert(start + cells(ps@, lo as int, lo as int) =~= start);
    for i in lo..hi
        invariant
            lo <= hi <= NUM_KEYS,
            out@ == start + cells(ps@, lo as int, i as int),
    {
        out.push(ps[i]);
        out.push(' ');
        assert(out@ =~= start + cells(ps@, lo as int, i + 1));
    }
}

/// Maps each position (0..26) to the letter placed there.
#[derive(Clone, Copy)]
pub struct Layout {
    pub positions: [char; NUM_KEYS],
}

/// Every entry of `ps` is a lower-case ASCII letter.
pub open spec fn all_lower(ps: Seq<char>) -> bool {
    forall|i: int| 0 <= i < ps.len() ==> is_lower(#[trigger] ps[i])
}

/// No letter occurs twice in `ps`.
pub open spec fn all_distinct(ps: Seq<char>) -> bool {
    forall|i: int, j: int| 0 <= i < ps.len() && 0 <= j < ps.len() && i != j ==> ps[i] != ps[j]
}

/// A valid layout: 26 lower-case letters, none repeated (so each letter
/// `a..z` occurs exactly once).
pub open spec fn valid_positions(ps: Seq<char>) -> bool {
    &&& ps.len() == NUM_KEYS
    &&& all_lower(ps)
    &&& all_distinct(ps)
}

/// Position `i` is where validation stops: its letter is not lower-case, or
/// it repeats a letter seen at an earlier position.
pub open spec fn bad_at(ps: Seq<char>, i: int) -> bool {
    !is_lower(ps[i]) || ps.take(i).contains(ps[i])
}

/// `i` is the first position at which validation stops.
pub open spec fn first_bad(ps: Seq<char>, i: int) -> bool {
    &&& 0 <= i < ps.len()
    &&& bad_at(ps, i)
    &&& forall|j: int| 0 <= j < i ==> !bad_at(ps, j)
}

/// The message validation reports for the bad position `i`.
pub open spec fn bad_message(ps: Seq<char>, i: int) -> Seq<char> {
    if !is_lower(ps[i]) {
        "Non-lowercase letter found: '"@ + seq![ps[i], '\'']
    } else {
        "Duplicate letter found: '"@ + seq![ps[i], '\'']
    }
}

/// What validation of `ps` yields: `Ok` for a valid layout, otherwise the
/// message for its first bad position.
pub open spec fn validation_outcome(ps: Seq<char>, r: Result<(), String>) -> bool {
    &&& (r is Ok <==> valid_positions(ps))
    &&& (r matches Err(m) ==> exists|i: int| first_bad(ps, i) && m@ == bad_message(ps, i))
}

/// ASCII-lowercase every letter.
pub open spec fn lowered(letters: Seq<char>) -> Seq<char> {
    letters.map_values(|c: char| ascii_lower(c))
}

/// What building a layout from already-filtered letters yields.
pub open spec fn from_letters_outcome(letters: Seq<char>, r: Result<Layout, String>) -> bool {
    if letters.len() != NUM_KEYS {
        r matches Err(m) && m@ == "Expected "@ + decimal(NUM_KEYS as nat) + " letters, got "@
            + decimal(letters.len())
    } else {
        let ps = lowered(letters);
        &&& (r is Ok <==> valid_positions(ps))
        &&& (r matches Ok(l) ==> l.positions@ == ps)
        &&& (r matches Err(m) ==> exists|i: int| first_bad(ps, i) && m@ == bad_message(ps, i))
    }
}

/// Every character of `s` is an ASCII letter.
pub open spec fn all_ascii_letters(s: Seq<char>) -> bool {
    forall|i: int| 0 <= i < s.len() ==> is_ascii_letter(#[trigger] s[i])
}

/// Every character of `s` is an ASCII character.
pub open spec fn all_ascii(s: Seq<char>) -> bool {
    forall|i: int| 0 <= i < s.len() ==> is_ascii(#[trigger] s[i])
}

/// What building a layout from a string yields: the outcome for its
/// alphabetic characters. For an ASCII string these are its ASCII letters,
/// and when the string holds ASCII letters only, all of its characters.
pub open spec fn from_string_outcome(s: Seq<char>, r: Result<Layout, String>) -> bool {
    &&& from_letters_outcome(s.filter(|c: char| unicode_alphabetic(c)), r)
    &&& all_ascii(s) ==> from_letters_outcome(s.filter(|c: char| is_ascii_letter(c)), r)
    &&& all_ascii_letters(s) ==> from_letters_outcome(s, r)
}

/// Reading back the letters of a valid layout gives the same layout: the
/// compact string of a layout parses to that layout.
pub proof fn lemma_compact_string_round_trip(ps: Seq<char>, r: Result<Layout, String>)
    requires
        valid_positions(ps),
        from_string_outcome(ps, r),
    ensures
        r matches Ok(l) && l.positions@ == ps,
{
    assert(all_ascii_letters(ps)) by {
        assert forall|i: int| 0 <= i < ps.len() implies is_ascii_letter(#[trigger] ps[i]) by {
            assert(is_lower(ps[i]));
        }
    }
    assert(lowered(ps) =~= ps) by {
        assert forall|i: int| 0 <= i < ps.len() implies lowered(ps)[i] == ps[i] by {
            assert(is_lower(ps[i]));
        }
    }
}

/// An ASCII string whose letters, lowercased, form a valid layout parses to
/// that layout, whatever other characters (spaces, punctuation, digits)
/// stand between them.
pub proof fn lemma_ascii_string_parses(s: Seq<char>, r: Result<Layout, String>)
    requires
        all_ascii(s),
        valid_positions(lowered(s.filter(|c: char| is_ascii_letter(c)))),
        from_string_outcome(s, r),
    ensures
        r matches Ok(l) && l.positions@ == lowered(s.filter(|c: char| is_ascii_letter(c))),
{
}

/// Everything a key press of `letter` at `position` involves.
pub struct KeyInfo {
    pub letter: char,
    pub position: usize,
    pub hand: Hand,
    pub finger: Finger,
    pub row: Row,
    /// Base cost of the key, in tenths of a unit.
    pub base_cost_tenths: u32,
}

/// `i` is the first position of `c` in `ps`.
pub open spec fn is_first_index(ps: Seq<char>, c: char, i: int) -> bool {
    &&& 0 <= i < ps.len()
    &&& ps[i] == c
    &&& forall|j: int| 0 <= j < i ==> ps[j] != c
}

/// What a position lookup of `letter` in `ps` yields: the first position of
/// its ASCII-lowercased form, provided that form is a lower-case letter.
pub open spec fn position_outcome(ps: Seq<char>, letter: char, r: Option<usize>) -> bool {
    let l = ascii_lower(letter);
    match r {
        Some(p) => is_lower(l) && is_first_index(ps, l, p as int),
        None => !is_lower(l) || !ps.contains(l),
    }
}

/// Swapping two entries keeps the multiset of entries.
pub proof fn lemma_swap_multiset(s: Seq<char>, i: int, j: int)
    requires
        0 <= i < s.len(),
        0 <= j < s.len(),
    ensures
        s.update(i, s[j]).update(j, s[i]).to_multiset() == s.to_multiset(),
{
    broadcast use {
        vstd::seq_lib::to_multiset_update,
        vstd::multiset::group_multiset_properties,
        vstd::seq_lib::to_multiset_contains,
    };
    let s1 = s.update(i, s[j]);
    if i == j {
        assert(s1 =~= s);
        assert(s1.update(j, s[i]) =~= s);
    } else {
        assert(s1[j] == s[j]);
        assert(s.contains(s[i]));
        assert(s.contains(s[j]));
        assert(s1.update(j, s[i]).to_multiset() =~= s.to_multiset());
    }
}

/// The entries after swapping positions `i` and `j`.
pub open spec fn swapped(s: Seq<char>, i: int, j: int) -> Seq<char> {
    s.update(i, s[j]).update(j, s[i])
}

/// The entries after applying the swaps of `sw` in order.
pub open spec fn apply_swaps(s: Seq<char>, sw: Seq<(int, int)>) -> Seq<char>
    decreases sw.len(),
{
    if sw.len() == 0 {
        s
    } else {
        swapped(apply_swaps(s, sw.drop_last()), sw.last().0, sw.last().1)
    }
}

/// Every swap of `sw` exchanges two distinct positions of the board.
pub open spec fn proper_swaps(sw: Seq<(int, int)>) -> bool {
    forall|k: int|
        0 <= k < sw.len() ==> 0 <= #[trigger] sw[k].0 < NUM_KEYS && 0 <= sw[k].1 < NUM_KEYS && sw[k].0 != sw[k].1
}

/// Swapping the same two positions twice gives back the layout.
pub proof fn lemma_swap_twice(s: Seq<char>, i: int, j: int)
    requires
        0 <= i < s.len(),
        0 <= j < s.len(),
    ensures
        swapped(swapped(s, i, j), i, j) == s,
{
    assert(swapped(swapped(s, i, j), i, j) =~= s);
}

/// Swapping two positions of a valid layout gives a valid layout.
pub proof fn lemma_swap_valid(s: Seq<char>, i: int, j: int)
    requires
        valid_positions(s),
        0 <= i < s.len(),
        0 <= j < s.len(),
    ensures
        valid_positions(swapped(s, i, j)),
{
    let t = swapped(s, i, j);
    let p = |k: int| if k == i { j } else if k == j { i } else { k };
    assert forall|k: int| 0 <= k < t.len() implies t[k] == s[p(k)] by {}
    assert forall|a: int, b: int| 0 <= a < t.len() && 0 <= b < t.len() && a != b implies t[a] != t[b] by {
        assert(t[a] == s[p(a)] && t[b] == s[p(b)]);
    }
    assert forall|k: int| 0 <= k < t.len() implies is_lower(#[trigger] t[k]) by {
        assert(t[k] == s[p(k)]);
    }
}

/// 26 distinct lower-case letters cover the whole alphabet.
pub proof fn lemma_valid_contains_every_letter(ps: Seq<char>)
    requires
        valid_positions(ps),
    ensures
        forall|k: int| 0 <= k < NUM_KEYS ==> #[trigger] ps.contains(letter(k)),
{
    let codes = ps.map_values(|c: char| letter_code(c));
    assert(codes.no_duplicates()) by {
        assert forall|i: int, j: int| 0 <= i < codes.len() && 0 <= j < codes.len() && i != j
            implies codes[i] != codes[j] by {
            assert(ps[i] != ps[j]);
            assert(is_lower(ps[i]) && is_lower(ps[j]));
        }
    }
    codes.unique_seq_to_set();
    let range = vstd::set_lib::set_int_range(0, NUM_KEYS as int);
    vstd::set_lib::lemma_int_range(0, NUM_KEYS as int);
    assert(codes.to_set().subset_of(range)) by {
        assert forall|x: int| codes.to_set().contains(x) implies range.contains(x) by {
            let i = choose|i: int| 0 <= i < codes.len() && codes[i] == x;
            assert(is_lower(ps[i]));
        }
    }
    vstd::set_lib::lemma_subset_equality(codes.to_set(), range);
    assert forall|k: int| 0 <= k < NUM_KEYS implies #[trigger] ps.contains(letter(k)) by {
        assert(range.contains(k));
        assert(codes.to_set().contains(k));
        let i = choose|i: int| 0 <= i < codes.len() && codes[i] == k;
        assert(is_lower(ps[i]));
        assert(ps[i] == letter(k));
    }
}

/// Draws a value with `rand::random::<usize>()` (the thread-local generator).
/// Nothing is promised about which value comes back.
#[verifier::external_body]
fn random_usize() -> usize {
    rand::random::<usize>()
}

impl Layout {
    /// The layout is valid: each letter `a..z` exactly once.
    pub open spec fn is_valid(&self) -> bool {
        valid_positions(self.positions@)
    }

    /// Letter `a + i` at position `i`.
    pub fn alphabetical() -> (l: Self)
        ensures
            forall|i: int| 0 <= i < NUM_KEYS ==> l.positions@[i] == letter(i),
            l.is_valid(),
    {
        let mut positions: [char; NUM_KEYS] = ['a'; NUM_KEYS];
        for i in 0..NUM_KEYS
            invariant
                forall|j: int| 0 <= j < i ==> positions@[j] == letter(j),
        {
            positions[i] = char_from_lower_code(i as u32);
        }
        let l = Layout { positions };
        assert forall|i: int, j: int| 0 <= i < NUM_KEYS && 0 <= j < NUM_KEYS && i != j
            implies l.positions@[i] != l.positions@[j] by {
            lemma_letter(i);
            lemma_letter(j);
        }
        assert forall|i: int| 0 <= i < NUM_KEYS implies is_lower(#[trigger] l.positions@[i]) by {
            lemma_letter(i);
        }
        l
    }

    /// Validates that every entry is a lower-case letter and that no letter
    /// repeats; reports the first offending position.
    pub fn validate(&self) -> (r: Result<(), String>)
        ensures
            validation_outcome(self.positions@, r),
    {
        let ghost ps = self.positions@;
        let mut seen: [bool; 26] = [false; 26];
        for i in 0..NUM_KEYS
            invariant
                ps == self.positions@,
                forall|k: int| 0 <= k < 26 ==> seen@[k] == ps.take(i as int).contains(letter(k)),
                forall|j: int| 0 <= j < i ==> !bad_at(ps, j),
        {
            let c = self.positions[i];
            if !char_is_lower(c) {
                assert(first_bad(ps, i as int));
                return Err(quoted_char_message("Non-lowercase letter found: '", c));
            }
            let idx: usize = (c as u32 - 97) as usize;
            assert(letter(idx as int) == c);
            if seen[idx] {
                assert(first_bad(ps, i as int));
                return Err(quoted_char_message("Duplicate letter found: '", c));
            }
            seen[idx] = true;
            assert(ps.take(i + 1) =~= ps.take(i as int).push(c));
            assert forall|k: int| 0 <= k < 26 implies seen@[k] == ps.take(i + 1).contains(letter(k)) by {
                lemma_letter(k);
                lemma_letter(idx as int);
                if k == idx {
                    assert(ps.take(i + 1)[i as int] == c);
                } else {
                    if ps.take(i + 1).contains(letter(k)) {
                        let t = choose|t: int| 0 <= t < i + 1 && #[trigger] ps.take(i + 1)[t] == letter(k);
                        if t == i {
                            assert(letter(k) == letter(idx as int));
                        } else {
                            assert(ps.take(i as int)[t] == letter(k));
                        }
                    }
                }
            }
        }
        assert(ps.take(NUM_KEYS as int) =~= ps);
        proof {
            assert forall|i: int| 0 <= i < ps.len() implies is_lower(#[trigger] ps[i]) by {
                assert(!bad_at(ps, i));
            }
            assert forall|i: int, j: int| 0 <= i < ps.len() && 0 <= j < ps.len() && i != j
                implies ps[i] != ps[j] by {
                if i < j {
                    assert(!bad_at(ps, j));
                    if ps[i] == ps[j] {
                        assert(ps.take(j)[i] == ps[j]);
                    }
                } else {
                    assert(!bad_at(ps, i));
                    if ps[i] == ps[j] {
                        assert(ps.take(i)[j] == ps[i]);
                    }
                }
            }
            lemma_valid_contains_every_letter(ps);
        }
        for k in 0..26
            invariant
                ps == self.positions@,
                valid_positions(ps),
                forall|k: int| 0 <= k < 26 ==> seen@[k] == ps.contains(letter(k)),
                forall|k: int| 0 <= k < NUM_KEYS ==> #[trigger] ps.contains(letter(k)),
        {
            if !seen[k] {
                assert(ps.contains(letter(k as int)));
                return Err(quoted_char_message("Missing letter: '", char_from_lower_code(k as u32)));
            }
        }
        Ok(())
    }

    /// Builds a layout from letters already picked out of a string: there
    /// must be exactly 26; each is ASCII-lowercased, then the result is
    /// validated.
    pub fn from_letters(letters: &[char]) -> (r: Result<Self, String>)
        ensures
            from_letters_outcome(letters@, r),
    {
        if letters.len() != NUM_KEYS {
            return Err(count_mismatch_message(NUM_KEYS, letters.len()));
        }
        let mut positions: [char; NUM_KEYS] = ['a'; NUM_KEYS];
        for i in 0..NUM_KEYS
            invariant
                letters@.len() == NUM_KEYS,
                forall|j: int| 0 <= j < i ==> positions@[j] == ascii_lower(letters@[j]),
        {
            positions[i] = char_ascii_lower(letters[i]);
        }
        let layout = Layout { positions };
        assert(layout.positions@ =~= lowered(letters@));
        match layout.validate() {
            Ok(()) => Ok(layout),
            Err(m) => Err(m),
        }
    }

    /// Builds a layout from a string: its alphabetic characters (by std's
    /// `char::is_alphabetic`) are taken in order, and must be 26 letters that
    /// form a valid layout once lowercased.
    pub fn from_string(s: &str) -> (r: Result<Self, String>)
        ensures
            from_string_outcome(s@, r),
    {
        let all = str_chars(s);
        let mut letters: Vec<char> = Vec::new();
        for i in 0..all.len()
            invariant
                all@ == s@,
                letters@ == all@.take(i as int).filter(|c: char| unicode_alphabetic(c)),
                all_ascii_letters(all@.take(i as int)) ==> letters@ == all@.take(i as int),
                all_ascii(all@.take(i as int)) ==> letters@ == all@.take(i as int).filter(
                    |c: char| is_ascii_letter(c),
                ),
        {
            let c = all[i];
            assert(all@.take(i + 1).drop_last() =~= all@.take(i as int));
            reveal_with_fuel(Seq::filter, 1);
            proof {
                if all_ascii_letters(all@.take(i + 1)) {
                    assert(all@.take(i + 1)[i as int] == c);
                    assert(all_ascii_letters(all@.take(i as int))) by {
                        assert forall|k: int| 0 <= k < i implies is_ascii_letter(#[trigger] all@.take(i as int)[k]) by {
                            assert(all@.take(i + 1)[k] == all@.take(i as int)[k]);
                        }
                    }
                }
            }
            proof {
                if all_ascii(all@.take(i + 1)) {
                    assert(all@.take(i + 1)[i as int] == c);
                    assert(all_ascii(all@.take(i as int))) by {
                        assert forall|k: int| 0 <= k < i implies is_ascii(#[trigger] all@.take(i as int)[k]) by {
                            assert(all@.take(i + 1)[k] == all@.take(i as int)[k]);
                        }
                    }
                }
            }
            if char_is_alphabetic(c) {
                letters.push(c);
            }
            assert(all_ascii_letters(all@.take(i + 1)) ==> letters@ =~= all@.take(i + 1));
            assert(all_ascii(all@.take(i + 1)) ==> letters@ =~= all@.take(i + 1).filter(|c: char| is_ascii_letter(c)));
        }
        assert(all@.take(all.len() as int) =~= all@);
        Self::from_letters(letters.as_slice())
    }

    /// Swaps the letters at positions `i` and `j`.
    pub fn swap(&mut self, i: usize, j: usize)
        requires
            i < NUM_KEYS,
            j < NUM_KEYS,
        ensures
            final(self).positions@ == swapped(old(self).positions@, i as int, j as int),
    {
        let a = self.positions[i];
        let b = self.positions[j];
        self.positions[i] = b;
        self.positions[j] = a;
    }

    /// Performs `times` random swaps of two distinct positions. The letters
    /// are only rearranged, so a valid layout stays valid.
    pub fn shuffle(&mut self, times: usize)
        ensures
            exists|sw: Seq<(int, int)>|
                sw.len() == times && proper_swaps(sw) && final(self).positions@ == apply_swaps(
                    old(self).positions@,
                    sw,
                ),
            final(self).positions@.to_multiset() == old(self).positions@.to_multiset(),
            old(self).is_valid() ==> final(self).is_valid(),
    {
        let ghost start = self.positions@;
        let ghost mut sws: Seq<(int, int)> = Seq::empty();
        for t in 0..times
            invariant
                sws.len() == t,
                proper_swaps(sws),
                self.positions@ == apply_swaps(start, sws),
                self.positions@.to_multiset() == start.to_multiset(),
                valid_positions(start) ==> valid_positions(self.positions@),
                self.positions@.len() == NUM_KEYS,
        {
            let i = random_usize() % NUM_KEYS;
            let mut j = random_usize() % (NUM_KEYS - 1);
            if j >= i {
                j += 1;
            }
            let ghost before = self.positions@;
            self.swap(i, j);
            proof {
                lemma_swap_multiset(before, i as int, j as int);
                if valid_positions(start) {
                    lemma_swap_valid(before, i as int, j as int);
                }
                let next = sws.push((i as int, j as int));
                assert(next.drop_last() =~= sws);
                sws = next;
            }
        }
    }

    /// The first position holding `letter` (ASCII-lowercased), or `None` when
    /// it is not a letter or not on the board.
    pub fn get_position(&self, letter: char) -> (r: Option<usize>)
        ensures
            position_outcome(self.positions@, letter, r),
    {
        let l = char_ascii_lower(letter);
        if !char_is_lower(l) {
            return None;
        }
        for i in 0..NUM_KEYS
            invariant
                l == ascii_lower(letter),
                is_lower(l),
                forall|j: int| 0 <= j < i ==> self.positions@[j] != l,
        {
            if self.positions[i] == l {
                return Some(i);
            }
        }
        None
    }

    /// The letter at `position`, or `None` past the last key.
    pub fn get_letter(&self, position: usize) -> (r: Option<char>)
        ensures
            r == (if position < NUM_KEYS { Some(self.positions@[position as int]) } else { None::<char> }),
    {
        if position < NUM_KEYS {
            Some(self.positions[position])
        } else {
            None
        }
    }

    /// The letters in position order, as a string.
    pub fn to_compact_string(&self) -> (s: String)
        ensures
            s@ == self.positions@,
    {
        string_from_chars(self.positions.as_slice())
    }

    /// The layout drawn as three rows of keys, the hands split by a bar.
    pub fn to_display_string(&self) -> (s: String)
        ensures
            s@ == display_chars(self.positions@),
    {
        let ps = &self.positions;
        let mut out: Vec<char> = Vec::new();
        push_spaces(&mut out, 4);
        push_cells(&mut out, ps, 2, 6);
        push_spaces(&mut out, 3);
        out.push('|');
        push_spaces(&mut out, 3);
        push_cells(&mut out, ps, 13, 17);
        out.push('\n');
        out.push(ps[0]);
        out.push(' ');
        out.push(ps[1]);
        out.push(' ');
        push_cells(&mut out, ps, 6, 10);
        push_spaces(&mut out, 3);
        out.push('|');
        push_spaces(&mut out, 3);
        push_cells(&mut out, ps, 17, 21);
        out.push(ps[24]);
        out.push(' ');
        out.push(ps[25]);
        out.push('\n');
        push_spaces(&mut out, 4);
        push_cells(&mut out, ps, 10, 13);
        push_spaces(&mut out, 5);
        out.push('|');
        push_spaces(&mut out, 5);
        push_cells(&mut out, ps, 21, 24);
        assert(out@ =~= display_chars(ps@));
        string_from_chars(out.as_slice())
    }

    /// Position and key data of `letter`, when it is on the board.
    pub fn get_key_info(&self, letter: char) -> (r: Option<KeyInfo>)
        ensures
            match r {
                Some(info) => {
                    &&& position_outcome(self.positions@, letter, Some(info.position))
                    &&& info.letter == letter
                    &&& info.hand == spec_key(info.position as int).hand
                    &&& info.finger == spec_key(info.position as int).finger
                    &&& info.row == spec_key(info.position as int).row
                    &&& info.base_cost_tenths == spec_key(info.position as int).base_cost_tenths
                },
                None => position_outcome(self.positions@, letter, None),
            },
    {
        match self.get_position(letter) {
            None => None,
            Some(position) => {
                let key = key_at(position);
                Some(
                    KeyInfo {
                        letter,
                        position,
                        hand: key.hand,
                        finger: key.finger,
                        row: key.row,
                        base_cost_tenths: key.base_cost_tenths,
                    },
                )
            },
        }
    }
}

} // verus!
