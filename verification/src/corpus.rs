//! Corpus normalisation and the counts taken from it: quartads (4-grams of
//! consecutive letters), single letters, and the number of letters.
use vstd::prelude::*;
use std::collections::HashMap;
use crate::text::{ascii_lower, char_ascii_lower, char_is_ascii_letter, is_ascii_letter, letter_code};

verus! {

broadcast use vstd::std_specs::hash::group_hash_axioms;

/// The code that stands for any character that is not an ASCII letter.
pub const BREAK_MARKER: u8 = 255;

/// The code of one character: 0..26 for an ASCII letter (either case),
/// `BREAK_MARKER` for anything else.
pub open spec fn normalize_char(c: char) -> u8 {
    if is_ascii_letter(c) {
        letter_code(ascii_lower(c)) as u8
    } else {
        BREAK_MARKER
    }
}

/// The normalised form of a text: the code of each character.
pub open spec fn normalized(s: Seq<char>) -> Seq<u8> {
    s.map_values(|c: char| normalize_char(c))
}

/// A quartad as four consecutive bytes.
pub open spec fn window(s: Seq<u8>, end: int) -> [u8; 4] {
    choose|q: [u8; 4]| q@ == s.subrange(end - 4, end)
}

/// The four bytes that end at `end` (exclusive) lie inside `s` and contain no
/// break marker.
pub open spec fn window_ok(s: Seq<u8>, end: int) -> bool {
    &&& 4 <= end <= s.len()
    &&& forall|k: int| end - 4 <= k < end ==> s[k] != BREAK_MARKER
}

/// How many times `q` occurs as four consecutive non-break bytes among the
/// first `n` bytes of `s`.
pub open spec fn quartad_count_upto(s: Seq<u8>, q: [u8; 4], n: int) -> nat
    decreases n,
{
    if n < 4 || n > s.len() {
        0
    } else {
        quartad_count_upto(s, q, n - 1) + if window_ok(s, n) && s.subrange(n - 4, n) == q@ {
            1nat
        } else {
            0nat
        }
    }
}

/// How many times `q` occurs as four consecutive non-break bytes of `s`.
pub open spec fn quartad_count(s: Seq<u8>, q: [u8; 4]) -> nat {
    quartad_count_upto(s, q, s.len() as int)
}

/// Number of bytes of `s` equal to `b`.
pub open spec fn byte_count(s: Seq<u8>, b: u8) -> nat {
    s.filter(|x: u8| x == b).len()
}

/// Number of bytes of `s` that are not break markers.
pub open spec fn letter_total(s: Seq<u8>) -> nat {
    s.filter(|x: u8| x != BREAK_MARKER).len()
}

/// Total of the counts of the letter codes below `j`.
pub open spec fn code_counts_upto(s: Seq<u8>, j: int) -> nat
    decreases j,
{
    if j <= 0 {
        0
    } else {
        code_counts_upto(s, j - 1) + byte_count(s, (j - 1) as u8)
    }
}

/// One more byte adds one to the total of the codes below `j` exactly when
/// it is such a code.
proof fn lemma_code_counts_push(s: Seq<u8>, b: u8, j: int)
    requires
        0 <= j <= 256,
    ensures
        code_counts_upto(s.push(b), j) == code_counts_upto(s, j) + if b < j { 1nat } else { 0nat },
    decreases j,
{
    if j > 0 {
        lemma_code_counts_push(s, b, j - 1);
        reveal_with_fuel(Seq::filter, 1);
        assert(s.push(b).drop_last() =~= s);
    }
}

/// Every letter of a normalised text is counted once among the letter
/// counts: the 26 counts add up to the number of letters.
pub proof fn lemma_letter_counts_total(s: Seq<u8>)
    requires
        forall|i: int| 0 <= i < s.len() ==> s[i] < 26 || s[i] == BREAK_MARKER,
    ensures
        code_counts_upto(s, 26) == letter_total(s),
    decreases s.len(),
{
    if s.len() == 0 {
        assert(s.filter(|x: u8| x != BREAK_MARKER) =~= Seq::<u8>::empty());
        assert forall|j: int| 0 <= j <= 26 implies #[trigger] code_counts_upto(s, j) == 0 by {
            lemma_code_counts_empty(s, j);
        }
    } else {
        let t = s.drop_last();
        let b = s.last();
        assert(t.push(b) =~= s);
        lemma_letter_counts_total(t);
        lemma_code_counts_push(t, b, 26);
        reveal_with_fuel(Seq::filter, 1);
        assert(s.drop_last() =~= t);
    }
}

/// The counts of an empty text are all zero.
proof fn lemma_code_counts_empty(s: Seq<u8>, j: int)
    requires
        s.len() == 0,
        0 <= j,
    ensures
        code_counts_upto(s, j) == 0,
    decreases j,
{
    if j > 0 {
        lemma_code_counts_empty(s, j - 1);
        assert(s.filter(|x: u8| x == (j - 1) as u8) =~= Seq::<u8>::empty());
    }
}

/// `q1` occurs as a quartad of `s` before `q2` first does: some prefix of
/// `s` holds `q1` but not `q2`.
pub open spec fn first_before(s: Seq<u8>, q1: [u8; 4], q2: [u8; 4]) -> bool {
    exists|n: int| quartad_count_upto(s, q1, n) > 0 && quartad_count_upto(s, q2, n) == 0
}

/// Key under which a quartad is stored: its four bytes read big-endian, so
/// the order of keys is the lexicographic order of quartads.
pub open spec fn quartad_code(q: [u8; 4]) -> u32 {
    (q@[0] as int * 16777216 + q@[1] as int * 65536 + q@[2] as int * 256 + q@[3] as int) as u32
}

/// Distinct quartads have distinct keys.
pub proof fn lemma_quartad_code_injective(a: [u8; 4], b: [u8; 4])
    requires
        quartad_code(a) == quartad_code(b),
    ensures
        a == b,
{
    broadcast use vstd::array::group_array_axioms;
    assert(a@[0] == b@[0] && a@[1] == b@[1] && a@[2] == b@[2] && a@[3] == b@[3]);
    assert(a@ =~= b@);
}

fn code_of(q: &[u8; 4]) -> (c: u32)
    ensures
        c == quartad_code(*q),
{
    (q[0] as u32) * 16777216 + (q[1] as u32) * 65536 + (q[2] as u32) * 256 + (q[3] as u32)
}

/// Counts of the quartads of a text, each distinct quartad once, in the order
/// in which they first occur.
pub struct QuartadCounts {
    index: HashMap<u32, usize>,
    items: Vec<([u8; 4], usize)>,
}

/// The index maps the key of each entry to the entry's position, and nothing
/// else.
pub open spec fn index_matches(index: Map<u32, usize>, items: Seq<([u8; 4], usize)>) -> bool {
    &&& forall|i: int|
        #![trigger items[i]]
        0 <= i < items.len() ==> {
            &&& index.contains_key(quartad_code(items[i].0))
            &&& index[quartad_code(items[i].0)] == i
        }
    &&& forall|c: u32|
        #[trigger] index.contains_key(c) ==> {
            &&& index[c] < items.len()
            &&& quartad_code(items[index[c] as int].0) == c
        }
}

impl QuartadCounts {
    #[verifier::type_invariant]
    closed spec fn inv(&self) -> bool {
        index_matches(self.index@, self.items@)
    }

    /// The entries, in order of first occurrence.
    pub closed spec fn entries_seq(&self) -> Seq<([u8; 4], usize)> {
        self.items@
    }

    /// The counted quartads, each with its count.
    pub closed spec fn view(&self) -> Map<[u8; 4], usize> {
        Map::new(
            |q: [u8; 4]| exists|i: int| 0 <= i < self.items@.len() && #[trigger] self.items@[i].0 == q,
            |q: [u8; 4]|
                self.items@[choose|i: int| 0 <= i < self.items@.len() && #[trigger] self.items@[i].0 == q].1,
        )
    }

    proof fn lemma_view_entry(&self, i: int)
        requires
            self.inv(),
            0 <= i < self.items@.len(),
        ensures
            self.view().contains_key(self.items@[i].0),
            self.view()[self.items@[i].0] == self.items@[i].1,
    {
        let q = self.items@[i].0;
        let j = choose|j: int| 0 <= j < self.items@.len() && #[trigger] self.items@[j].0 == q;
        assert(self.index@[quartad_code(self.items@[j].0)] == j);
    }

    /// The stored entries: each key of the map once, with its count.
    pub fn entries(&self) -> (r: &Vec<([u8; 4], usize)>)
        ensures
            r@ == self.entries_seq(),
            forall|i: int| 0 <= i < r@.len() ==> #[trigger] self.view().contains_key(r@[i].0)
                && self.view()[r@[i].0] == r@[i].1,
            forall|q: [u8; 4]| #[trigger] self.view().contains_key(q) ==> exists|i: int| 0 <= i < r@.len() && r@[i].0 == q,
            forall|i: int, j: int| 0 <= i < r@.len() && 0 <= j < r@.len() && i != j ==> r@[i].0 != r@[j].0,
    {
        proof {
            use_type_invariant(self);
            assert forall|i: int| 0 <= i < self.items@.len() implies #[trigger] self.view().contains_key(self.items@[i].0)
                && self.view()[self.items@[i].0] == self.items@[i].1 by {
                self.lemma_view_entry(i);
            }
            assert forall|i: int, j: int| 0 <= i < self.items@.len() && 0 <= j < self.items@.len() && i != j
                implies self.items@[i].0 != self.items@[j].0 by {
                assert(self.index@[quartad_code(self.items@[i].0)] == i);
                assert(self.index@[quartad_code(self.items@[j].0)] == j);
            }
        }
        &self.items
    }

    /// Number of distinct quartads.
    pub fn len(&self) -> (n: usize)
        ensures
            n == self.entries_seq().len(),
    {
        self.items.len()
    }

    /// The count of quartad `q`, if it occurred.
    pub fn get(&self, q: &[u8; 4]) -> (r: Option<&usize>)
        ensures
            match r {
                Some(n) => self.view().contains_key(*q) && self.view()[*q] == *n,
                None => !self.view().contains_key(*q),
            },
    {
        proof {
            use_type_invariant(self);
        }
        let code = code_of(q);
        match self.index.get(&code) {
            Some(pos) => {
                let pos = *pos;
                proof {
                    lemma_quartad_code_injective(self.items@[pos as int].0, *q);
                    self.lemma_view_entry(pos as int);
                }
                Some(&self.items[pos].1)
            },
            None => {
                proof {
                    if self.view().contains_key(*q) {
                        let i = choose|i: int| 0 <= i < self.items@.len() && #[trigger] self.items@[i].0 == *q;
                        assert(self.index@.contains_key(quartad_code(self.items@[i].0)));
                    }
                }
                None
            },
        }
    }
}

/// Counts the quartads of a normalised text: every run of four consecutive
/// bytes none of which is a break marker.
pub fn quartads(normalized: &[u8]) -> (r: QuartadCounts)
    ensures
        forall|q: [u8; 4]|
            #![trigger r.view().contains_key(q)]
            (r.view().contains_key(q) <==> quartad_count(normalized@, q) > 0)
            && (r.view().contains_key(q) ==> r.view()[q] == quartad_count(normalized@, q)),
        forall|a: int, b: int|
            0 <= a < b < r.entries_seq().len() ==> first_before(
                normalized@,
                #[trigger] r.entries_seq()[a].0,
                #[trigger] r.entries_seq()[b].0,
            ),
{
    broadcast use vstd::array::group_array_axioms;
    let ghost s = normalized@;
    let mut index: HashMap<u32, usize> = HashMap::new();
    let mut items: Vec<([u8; 4], usize)> = Vec::new();
    let mut run: usize = 0;
    let mut i: usize = 0;
    while i < normalized.len()
        invariant
            s == normalized@,
            i <= s.len(),
            index_matches(index@, items@),
            run <= 4,
            run <= i,
            forall|k: int| i - run <= k < i ==> s[k] != BREAK_MARKER,
            run < 4 ==> (run == i || s[i - run - 1] == BREAK_MARKER),
            forall|j: int|
                #![trigger items@[j]]
                0 <= j < items@.len() ==> items@[j].1 == quartad_count_upto(s, items@[j].0, i as int)
                    && items@[j].1 > 0 && items@[j].1 <= i,
            forall|q: [u8; 4]|
                #![trigger quartad_count_upto(s, q, i as int)]
                quartad_count_upto(s, q, i as int) > 0 ==> exists|j: int|
                    0 <= j < items@.len() && items@[j].0 == q,
            forall|a: int, b: int|
                0 <= a < b < items@.len() ==> first_before(s, #[trigger] items@[a].0, #[trigger] items@[b].0),
        decreases s.len() - i,
    {
        let b = normalized[i];
        if b == BREAK_MARKER {
            run = 0;
            assert(!window_ok(s, i + 1));
            assert forall|q: [u8; 4]| #[trigger] quartad_count_upto(s, q, i + 1) == quartad_count_upto(s, q, i as int) by {}
            assert forall|j: int| #![trigger items@[j]] 0 <= j < items@.len() implies items@[j].1
                == quartad_count_upto(s, items@[j].0, i + 1) by {
                assert(quartad_count_upto(s, items@[j].0, i + 1) == quartad_count_upto(s, items@[j].0, i as int));
            }
        } else {
            if run < 4 {
                run += 1;
            }
            if run == 4 {
                let q: [u8; 4] = [normalized[i - 3], normalized[i - 2], normalized[i - 1], b];
                assert(q@ =~= s.subrange(i - 3, i + 1));
                assert(window_ok(s, i + 1));
                let code = code_of(&q);
                let ghost old_items = items@;
                let ghost wit: int;
                proof {
                    assert forall|q2: [u8; 4]| #[trigger] quartad_count_upto(s, q2, i + 1)
                        == quartad_count_upto(s, q2, i as int) + if q2 == q { 1nat } else { 0nat } by {
                        if q2 != q {
                            assert(q2@ != q@) by {
                                if q2@ == q@ {
                                    assert(q2 =~= q);
                                }
                            }
                        }
                    }
                }
                match index.get(&code) {
                    Some(pos) => {
                        let pos = *pos;
                        let (qq, c) = items[pos];
                        proof {
                            lemma_quartad_code_injective(qq, q);
                            wit = pos as int;
                            assert forall|j: int| 0 <= j < old_items.len() && j != pos implies old_items[j].0 != q by {
                                assert(index@[quartad_code(old_items[j].0)] == j);
                            }
                        }
                        items.set(pos, (qq, c + 1));
                        assert(forall|j: int| 0 <= j < old_items.len() ==> items@[j].0 == old_items[j].0);
                        assert forall|a: int, b: int| 0 <= a < b < items@.len() implies first_before(
                            s,
                            #[trigger] items@[a].0,
                            #[trigger] items@[b].0,
                        ) by {
                            assert(first_before(s, old_items[a].0, old_items[b].0));
                        }
                        assert(forall|j: int| 0 <= j < old_items.len() && j != pos ==> items@[j] == old_items[j]);
                    },
                    None => {
                        proof {
                            assert forall|j: int| 0 <= j < old_items.len() implies old_items[j].0 != q by {
                                assert(index@.contains_key(quartad_code(old_items[j].0)));
                            }
                            assert(quartad_count_upto(s, q, i as int) == 0);
                            wit = old_items.len() as int;
                        }
                        index.insert(code, items.len());
                        items.push((q, 1));
                        assert(forall|j: int| 0 <= j < old_items.len() ==> items@[j] == old_items[j]);
                        assert forall|a: int, b: int| 0 <= a < b < items@.len() implies first_before(
                            s,
                            #[trigger] items@[a].0,
                            #[trigger] items@[b].0,
                        ) by {
                            if b == old_items.len() {
                                assert(quartad_count_upto(s, old_items[a].0, i as int) > 0);
                                assert(quartad_count_upto(s, q, i as int) == 0);
                            } else {
                                assert(first_before(s, old_items[a].0, old_items[b].0));
                            }
                        }
                        proof {
                            assert forall|c: u32| #[trigger] index@.contains_key(c) implies index@[c] < items@.len()
                                && quartad_code(items@[index@[c] as int].0) == c by {
                                if c != code {
                                    assert(old_items[index@[c] as int] == items@[index@[c] as int]);
                                }
                            }
                            assert forall|j: int| 0 <= j < items@.len() implies #[trigger] index@.contains_key(
                                quartad_code(items@[j].0),
                            ) by {
                                if j < old_items.len() {
                                    assert(old_items[j] == items@[j]);
                                }
                            }
                        }
                    },
                }
                assert(items@[wit].0 == q);
                assert forall|q2: [u8; 4]| #![trigger quartad_count_upto(s, q2, i + 1)] quartad_count_upto(s, q2, i + 1) > 0 implies exists|j: int|
                    0 <= j < items@.len() && items@[j].0 == q2 by {
                    if q2 == q {
                        assert(items@[wit].0 == q2);
                    } else {
                        assert(quartad_count_upto(s, q2, i as int) > 0);
                        let j = choose|j: int| 0 <= j < old_items.len() && old_items[j].0 == q2;
                        assert(items@[j].0 == q2);
                    }
                }
                assert forall|j: int| #![trigger items@[j]] 0 <= j < items@.len() implies items@[j].1
                    == quartad_count_upto(s, items@[j].0, i + 1) && items@[j].1 > 0 && items@[j].1 <= i + 1 by {
                    if j != wit {
                        assert(items@[j] == old_items[j]);
                        assert(quartad_count_upto(s, items@[j].0, i + 1) == quartad_count_upto(s, items@[j].0, i as int));
                    }
                }
            } else {
                assert(!window_ok(s, i + 1)) by {
                    if i + 1 >= 4 {
                        assert(s[i - run] == BREAK_MARKER);
                    }
                }
                assert forall|q: [u8; 4]| #[trigger] quartad_count_upto(s, q, i + 1) == quartad_count_upto(s, q, i as int) by {}
                assert forall|j: int| #![trigger items@[j]] 0 <= j < items@.len() implies items@[j].1
                    == quartad_count_upto(s, items@[j].0, i + 1) by {
                    assert(quartad_count_upto(s, items@[j].0, i + 1) == quartad_count_upto(s, items@[j].0, i as int));
                }
            }
        }
        i += 1;
    }
    let ghost final_items = items@;
    let r = QuartadCounts { index, items };
    proof {
        assert forall|q: [u8; 4]|
            #![trigger r.view().contains_key(q)]
            (r.view().contains_key(q) <==> quartad_count(normalized@, q) > 0)
            && (r.view().contains_key(q) ==> r.view()[q] == quartad_count(normalized@, q)) by {
            if r.view().contains_key(q) {
                let j = choose|j: int| 0 <= j < r.items@.len() && #[trigger] r.items@[j].0 == q;
                assert(r.items@[j] == r.items@[j]);
            }
            if quartad_count(normalized@, q) > 0 {
                assert(quartad_count_upto(s, q, s.len() as int) > 0);
                let j = choose|j: int| 0 <= j < final_items.len() && final_items[j].0 == q;
                assert(final_items[j].0 == q);
                assert(r.items@[j].0 == q);
            }
        }
    }
    r
}

/// How many times each letter code occurs in a normalised text.
pub fn monograms(normalized: &[u8]) -> (counts: [usize; 26])
    requires
        forall|i: int| 0 <= i < normalized@.len() ==> normalized@[i] < 26 || normalized@[i] == BREAK_MARKER,
    ensures
        forall|k: int| 0 <= k < 26 ==> counts@[k] == byte_count(normalized@, k as u8),
{
    broadcast use vstd::array::group_array_axioms;
    let ghost s = normalized@;
    let mut counts: [usize; 26] = [0; 26];
    for i in 0..normalized.len()
        invariant
            s == normalized@,
            forall|i: int| 0 <= i < s.len() ==> s[i] < 26 || s[i] == BREAK_MARKER,
            forall|k: int| 0 <= k < 26 ==> counts@[k] == byte_count(s.take(i as int), k as u8),
            forall|k: int| 0 <= k < 26 ==> counts@[k] <= i,
    {
        let b = normalized[i];
        proof {
            assert(s.take(i + 1).drop_last() =~= s.take(i as int));
            reveal_with_fuel(Seq::filter, 1);
            assert forall|k: int| 0 <= k < 26 implies #[trigger] byte_count(s.take(i + 1), k as u8) == byte_count(
                s.take(i as int),
                k as u8,
            ) + if b == k as u8 { 1nat } else { 0nat } by {
                reveal_with_fuel(Seq::filter, 1);
                assert(s.take(i + 1).last() == b);
            }
        }
        if b != BREAK_MARKER {
            counts[b as usize] += 1;
        }
    }
    assert(s.take(s.len() as int) =~= s);
    counts
}

/// Number of letters (bytes that are not break markers) in a normalised
/// text.
pub fn letter_count(normalized: &[u8]) -> (n: usize)
    ensures
        n == letter_total(normalized@),
{
    let ghost s = normalized@;
    let mut n: usize = 0;
    for i in 0..normalized.len()
        invariant
            s == normalized@,
            n == letter_total(s.take(i as int)),
            n <= i,
    {
        proof {
            assert(s.take(i + 1).drop_last() =~= s.take(i as int));
            reveal_with_fuel(Seq::filter, 1);
            assert(s.take(i + 1).last() == normalized@[i as int]);
        }
        if normalized[i] != BREAK_MARKER {
            n += 1;
        }
    }
    assert(s.take(s.len() as int) =~= s);
    n
}

/// Normalises a text: each ASCII letter becomes its code 0..26 (either case),
/// every other character becomes `BREAK_MARKER`.
pub fn normalize(s: &str) -> (r: Vec<u8>)
    ensures
        r@ == normalized(s@),
{
    let mut result: Vec<u8> = Vec::new();
    for c in it: s.chars()
        invariant
            it.seq() == s@,
            result@ == it.seq().take(it.index()).map_values(|c: char| normalize_char(c)),
    {
        let ghost before = result@;
        if char_is_ascii_letter(c) {
            let l = char_ascii_lower(c);
            let code: u8 = (l as u32 - 97) as u8;
            result.push(code);
        } else {
            result.push(BREAK_MARKER);
        }
        assert(it.seq().take(it.index() + 1) =~= it.seq().take(it.index()).push(c));
        assert(result@ =~= it.seq().take(it.index() + 1).map_values(|c: char| normalize_char(c)));
    }
    assert(s@.take(s@.len() as int) =~= s@);
    result
}

/// Every code of a normalised text is a letter code or a break marker.
pub proof fn lemma_normalized_codes(s: Seq<char>)
    ensures
        forall|i: int| 0 <= i < s.len() ==> #[trigger] normalized(s)[i] < 26 || normalized(s)[i] == BREAK_MARKER,
{
    assert forall|i: int| 0 <= i < s.len() implies #[trigger] normalized(s)[i] < 26 || normalized(s)[i]
        == BREAK_MARKER by {
        let c = s[i];
        if is_ascii_letter(c) {
            crate::text::lemma_letter_code(ascii_lower(c));
        }
    }
}

/// The statistics the optimiser takes from a corpus.
pub struct CorpusStats {
    /// Quartad counts.
    pub quartads: QuartadCounts,
    /// Count of each letter.
    pub monograms: [usize; 26],
    /// Number of letters.
    pub letters_len: usize,
}

impl CorpusStats {
    /// Normalises `corpus` and counts its quartads, its letters one by one,
    /// and its letters in all.
    pub fn from_corpus(corpus: &str) -> (r: Self)
        ensures
            ({
                let n = normalized(corpus@);
                &&& forall|q: [u8; 4]|
                    #![trigger r.quartads.view().contains_key(q)]
                    (r.quartads.view().contains_key(q) <==> quartad_count(n, q) > 0) && (
                    r.quartads.view().contains_key(q) ==> r.quartads.view()[q] == quartad_count(n, q))
                &&& forall|k: int| 0 <= k < 26 ==> r.monograms@[k] == byte_count(n, k as u8)
                &&& r.letters_len == letter_total(n)
            }),
    {
        let normalized = normalize(corpus);
        proof {
            lemma_normalized_codes(corpus@);
        }
        let quartads = quartads(normalized.as_slice());
        let monograms = monograms(normalized.as_slice());
        let letters_len = letter_count(normalized.as_slice());
        CorpusStats { quartads, monograms, letters_len }
    }
}

} // verus!
