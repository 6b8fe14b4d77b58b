//! Hard constraints: layouts that break one are rejected outright, before any
//! scoring. The constraint kept here forbids typing certain words with one
//! hand only.
use vstd::prelude::*;
use crate::geometry::{Hand, NUM_KEYS, key_at, spec_key};
use crate::layout_26::{Layout, valid_positions, lemma_valid_contains_every_letter};
use crate::symmetry::{spec_mirror, mirror_index, lemma_mirror_index, lemma_mirror_valid};
use crate::text::{
    ascii_lower, char_ascii_lower, char_is_ascii_letter, is_ascii_letter, letter, letter_code,
    lemma_letter_code, str_chars,
};

verus! {

broadcast use vstd::array::group_array_axioms;

/// The letter code read from a character's low byte (`c as u8 - b'a'`);
/// for a lower-case letter this is its code.
pub open spec fn byte_code(c: char) -> int {
    ((c as u32) % 256) as int - 97
}

/// Every position reads as a letter code (0..26) from its low byte.
pub open spec fn codes_in_range(ps: Seq<char>) -> bool {
    forall|i: int| 0 <= i < ps.len() ==> 0 <= #[trigger] byte_code(ps[i]) < 26
}

/// The hand that types letter code `code` (0..26), looking at the first `n`
/// positions: that of the last of them whose letter reads as `code`, `Left`
/// when none does.
pub open spec fn letter_hand_upto(ps: Seq<char>, code: int, n: int) -> Hand
    decreases n,
{
    if n <= 0 {
        Hand::Left
    } else if byte_code(ps[n - 1]) == code {
        spec_key(n - 1).hand
    } else {
        letter_hand_upto(ps, code, n - 1)
    }
}

/// The hand that types letter code `code` under layout `ps`.
pub open spec fn letter_hand(ps: Seq<char>, code: int) -> Hand {
    letter_hand_upto(ps, code, NUM_KEYS as int)
}

/// The letter codes a word stands for: its ASCII letters, lowercased, in
/// order; everything else is dropped.
pub open spec fn word_codes(s: Seq<char>) -> Seq<u8> {
    s.filter(|c: char| is_ascii_letter(c)).map_values(|c: char| letter_code(ascii_lower(c)) as u8)
}

/// A word of at least two letters all typed by one hand.
pub open spec fn one_handed(ps: Seq<char>, codes: Seq<u8>) -> bool {
    &&& codes.len() >= 2
    &&& forall|k: int| 0 <= k < codes.len() ==> letter_hand(ps, #[trigger] codes[k] as int) == letter_hand(ps, codes[0] as int)
}

/// Under a layout with no repeated letter, the hand of a letter is that of
/// the one position holding it.
proof fn lemma_letter_hand_at(ps: Seq<char>, code: int, i: int, n: int)
    requires
        0 <= i < n <= ps.len(),
        byte_code(ps[i]) == code,
        forall|j: int| 0 <= j < ps.len() && j != i ==> byte_code(ps[j]) != code,
    ensures
        letter_hand_upto(ps, code, n) == spec_key(i).hand,
    decreases n,
{
    if n - 1 != i {
        lemma_letter_hand_at(ps, code, i, n - 1);
    }
}

/// A lower-case letter reads as its own code.
proof fn lemma_byte_code_of_lower(c: char)
    requires
        crate::text::is_lower(c),
    ensures
        byte_code(c) == letter_code(c),
        letter(byte_code(c)) == c,
{
    assert((c as u32) % 256 == c as u32);
}

/// In the mirror image of a valid layout every letter is typed by the other
/// hand.
proof fn lemma_mirror_letter_hand(ps: Seq<char>, code: int)
    requires
        valid_positions(ps),
        0 <= code < 26,
    ensures
        letter_hand(spec_mirror(ps), code) != letter_hand(ps, code),
{
    let m = spec_mirror(ps);
    lemma_valid_contains_every_letter(ps);
    lemma_mirror_valid(ps);
    assert(ps.contains(letter(code)));
    let i = choose|i: int| 0 <= i < ps.len() && ps[i] == letter(code);
    lemma_mirror_index(i);
    let mi = mirror_index(i);
    assert(m[mi] == ps[i]);
    assert forall|j: int| 0 <= j < ps.len() && j != i implies byte_code(ps[j]) != code by {
        lemma_byte_code_of_lower(ps[j]);
    }
    assert forall|j: int| 0 <= j < m.len() && j != mi implies byte_code(m[j]) != code by {
        lemma_byte_code_of_lower(m[j]);
    }
    lemma_byte_code_of_lower(ps[i]);
    lemma_letter_hand_at(ps, code, i, NUM_KEYS as int);
    lemma_letter_hand_at(m, code, mi, NUM_KEYS as int);
}

/// A word is typed with one hand under a valid layout exactly when it is
/// typed with one hand under the layout's mirror image.
pub proof fn lemma_mirror_one_handed(ps: Seq<char>, codes: Seq<u8>)
    requires
        valid_positions(ps),
        forall|k: int| 0 <= k < codes.len() ==> codes[k] < 26,
    ensures
        one_handed(spec_mirror(ps), codes) == one_handed(ps, codes),
{
    let m = spec_mirror(ps);
    if codes.len() >= 2 {
        assert forall|k: int| 0 <= k < codes.len() implies (letter_hand(m, #[trigger] codes[k] as int) == letter_hand(
            m,
            codes[0] as int,
        )) == (letter_hand(ps, codes[k] as int) == letter_hand(ps, codes[0] as int)) by {
            lemma_mirror_letter_hand(ps, codes[k] as int);
            lemma_mirror_letter_hand(ps, codes[0] as int);
        }
    }
}

/// A valid layout and its mirror image meet the same constraints.
pub proof fn lemma_mirror_meets_constraints(ps: Seq<char>, words: Seq<Seq<u8>>)
    requires
        valid_positions(ps),
        forall|w: int, k: int| 0 <= w < words.len() && 0 <= k < words[w].len() ==> words[w][k] < 26,
    ensures
        (forall|w: int| 0 <= w < words.len() ==> !one_handed(spec_mirror(ps), #[trigger] words[w])) == (forall|w: int|
            0 <= w < words.len() ==> !one_handed(ps, #[trigger] words[w])),
{
    assert forall|w: int| 0 <= w < words.len() implies one_handed(spec_mirror(ps), #[trigger] words[w]) == one_handed(
        ps,
        words[w],
    ) by {
        lemma_mirror_one_handed(ps, words[w]);
    }
}

/// Under a valid layout a letter is typed by the hand of the key holding it.
pub proof fn lemma_letter_hand_of_valid(ps: Seq<char>, code: int, i: int)
    requires
        valid_positions(ps),
        0 <= i < NUM_KEYS,
        ps[i] == letter(code),
        0 <= code < 26,
    ensures
        letter_hand(ps, code) == spec_key(i).hand,
{
    assert forall|j: int| 0 <= j < ps.len() && j != i implies byte_code(ps[j]) != code by {
        lemma_byte_code_of_lower(ps[j]);
    }
    lemma_byte_code_of_lower(ps[i]);
    lemma_letter_hand_at(ps, code, i, NUM_KEYS as int);
}

/// A word is one-handed exactly when it has at least two letters and one
/// hand types every one of them: two of its letters on different hands
/// make it two-handed, wherever in the word they stand.
pub proof fn lemma_one_handed_every_letter(ps: Seq<char>, codes: Seq<u8>)
    ensures
        (exists|i: int, j: int|
            0 <= i < codes.len() && 0 <= j < codes.len() && letter_hand(ps, #[trigger] codes[i] as int)
                != letter_hand(ps, #[trigger] codes[j] as int)) ==> !one_handed(ps, codes),
        codes.len() >= 2 && ((forall|k: int| 0 <= k < codes.len() ==> letter_hand(ps, #[trigger] codes[k] as int)
            == Hand::Left) || (forall|k: int| 0 <= k < codes.len() ==> letter_hand(ps, #[trigger] codes[k] as int)
            == Hand::Right)) ==> one_handed(ps, codes),
        codes.len() < 2 ==> !one_handed(ps, codes),
{
    if exists|i: int, j: int|
        0 <= i < codes.len() && 0 <= j < codes.len() && letter_hand(ps, #[trigger] codes[i] as int) != letter_hand(
            ps,
            #[trigger] codes[j] as int,
        ) {
        let (i, j) = choose|i: int, j: int|
            0 <= i < codes.len() && 0 <= j < codes.len() && letter_hand(ps, #[trigger] codes[i] as int)
                != letter_hand(ps, #[trigger] codes[j] as int);
        if one_handed(ps, codes) {
            assert(letter_hand(ps, codes[i] as int) == letter_hand(ps, codes[0] as int));
            assert(letter_hand(ps, codes[j] as int) == letter_hand(ps, codes[0] as int));
        }
    }
}

/// A layout meets a list of one-handed-word constraints exactly when every
/// listed word of two or more letters has some letter typed by another hand
/// than its first letter.
pub proof fn lemma_meets_constraints_iff(ps: Seq<char>, words: Seq<Seq<u8>>)
    ensures
        (forall|w: int| 0 <= w < words.len() ==> !one_handed(ps, #[trigger] words[w])) == (forall|w: int|
            0 <= w < words.len() ==> (#[trigger] words[w]).len() < 2 || exists|k: int|
                0 <= k < words[w].len() && letter_hand(ps, #[trigger] words[w][k] as int) != letter_hand(
                    ps,
                    words[w][0] as int,
                )),
{
    assert forall|w: int| 0 <= w < words.len() implies !one_handed(ps, #[trigger] words[w]) == ((words[w]).len() < 2
        || exists|k: int|
        0 <= k < words[w].len() && letter_hand(ps, #[trigger] words[w][k] as int) != letter_hand(
            ps,
            words[w][0] as int,
        )) by {
        let c = words[w];
        lemma_one_handed_every_letter(ps, c);
        if exists|k: int| 0 <= k < c.len() && letter_hand(ps, #[trigger] c[k] as int) != letter_hand(ps, c[0] as int) {
            let k = choose|k: int|
                0 <= k < c.len() && letter_hand(ps, #[trigger] c[k] as int) != letter_hand(ps, c[0] as int);
            assert(letter_hand(ps, c[k] as int) != letter_hand(ps, c[0] as int));
            assert(c.len() > 0);
        }
    }
}

/// The word codes kept from a list of words: those with at least two
/// letters, in order.
pub open spec fn kept_words(words: Seq<Seq<char>>) -> Seq<Seq<u8>> {
    words.map_values(|w: Seq<char>| word_codes(w)).filter(|c: Seq<u8>| c.len() >= 2)
}

/// A word, as the codes (0..26) of its letters.
#[derive(Debug)]
pub struct Word {
    codes: Vec<u8>,
}

/// The set of hard constraints a layout must meet.
#[derive(Clone)]
pub struct Constraints {
    forbid_same_hand_words: Vec<Word>,
}

impl Word {
    #[verifier::type_invariant]
    closed spec fn inv(&self) -> bool {
        forall|k: int| 0 <= k < self.codes@.len() ==> self.codes@[k] < 26
    }

    /// The letter codes of the word.
    pub closed spec fn view(&self) -> Seq<u8> {
        self.codes@
    }

    /// Parses a word: its ASCII letters are kept, lowercased, as codes 0..26;
    /// other characters are dropped. Words of fewer than two letters give
    /// `None`.
    pub fn from_str(s: &str) -> (r: Option<Word>)
        ensures
            match r {
                Some(w) => word_codes(s@).len() >= 2 && w.view() == word_codes(s@),
                None => word_codes(s@).len() < 2,
            },
    {
        let chars = str_chars(s);
        let mut codes: Vec<u8> = Vec::new();
        for i in 0..chars.len()
            invariant
                chars@ == s@,
                codes@ == word_codes(chars@.take(i as int)),
                forall|k: int| 0 <= k < codes@.len() ==> codes@[k] < 26,
        {
            let ch = chars[i];
            proof {
                let f = |c: char| is_ascii_letter(c);
                assert(chars@.take(i + 1).drop_last() =~= chars@.take(i as int));
                reveal_with_fuel(Seq::filter, 1);
                assert(chars@.take(i + 1).filter(f) == if f(ch) {
                    chars@.take(i as int).filter(f).push(ch)
                } else {
                    chars@.take(i as int).filter(f)
                });
            }
            if char_is_ascii_letter(ch) {
                let l = char_ascii_lower(ch);
                proof {
                    lemma_letter_code(l);
                }
                let b: u8 = (l as u32 - 97) as u8;
                codes.push(b);
                assert(codes@ =~= word_codes(chars@.take(i + 1)));
            } else {
                assert(codes@ =~= word_codes(chars@.take(i + 1)));
            }
        }
        assert(chars@.take(chars@.len() as int) =~= chars@);
        if codes.len() < 2 {
            return None;
        }
        Some(Word { codes })
    }

    /// The letter codes of the word.
    pub fn codes(&self) -> (r: &Vec<u8>)
        ensures
            r@ == self.view(),
    {
        &self.codes
    }
}

/// The hand of every letter under `layout`: entry `k` is the hand of the
/// position whose letter reads as `k` from its low byte (of the last such
/// position, should a letter repeat), `Left` for a letter that is not on the
/// board. Every position must read as a letter code.
pub fn compute_letter_hands(layout: &Layout) -> (hands: [Hand; 26])
    requires
        codes_in_range(layout.positions@),
    ensures
        forall|k: int| 0 <= k < 26 ==> #[trigger] hands@[k] == letter_hand(layout.positions@, k),
{
    let ghost ps = layout.positions@;
    let mut hands: [Hand; 26] = [Hand::Left; 26];
    for pos in 0..NUM_KEYS
        invariant
            ps == layout.positions@,
            codes_in_range(ps),
            forall|k: int| 0 <= k < 26 ==> #[trigger] hands@[k] == letter_hand_upto(ps, k, pos as int),
    {
        let l = layout.positions[pos];
        assert(0 <= byte_code(ps[pos as int]) < 26);
        let low: u32 = (l as u32) % 256;
        let idx: usize = (low - 97) as usize;
        hands[idx] = key_at(pos).hand;
        assert forall|k: int| 0 <= k < 26 implies #[trigger] hands@[k] == letter_hand_upto(ps, k, pos + 1) by {}
    }
    hands
}

impl Clone for Word {
    fn clone(&self) -> (r: Self)
        ensures
            r.view() == self.view(),
    {
        proof {
            use_type_invariant(self);
        }
        let codes = self.codes.clone();
        assert(codes@ =~= self.codes@);
        Word { codes }
    }
}

impl Constraints {
    /// The one-handed word constraints, as letter codes.
    pub closed spec fn view(&self) -> Seq<Seq<u8>> {
        self.forbid_same_hand_words@.map_values(|w: Word| w.view())
    }

    /// No constraints at all.
    pub fn new() -> (c: Self)
        ensures
            c.view() == Seq::<Seq<u8>>::empty(),
    {
        let c = Constraints { forbid_same_hand_words: Vec::new() };
        assert(c.view() =~= Seq::<Seq<u8>>::empty());
        c
    }

    /// Constraints that forbid typing any of `words` with one hand only.
    /// Words with fewer than two letters are ignored.
    pub fn with_forbid_same_hand_words(words: &[&str]) -> (c: Self)
        ensures
            c.view() == kept_words(words@.map_values(|w: &str| w@)),
    {
        let ghost ws = words@.map_values(|w: &str| w@);
        let mut v: Vec<Word> = Vec::new();
        for i in 0..words.len()
            invariant
                ws == words@.map_values(|w: &str| w@),
                v@.map_values(|w: Word| w.view()) == kept_words(ws.take(i as int)),
        {
            let ghost before = v@;
            proof {
                assert(ws.take(i + 1).drop_last() =~= ws.take(i as int));
                assert(ws.take(i + 1).map_values(|w: Seq<char>| word_codes(w)).drop_last() =~= ws.take(
                    i as int,
                ).map_values(|w: Seq<char>| word_codes(w)));
                reveal_with_fuel(Seq::filter, 1);
            }
            if let Some(parsed) = Word::from_str(words[i]) {
                v.push(parsed);
                assert(v@.map_values(|w: Word| w.view()) =~= before.map_values(|w: Word| w.view()).push(
                    word_codes(ws[i as int]),
                ));
            } else {
                assert(v@ == before);
            }
        }
        assert(ws.take(words@.len() as int) =~= ws);
        Constraints { forbid_same_hand_words: v }
    }

    /// Whether `layout` meets every constraint: no listed word of two or more
    /// letters has all its letters on one hand. When there is a constraint,
    /// every position must read as a letter code.
    pub fn check_layout(&self, layout: &Layout) -> (ok: bool)
        requires
            self.view().len() > 0 ==> codes_in_range(layout.positions@),
        ensures
            ok == forall|w: int| 0 <= w < self.view().len() ==> !one_handed(layout.positions@, #[trigger] self.view()[w]),
    {
        let ghost ps = layout.positions@;
        if self.forbid_same_hand_words.len() == 0 {
            return true;
        }
        let hands = compute_letter_hands(layout);
        for wi in 0..self.forbid_same_hand_words.len()
            invariant
                ps == layout.positions@,
                forall|k: int| 0 <= k < 26 ==> #[trigger] hands@[k] == letter_hand(ps, k),
                forall|w: int| 0 <= w < wi ==> !one_handed(ps, #[trigger] self.view()[w]),
        {
            let w = &self.forbid_same_hand_words[wi];
            proof {
                use_type_invariant(w);
            }
            assert(self.view()[wi as int] == w.view());
            if w.codes.len() >= 2 {
                let first = hands[w.codes[0] as usize];
                let mut all_same = true;
                for k in 1..w.codes.len()
                    invariant
                        forall|k: int| 0 <= k < w.codes@.len() ==> w.codes@[k] < 26,
                        forall|k: int| 0 <= k < 26 ==> #[trigger] hands@[k] == letter_hand(ps, k),
                        first == letter_hand(ps, w.codes@[0] as int),
                        all_same == forall|j: int| 1 <= j < k ==> letter_hand(ps, #[trigger] w.codes@[j] as int) == first,
                {
                    if hands[w.codes[k] as usize] != first {
                        all_same = false;
                    }
                }
                if all_same {
                    assert(one_handed(ps, w.view()));
                    return false;
                }
            }
        }
        true
    }
}

impl Default for Constraints {
    /// No constraints at all.
    fn default() -> (c: Self)
        ensures
            c.view() == Seq::<Seq<u8>>::empty(),
    {
        Constraints::new()
    }
}

} // verus!
