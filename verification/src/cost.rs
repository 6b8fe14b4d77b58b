//! The discrete side of the penalty model. For each quartad typed on a
//! layout this module finds which penalty events occur (same-finger bigrams,
//! rolls, twists, sandwiches, ...) and the squared key distances they depend
//! on; the weights that turn these events into a penalty are real numbers
//! and are applied by the caller.
//!
//! Distances are measured in half key widths, so that squared distances are
//! whole numbers: two columns apart is 4 (2 * 2), an index-finger move between
//! adjacent columns is 1, adjacent rows are 3 apart and top to bottom is 6.
use vstd::prelude::*;
use crate::geometry::{Finger, Hand, Key, NUM_KEYS, Row, key_at, spec_key};
use crate::layout_26::{Layout, is_first_index, valid_positions};
use crate::symmetry::{lemma_mirror_index, mirror_index, spec_mirror};
use crate::text::{ascii_lower, char_from_lower_code, letter};
use crate::corpus::{BREAK_MARKER, byte_count, code_counts_upto, letter_total, lemma_letter_counts_total};

verus! {

broadcast use vstd::array::group_array_axioms;

/// Moving from finger `prev` to finger `curr` of `hand` rolls outward:
/// pinky towards index on the left hand, index towards pinky on the right.
pub open spec fn spec_is_roll_out(hand: Hand, curr: Finger, prev: Finger) -> bool {
    match hand {
        Hand::Left => finger_rank(prev) < finger_rank(curr),
        Hand::Right => finger_rank(prev) > finger_rank(curr),
    }
}

/// Rolling inward is rolling outward the other way round.
pub open spec fn spec_is_roll_in(hand: Hand, curr: Finger, prev: Finger) -> bool {
    spec_is_roll_out(hand, prev, curr)
}

/// Fingers numbered from the pinky (0) to the index finger (3).
pub open spec fn finger_rank(f: Finger) -> int {
    match f {
        Finger::Pinky => 0,
        Finger::Ring => 1,
        Finger::Middle => 2,
        Finger::Index => 3,
    }
}

/// Vertical distance between two rows, in half key widths.
pub open spec fn row_gap(a: Row, b: Row) -> int {
    match (a, b) {
        (Row::Top, Row::Top) | (Row::Home, Row::Home) | (Row::Bottom, Row::Bottom) => 0,
        (Row::Top, Row::Bottom) | (Row::Bottom, Row::Top) => 6,
        _ => 3,
    }
}

/// Squared distance between two keys, in quarter units (half key widths,
/// squared). Keys on different hands are at distance 0. Columns are a full
/// key width apart, except between two index-finger keys, where they count
/// half.
pub open spec fn key_distance_sq(k1: Key, k2: Key) -> int {
    if k1.hand != k2.hand {
        0
    } else {
        let dc = if k1.column >= k2.column { k1.column - k2.column } else { k2.column - k1.column };
        let col = if k1.finger == Finger::Index && k2.finger == Finger::Index { dc } else { 2 * dc };
        let row = row_gap(k1.row, k2.row);
        col * col + row * row
    }
}

/// The penalty events of one bigram (a key press followed by the next).
#[derive(Clone, Copy, Debug, PartialEq, Eq, Structural)]
pub struct BigramFeatures {
    /// Same finger of the same hand, different keys.
    pub same_finger: bool,
    /// Both keys on the same hand.
    pub same_hand: bool,
    /// The keys are on different hands.
    pub alt_hand: bool,
    /// Squared distance between the keys (see the module comment).
    pub distance_sq: u32,
    /// The distance exceeds a diagonal step (1.8 key widths, i.e. squared
    /// distance at least 13).
    pub beyond_diagonal: bool,
    /// A pinky/ring twist between the top row and another row.
    pub pinky_ring_twist: bool,
    /// Outward roll within one row.
    pub roll_out: bool,
    /// Inward roll within one row.
    pub roll_in: bool,
    /// A roll between different fingers whose keys are too far apart to be
    /// smooth (at least 1.85 key widths, i.e. squared distance at least 14).
    pub broken_roll: bool,
}

/// The penalty events of a trigram (three consecutive key presses).
#[derive(Clone, Copy, Debug, PartialEq, Eq, Structural)]
pub struct TrigramFeatures {
    /// Middle-pinky-ring or ring-pinky-middle on one hand (in typing order
    /// ring, pinky, middle or middle, pinky, ring).
    pub roll_reversal: bool,
    /// A row-crossing roll (bottom, home, top or top, home, bottom) that
    /// keeps one direction, all on one hand.
    pub twist: bool,
    /// Squared distance between the first and third key.
    pub sandwich_distance_sq: u32,
    /// First and third key on the same hand and more than two key widths
    /// apart (squared distance above 16).
    pub sandwich: bool,
}

/// Everything the penalty model needs to know about one quartad on a layout.
#[derive(Clone, Copy, Debug)]
pub struct QuartadFeatures {
    /// Where the four letters are typed.
    pub positions: [usize; 4],
    /// Base cost of each of the four keys, in tenths.
    pub base_tenths: [u32; 4],
    /// The three bigrams, in typing order.
    pub bigrams: [BigramFeatures; 3],
    /// The two trigrams, in typing order.
    pub trigrams: [TrigramFeatures; 2],
    /// All four keys on one hand.
    pub same_hand_4: bool,
    /// The hands alternate at every step.
    pub alternating_hand_4: bool,
    /// Within a stretch typed by one hand, a finger comes back to press a
    /// different key.
    pub finger_repeat: bool,
}

/// The events of the bigram from the key at `prev` to the key at `curr`.
pub open spec fn spec_bigram(prev: int, curr: int) -> BigramFeatures {
    let p = spec_key(prev);
    let c = spec_key(curr);
    let same_hand = c.hand == p.hand;
    let d = key_distance_sq(c, p);
    let out = spec_is_roll_out(c.hand, c.finger, p.finger);
    let inw = spec_is_roll_in(c.hand, c.finger, p.finger);
    BigramFeatures {
        same_finger: c.finger == p.finger && same_hand && curr != prev,
        same_hand,
        alt_hand: !same_hand,
        distance_sq: d as u32,
        beyond_diagonal: d >= 13,
        pinky_ring_twist: same_hand && ((c.finger == Finger::Ring && p.finger == Finger::Pinky && (
        (c.row == Row::Home && p.row == Row::Top) || (c.row == Row::Bottom && p.row == Row::Top)))
            || (c.finger == Finger::Pinky && p.finger == Finger::Ring && ((c.row == Row::Top && p.row
            == Row::Home) || (c.row == Row::Top && p.row == Row::Bottom)))),
        roll_out: same_hand && c.row == p.row && out,
        roll_in: same_hand && c.row == p.row && inw,
        broken_roll: same_hand && c.finger != p.finger && (out || inw) && d >= 14,
    }
}

/// The events of the trigram of the keys at `a`, `b`, `c` (typed in that
/// order).
pub open spec fn spec_trigram(a: int, b: int, c: int) -> TrigramFeatures {
    let k2 = spec_key(a);
    let k1 = spec_key(b);
    let k0 = spec_key(c);
    let one_hand = k0.hand == k1.hand && k1.hand == k2.hand;
    let d = key_distance_sq(k0, k2);
    TrigramFeatures {
        roll_reversal: one_hand && ((k0.finger == Finger::Middle && k1.finger == Finger::Pinky && k2.finger
            == Finger::Ring) || (k0.finger == Finger::Ring && k1.finger == Finger::Pinky && k2.finger
            == Finger::Middle)),
        twist: one_hand && ((k0.row == Row::Top && k1.row == Row::Home && k2.row == Row::Bottom) || (k0.row
            == Row::Bottom && k1.row == Row::Home && k2.row == Row::Top)) && ((spec_is_roll_out(
            k0.hand,
            k0.finger,
            k1.finger,
        ) && spec_is_roll_out(k1.hand, k1.finger, k2.finger)) || (spec_is_roll_in(
            k0.hand,
            k0.finger,
            k1.finger,
        ) && spec_is_roll_in(k1.hand, k1.finger, k2.finger))),
        sandwich_distance_sq: d as u32,
        sandwich: k0.hand == k2.hand && d > 16,
    }
}

/// Keys `i..=j` of `p` are all typed by one hand.
pub open spec fn one_hand_stretch(p: Seq<int>, i: int, j: int) -> bool {
    forall|k: int| i <= k <= j ==> spec_key(#[trigger] p[k]).hand == spec_key(p[j]).hand
}

/// Some finger comes back to press a different key within a stretch of
/// presses by one hand.
pub open spec fn spec_finger_repeat(p: Seq<int>) -> bool {
    exists|i: int, j: int|
        0 <= i < j < p.len() && one_hand_stretch(p, i, j) && spec_key(p[i]).finger == spec_key(p[j]).finger
            && #[trigger] p[i] != #[trigger] p[j]
}

/// The features of the quartad whose keys sit at positions `p`.
pub open spec fn spec_features_at(p: Seq<int>) -> QuartadFeatures {
    let h0 = spec_key(p[0]).hand;
    let h1 = spec_key(p[1]).hand;
    let h2 = spec_key(p[2]).hand;
    let h3 = spec_key(p[3]).hand;
    QuartadFeatures {
        positions: [p[0] as usize, p[1] as usize, p[2] as usize, p[3] as usize],
        base_tenths: [
            spec_key(p[0]).base_cost_tenths,
            spec_key(p[1]).base_cost_tenths,
            spec_key(p[2]).base_cost_tenths,
            spec_key(p[3]).base_cost_tenths,
        ],
        bigrams: [spec_bigram(p[0], p[1]), spec_bigram(p[1], p[2]), spec_bigram(p[2], p[3])],
        trigrams: [spec_trigram(p[0], p[1], p[2]), spec_trigram(p[1], p[2], p[3])],
        same_hand_4: h0 == h1 && h1 == h2 && h2 == h3,
        alternating_hand_4: h0 != h1 && h1 != h2 && h2 != h3,
        finger_repeat: spec_finger_repeat(p),
    }
}

/// The first position of `c` in `ps` (meaningful when `ps` contains `c`).
pub open spec fn first_index(ps: Seq<char>, c: char) -> int {
    choose|i: int| is_first_index(ps, c, i)
}

/// The positions at which the four letters of `q` are typed.
pub open spec fn quartad_positions(ps: Seq<char>, q: [u8; 4]) -> Seq<int> {
    Seq::new(4, |k: int| first_index(ps, letter(q@[k] as int)))
}

/// Every letter of `q` is a letter code present on the layout.
pub open spec fn quartad_on_board(ps: Seq<char>, q: [u8; 4]) -> bool {
    forall|k: int| 0 <= k < 4 ==> q@[k] < 26 && ps.contains(letter(#[trigger] q@[k] as int))
}

/// The features of quartad `q` on layout `ps`; `None` when one of its
/// letters is not on the board.
pub open spec fn spec_quartad_features(ps: Seq<char>, q: [u8; 4]) -> Option<QuartadFeatures> {
    if quartad_on_board(ps, q) {
        Some(spec_features_at(quartad_positions(ps, q)))
    } else {
        None
    }
}

/// The first index of a letter is unique.
pub proof fn lemma_first_index_unique(ps: Seq<char>, c: char, i: int)
    requires
        is_first_index(ps, c, i),
    ensures
        first_index(ps, c) == i,
{
    let j = first_index(ps, c);
    assert(is_first_index(ps, c, j));
    if j < i {
        assert(ps[j] != c);
    } else if i < j {
        assert(ps[i] != c);
    }
}

/// Whether moving from finger `prev` to `curr` on `hand` rolls outward
/// (towards the index finger on the left hand, towards the pinky on the
/// right).
pub fn is_roll_out(hand: Hand, curr: Finger, prev: Finger) -> (r: bool)
    ensures
        r == spec_is_roll_out(hand, curr, prev),
{
    match hand {
        Hand::Left => matches!(
            (prev, curr),
            (Finger::Pinky, Finger::Ring) | (Finger::Pinky, Finger::Middle) | (Finger::Pinky, Finger::Index)
                | (Finger::Ring, Finger::Middle) | (Finger::Ring, Finger::Index) | (Finger::Middle, Finger::Index)
        ),
        Hand::Right => matches!(
            (prev, curr),
            (Finger::Index, Finger::Middle) | (Finger::Index, Finger::Ring) | (Finger::Index, Finger::Pinky)
                | (Finger::Middle, Finger::Ring) | (Finger::Middle, Finger::Pinky) | (Finger::Ring, Finger::Pinky)
        ),
    }
}

/// Whether moving from finger `prev` to `curr` on `hand` rolls inward: the
/// opposite of an outward roll.
pub fn is_roll_in(hand: Hand, curr: Finger, prev: Finger) -> (r: bool)
    ensures
        r == spec_is_roll_in(hand, curr, prev),
{
    is_roll_out(hand, prev, curr)
}

/// Squared distance between two keys, in quarter units (see
/// `key_distance_sq`): 0 for keys on different hands.
pub fn key_distance_sq_of(k1: &Key, k2: &Key) -> (d: u32)
    ensures
        d == key_distance_sq(*k1, *k2),
{
    if k1.hand != k2.hand {
        return 0;
    }
    let dc: u32 = if k1.column >= k2.column {
        (k1.column - k2.column) as u32
    } else {
        (k2.column - k1.column) as u32
    };
    let col: u32 = if k1.finger == Finger::Index && k2.finger == Finger::Index {
        dc
    } else {
        2 * dc
    };
    let row: u32 = match (k1.row, k2.row) {
        (Row::Top, Row::Top) | (Row::Home, Row::Home) | (Row::Bottom, Row::Bottom) => 0,
        (Row::Top, Row::Bottom) | (Row::Bottom, Row::Top) => 6,
        _ => 3,
    };
    assert(col * col <= 260100) by (nonlinear_arith)
        requires
            col <= 510,
    ;
    assert(row * row <= 36) by (nonlinear_arith)
        requires
            row <= 6,
    ;
    col * col + row * row
}

/// The events of the bigram from the key at `prev` to the key at `curr`.
pub fn bigram_features(prev: usize, curr: usize) -> (f: BigramFeatures)
    requires
        prev < NUM_KEYS,
        curr < NUM_KEYS,
    ensures
        f == spec_bigram(prev as int, curr as int),
{
    let p = key_at(prev);
    let c = key_at(curr);
    let same_hand = c.hand == p.hand;
    let d = key_distance_sq_of(&c, &p);
    let out = is_roll_out(c.hand, c.finger, p.finger);
    let inw = is_roll_in(c.hand, c.finger, p.finger);
    BigramFeatures {
        same_finger: c.finger == p.finger && same_hand && curr != prev,
        same_hand,
        alt_hand: !same_hand,
        distance_sq: d,
        beyond_diagonal: d >= 13,
        pinky_ring_twist: same_hand && ((c.finger == Finger::Ring && p.finger == Finger::Pinky && ((c.row
            == Row::Home && p.row == Row::Top) || (c.row == Row::Bottom && p.row == Row::Top))) || (c.finger
            == Finger::Pinky && p.finger == Finger::Ring && ((c.row == Row::Top && p.row == Row::Home) || (
        c.row == Row::Top && p.row == Row::Bottom)))),
        roll_out: same_hand && c.row == p.row && out,
        roll_in: same_hand && c.row == p.row && inw,
        broken_roll: same_hand && c.finger != p.finger && (out || inw) && d >= 14,
    }
}

/// The events of the trigram of the keys at `a`, `b`, `c`, typed in that
/// order.
pub fn trigram_features(a: usize, b: usize, c: usize) -> (f: TrigramFeatures)
    requires
        a < NUM_KEYS,
        b < NUM_KEYS,
        c < NUM_KEYS,
    ensures
        f == spec_trigram(a as int, b as int, c as int),
{
    let k2 = key_at(a);
    let k1 = key_at(b);
    let k0 = key_at(c);
    let one_hand = k0.hand == k1.hand && k1.hand == k2.hand;
    let d = key_distance_sq_of(&k0, &k2);
    let reversal = one_hand && ((k0.finger == Finger::Middle && k1.finger == Finger::Pinky && k2.finger
        == Finger::Ring) || (k0.finger == Finger::Ring && k1.finger == Finger::Pinky && k2.finger
        == Finger::Middle));
    let crosses_rows = (k0.row == Row::Top && k1.row == Row::Home && k2.row == Row::Bottom) || (k0.row
        == Row::Bottom && k1.row == Row::Home && k2.row == Row::Top);
    let same_direction = (is_roll_out(k0.hand, k0.finger, k1.finger) && is_roll_out(
        k1.hand,
        k1.finger,
        k2.finger,
    )) || (is_roll_in(k0.hand, k0.finger, k1.finger) && is_roll_in(k1.hand, k1.finger, k2.finger));
    TrigramFeatures {
        roll_reversal: reversal,
        twist: one_hand && crosses_rows && same_direction,
        sandwich_distance_sq: d,
        sandwich: k0.hand == k2.hand && d > 16,
    }
}

/// Whether, within a stretch of presses by one hand, some finger comes back
/// to press a different key.
pub fn finger_repeat(p: &[usize; 4]) -> (r: bool)
    requires
        forall|k: int| 0 <= k < 4 ==> p@[k] < NUM_KEYS,
    ensures
        r == spec_finger_repeat(p@.map_values(|x: usize| x as int)),
{
    let ghost ps = p@.map_values(|x: usize| x as int);
    let mut j: usize = 1;
    while j < 4
        invariant
            1 <= j <= 4,
            ps == p@.map_values(|x: usize| x as int),
            forall|k: int| 0 <= k < 4 ==> p@[k] < NUM_KEYS,
            forall|a: int, b: int|
                0 <= a < b < j ==> !(one_hand_stretch(ps, a, b) && spec_key(ps[a]).finger == spec_key(
                    ps[b],
                ).finger && #[trigger] ps[a] != #[trigger] ps[b]),
        decreases 4 - j,
    {
        let kj = key_at(p[j]);
        // walk back over the stretch typed by the same hand
        let mut i: usize = j;
        while i > 0
            invariant
                0 <= i <= j < 4,
                ps == p@.map_values(|x: usize| x as int),
                forall|k: int| 0 <= k < 4 ==> p@[k] < NUM_KEYS,
                kj == spec_key(ps[j as int]),
                one_hand_stretch(ps, i as int, j as int),
                forall|a: int| i <= a < j ==> !(spec_key(ps[a]).finger == kj.finger && #[trigger] ps[a] != ps[j as int]),
            ensures
                one_hand_stretch(ps, i as int, j as int),
                forall|a: int| i <= a < j ==> !(spec_key(ps[a]).finger == kj.finger && #[trigger] ps[a] != ps[j as int]),
                i == 0 || spec_key(ps[i - 1]).hand != kj.hand,
            decreases i,
        {
            let ki = key_at(p[i - 1]);
            if ki.hand != kj.hand {
                break;
            }
            if ki.finger == kj.finger && p[i - 1] != p[j] {
                assert(one_hand_stretch(ps, i - 1, j as int));
                assert(ps[i - 1] != ps[j as int]);
                return true;
            }
            i -= 1;
        }
        proof {
            assert forall|a: int, b: int|
                0 <= a < b < j + 1 implies !(one_hand_stretch(ps, a, b) && spec_key(ps[a]).finger == spec_key(
                    ps[b],
                ).finger && #[trigger] ps[a] != #[trigger] ps[b]) by {
                if b == j as int && one_hand_stretch(ps, a, b) {
                    if a < i {
                        assert(spec_key(ps[i - 1]).hand == spec_key(ps[b]).hand);
                    } else {
                        assert(!(spec_key(ps[a]).finger == kj.finger && ps[a] != ps[j as int]));
                    }
                }
            }
        }
        j += 1;
    }
    false
}

/// The position of the letter with code `code`, if it is a letter code on
/// the board (its first position).
pub fn code_position(layout: &Layout, code: u8) -> (r: Option<usize>)
    ensures
        match r {
            Some(p) => code < 26 && p < NUM_KEYS && is_first_index(layout.positions@, letter(code as int), p as int),
            None => code >= 26 || !layout.positions@.contains(letter(code as int)),
        },
{
    if code >= 26 {
        return None;
    }
    let c = char_from_lower_code(code as u32);
    assert(ascii_lower(c) == c);
    layout.get_position(c)
}

/// The features of quartad `q` (four letter codes) on `layout`, or `None`
/// when one of its letters is not on the board.
pub fn quartad_features(layout: &Layout, q: &[u8; 4]) -> (r: Option<QuartadFeatures>)
    requires
        forall|k: int| 0 <= k < 4 ==> q@[k] <= 158,
    ensures
        r == spec_quartad_features(layout.positions@, *q),
{
    let ghost ps = layout.positions@;
    let qa: [u8; 4] = *q;
    assert(qa == *q);
    let p0 = match code_position(layout, qa[0]) {
        Some(x) => x,
        None => {
            assert(!quartad_on_board(ps, qa));
            return None;
        },
    };
    let p1 = match code_position(layout, qa[1]) {
        Some(x) => x,
        None => {
            assert(!quartad_on_board(ps, qa));
            return None;
        },
    };
    let p2 = match code_position(layout, qa[2]) {
        Some(x) => x,
        None => {
            assert(!quartad_on_board(ps, qa));
            return None;
        },
    };
    let p3 = match code_position(layout, qa[3]) {
        Some(x) => x,
        None => {
            assert(!quartad_on_board(ps, qa));
            return None;
        },
    };
    let p: [usize; 4] = [p0, p1, p2, p3];
    assert(forall|k: int| 0 <= k < 4 ==> qa@[k] < 26 && #[trigger] p@[k] < NUM_KEYS && is_first_index(
        ps,
        letter(qa@[k] as int),
        p@[k] as int,
    ));
    let ghost pi = p@.map_values(|x: usize| x as int);
    proof {
        assert forall|k: int| 0 <= k < 4 implies qa@[k] < 26 && ps.contains(letter(#[trigger] qa@[k] as int)) by {
            assert(ps[p@[k] as int] == letter(qa@[k] as int));
        }
        assert forall|k: int| 0 <= k < 4 implies #[trigger] quartad_positions(ps, qa)[k] == pi[k] by {
            lemma_first_index_unique(ps, letter(qa@[k] as int), p@[k] as int);
        }
        assert(quartad_positions(ps, qa) =~= pi);
    }
    let bigrams = [bigram_features(p[0], p[1]), bigram_features(p[1], p[2]), bigram_features(p[2], p[3])];
    let trigrams = [trigram_features(p[0], p[1], p[2]), trigram_features(p[1], p[2], p[3])];
    let k0 = key_at(p[0]);
    let k1 = key_at(p[1]);
    let k2 = key_at(p[2]);
    let k3 = key_at(p[3]);
    let repeat = finger_repeat(&p);
    let f = QuartadFeatures {
        positions: p,
        base_tenths: [k0.base_cost_tenths, k1.base_cost_tenths, k2.base_cost_tenths, k3.base_cost_tenths],
        bigrams,
        trigrams,
        same_hand_4: k0.hand == k1.hand && k1.hand == k2.hand && k2.hand == k3.hand,
        alternating_hand_4: k0.hand != k1.hand && k1.hand != k2.hand && k2.hand != k3.hand,
        finger_repeat: repeat,
    };
    assert(f.positions =~= spec_features_at(pi).positions);
    assert(f.base_tenths =~= spec_features_at(pi).base_tenths);
    assert(f.bigrams =~= spec_features_at(pi).bigrams);
    assert(f.trigrams =~= spec_features_at(pi).trigrams);
    Some(f)
}

/// A bigram seen in a mirror: the same events, with outward and inward
/// rolls exchanged.
pub open spec fn swap_rolls(b: BigramFeatures) -> BigramFeatures {
    BigramFeatures { roll_out: b.roll_in, roll_in: b.roll_out, ..b }
}

/// The features of a quartad typed on the mirror image of a layout, given
/// those on the layout: positions are mirrored, outward and inward rolls
/// exchange, everything else is unchanged.
pub open spec fn mirror_features(f: QuartadFeatures) -> QuartadFeatures {
    QuartadFeatures {
        positions: [
            mirror_index(f.positions@[0] as int) as usize,
            mirror_index(f.positions@[1] as int) as usize,
            mirror_index(f.positions@[2] as int) as usize,
            mirror_index(f.positions@[3] as int) as usize,
        ],
        bigrams: [swap_rolls(f.bigrams@[0]), swap_rolls(f.bigrams@[1]), swap_rolls(f.bigrams@[2])],
        ..f
    }
}

/// The mirror of a key is on the other hand; mirroring keeps whether two keys
/// share a hand.
proof fn lemma_mirror_same_hand(a: int, b: int)
    requires
        0 <= a < NUM_KEYS,
        0 <= b < NUM_KEYS,
    ensures
        (spec_key(mirror_index(a)).hand == spec_key(mirror_index(b)).hand) == (spec_key(a).hand == spec_key(b).hand),
{
    lemma_mirror_index(a);
    lemma_mirror_index(b);
}

/// On the other hand, an outward roll is an inward one.
proof fn lemma_roll_flip(h1: Hand, h2: Hand, c: Finger, p: Finger)
    requires
        h1 != h2,
    ensures
        spec_is_roll_out(h2, c, p) == spec_is_roll_in(h1, c, p),
        spec_is_roll_in(h2, c, p) == spec_is_roll_out(h1, c, p),
{
}

/// Mirroring keeps key distances.
proof fn lemma_mirror_distance(a: int, b: int)
    requires
        0 <= a < NUM_KEYS,
        0 <= b < NUM_KEYS,
    ensures
        key_distance_sq(spec_key(mirror_index(a)), spec_key(mirror_index(b))) == key_distance_sq(spec_key(a), spec_key(b)),
{
    lemma_mirror_index(a);
    lemma_mirror_index(b);
    lemma_mirror_same_hand(a, b);
}

/// A bigram on mirrored keys has the same events, rolls exchanged.
pub proof fn lemma_mirror_bigram(prev: int, curr: int)
    requires
        0 <= prev < NUM_KEYS,
        0 <= curr < NUM_KEYS,
    ensures
        spec_bigram(mirror_index(prev), mirror_index(curr)) == swap_rolls(spec_bigram(prev, curr)),
{
    lemma_mirror_index(prev);
    lemma_mirror_index(curr);
    lemma_mirror_same_hand(prev, curr);
    lemma_mirror_distance(curr, prev);
    let c = spec_key(curr);
    lemma_roll_flip(c.hand, spec_key(mirror_index(curr)).hand, c.finger, spec_key(prev).finger);
}

/// A trigram on mirrored keys has the same events.
pub proof fn lemma_mirror_trigram(a: int, b: int, c: int)
    requires
        0 <= a < NUM_KEYS,
        0 <= b < NUM_KEYS,
        0 <= c < NUM_KEYS,
    ensures
        spec_trigram(mirror_index(a), mirror_index(b), mirror_index(c)) == spec_trigram(a, b, c),
{
    lemma_mirror_index(a);
    lemma_mirror_index(b);
    lemma_mirror_index(c);
    lemma_mirror_same_hand(a, b);
    lemma_mirror_same_hand(b, c);
    lemma_mirror_same_hand(a, c);
    lemma_mirror_distance(c, a);
    let k0 = spec_key(c);
    let k1 = spec_key(b);
    lemma_roll_flip(k0.hand, spec_key(mirror_index(c)).hand, k0.finger, k1.finger);
    lemma_roll_flip(k1.hand, spec_key(mirror_index(b)).hand, k1.finger, spec_key(a).finger);
}

/// A finger comes back within a one-hand stretch on mirrored keys exactly
/// when it does on the keys themselves.
pub proof fn lemma_mirror_finger_repeat(p: Seq<int>)
    requires
        forall|k: int| 0 <= k < p.len() ==> 0 <= #[trigger] p[k] < NUM_KEYS,
    ensures
        spec_finger_repeat(p.map_values(|x: int| mirror_index(x))) == spec_finger_repeat(p),
{
    let mp = p.map_values(|x: int| mirror_index(x));
    assert forall|i: int, j: int| 0 <= i <= j < p.len() && #[trigger] one_hand_stretch(p, i, j) implies one_hand_stretch(mp, i, j) by {
        assert forall|k: int| i <= k <= j implies spec_key(#[trigger] mp[k]).hand == spec_key(mp[j]).hand by {
            lemma_mirror_same_hand(p[k], p[j]);
        }
    }
    assert forall|i: int, j: int| 0 <= i <= j < p.len() && #[trigger] one_hand_stretch(mp, i, j) implies one_hand_stretch(p, i, j) by {
        assert forall|k: int| i <= k <= j implies spec_key(#[trigger] p[k]).hand == spec_key(p[j]).hand by {
            assert(spec_key(mp[k]).hand == spec_key(mp[j]).hand);
            lemma_mirror_same_hand(p[k], p[j]);
        }
    }
    if spec_finger_repeat(p) {
        let (i, j) = choose|i: int, j: int|
            0 <= i < j < p.len() && one_hand_stretch(p, i, j) && spec_key(p[i]).finger == spec_key(p[j]).finger
                && #[trigger] p[i] != #[trigger] p[j];
        lemma_mirror_index(p[i]);
        lemma_mirror_index(p[j]);
        assert(mp[i] != mp[j]);
    }
    if spec_finger_repeat(mp) {
        let (i, j) = choose|i: int, j: int|
            0 <= i < j < mp.len() && one_hand_stretch(mp, i, j) && spec_key(mp[i]).finger == spec_key(mp[j]).finger
                && #[trigger] mp[i] != #[trigger] mp[j];
        lemma_mirror_index(p[i]);
        lemma_mirror_index(p[j]);
        assert(p[i] != p[j]);
    }
}

/// Where a letter sits on the mirror image of a valid layout: at the mirror
/// of its position.
pub proof fn lemma_mirror_first_index(ps: Seq<char>, c: char)
    requires
        valid_positions(ps),
        ps.contains(c),
    ensures
        spec_mirror(ps).contains(c),
        is_first_index(ps, c, first_index(ps, c)),
        first_index(spec_mirror(ps), c) == mirror_index(first_index(ps, c)),
{
    let i = choose|i: int| 0 <= i < ps.len() && ps[i] == c;
    assert(is_first_index(ps, c, i)) by {
        assert forall|j: int| 0 <= j < i implies ps[j] != c by {}
    }
    lemma_first_index_unique(ps, c, i);
    let ms = spec_mirror(ps);
    lemma_mirror_index(i);
    crate::symmetry::lemma_mirror_valid(ps);
    assert(ms[mirror_index(i)] == c);
    assert(is_first_index(ms, c, mirror_index(i))) by {
        assert forall|j: int| 0 <= j < mirror_index(i) implies ms[j] != c by {}
    }
    lemma_first_index_unique(ms, c, mirror_index(i));
}

/// The features at mirrored positions are the mirrored features.
pub proof fn lemma_mirror_features_at(p: Seq<int>)
    requires
        p.len() == 4,
        forall|k: int| 0 <= k < 4 ==> 0 <= #[trigger] p[k] < NUM_KEYS,
    ensures
        spec_features_at(p.map_values(|x: int| mirror_index(x))) == mirror_features(spec_features_at(p)),
{
    let mp = p.map_values(|x: int| mirror_index(x));
    lemma_mirror_finger_repeat(p);
    lemma_mirror_bigram(p[0], p[1]);
    lemma_mirror_bigram(p[1], p[2]);
    lemma_mirror_bigram(p[2], p[3]);
    lemma_mirror_trigram(p[0], p[1], p[2]);
    lemma_mirror_trigram(p[1], p[2], p[3]);
    lemma_mirror_same_hand(p[0], p[1]);
    lemma_mirror_same_hand(p[1], p[2]);
    lemma_mirror_same_hand(p[2], p[3]);
    lemma_mirror_index(p[0]);
    lemma_mirror_index(p[1]);
    lemma_mirror_index(p[2]);
    lemma_mirror_index(p[3]);
    let f = spec_features_at(p);
    let g = spec_features_at(mp);
    assert(g.positions =~= mirror_features(f).positions);
    assert(g.base_tenths =~= mirror_features(f).base_tenths);
    assert(g.bigrams =~= mirror_features(f).bigrams);
    assert(g.trigrams =~= mirror_features(f).trigrams);
}

/// Mirror law of the penalty model: on the mirror image of a valid layout a
/// quartad has the same features, except that its positions are mirrored
/// and outward and inward rolls exchange. So a weighting that rewards both
/// kinds of roll alike scores a layout and its mirror image the same.
pub proof fn lemma_mirror_quartad_features(ps: Seq<char>, q: [u8; 4])
    requires
        valid_positions(ps),
    ensures
        spec_quartad_features(spec_mirror(ps), q) == match spec_quartad_features(ps, q) {
            Some(f) => Some(mirror_features(f)),
            None => None,
        },
{
    let ms = spec_mirror(ps);
    crate::symmetry::lemma_mirror_valid(ps);
    assert forall|k: int| 0 <= k < 4 && q@[k] < 26 implies (ms.contains(letter(#[trigger] q@[k] as int)) == ps.contains(
        letter(q@[k] as int),
    )) by {
        let c = letter(q@[k] as int);
        if ps.contains(c) {
            lemma_mirror_first_index(ps, c);
        }
        if ms.contains(c) {
            crate::symmetry::lemma_mirror_twice(ps);
            lemma_mirror_first_index(ms, c);
        }
    }
    if quartad_on_board(ps, q) {
        assert(quartad_on_board(ms, q));
        let p = quartad_positions(ps, q);
        let mp = quartad_positions(ms, q);
        assert forall|k: int| 0 <= k < 4 implies #[trigger] mp[k] == mirror_index(p[k]) && 0 <= p[k] < NUM_KEYS by {
            let c = letter(q@[k] as int);
            lemma_mirror_first_index(ps, c);
            assert(is_first_index(ps, c, first_index(ps, c)));
        }
        assert(mp =~= p.map_values(|x: int| mirror_index(x)));
        lemma_mirror_features_at(p);
    } else {
        assert(!quartad_on_board(ms, q));
    }
}

/// Total of the letter counts `m` over the first `n` letter codes whose
/// letter is on the board and typed by `hand`.
pub open spec fn hand_total(ps: Seq<char>, m: Seq<usize>, hand: Hand, n: int) -> nat
    decreases n,
{
    if n <= 0 {
        0
    } else {
        hand_total(ps, m, hand, n - 1) + if ps.contains(letter(n - 1)) && spec_key(first_index(ps, letter(n - 1))).hand
            == hand {
            m[n - 1] as nat
        } else {
            0nat
        }
    }
}

/// Total of the first `n` letter counts.
pub open spec fn count_total(m: Seq<usize>, n: int) -> nat
    decreases n,
{
    if n <= 0 {
        0
    } else {
        count_total(m, n - 1) + m[n - 1] as nat
    }
}

/// How many letter presses fall on each hand: the letter counts `monograms`
/// summed over the letters on the board, split by the hand that types them.
/// Returns `(left, right)`, or `None` when a hand's total does not fit in a
/// `usize`.
pub fn hand_usage(layout: &Layout, monograms: &[usize; 26]) -> (r: Option<(usize, usize)>)
    ensures
        match r {
            Some((left, right)) => {
                &&& left == hand_total(layout.positions@, monograms@, Hand::Left, 26)
                &&& right == hand_total(layout.positions@, monograms@, Hand::Right, 26)
            },
            None => hand_total(layout.positions@, monograms@, Hand::Left, 26) > usize::MAX
                || hand_total(layout.positions@, monograms@, Hand::Right, 26) > usize::MAX,
        },
{
    let ghost ps = layout.positions@;
    let mut left: usize = 0;
    let mut right: usize = 0;
    for code in 0..26usize
        invariant
            ps == layout.positions@,
            left == hand_total(ps, monograms@, Hand::Left, code as int),
            right == hand_total(ps, monograms@, Hand::Right, code as int),
    {
        proof {
            lemma_hand_total_monotone(ps, monograms@, Hand::Left, code as int + 1, 26);
            lemma_hand_total_monotone(ps, monograms@, Hand::Right, code as int + 1, 26);
        }
        let l = char_from_lower_code(code as u32);
        assert(ascii_lower(l) == l);
        match layout.get_key_info(l) {
            Some(info) => {
                proof {
                    lemma_first_index_unique(ps, l, info.position as int);
                }
                if info.hand == Hand::Left {
                    match left.checked_add(monograms[code]) {
                        Some(v) => left = v,
                        None => return None,
                    }
                } else {
                    match right.checked_add(monograms[code]) {
                        Some(v) => right = v,
                        None => return None,
                    }
                }
            },
            None => {},
        }
    }
    Some((left, right))
}

/// Partial hand totals grow with `n`.
proof fn lemma_hand_total_monotone(ps: Seq<char>, m: Seq<usize>, hand: Hand, a: int, b: int)
    requires
        0 <= a <= b,
    ensures
        hand_total(ps, m, hand, a) <= hand_total(ps, m, hand, b),
    decreases b - a,
{
    if a < b {
        lemma_hand_total_monotone(ps, m, hand, a, b - 1);
    }
}

/// Mirror law of hand usage: on the mirror image of a valid layout the left
/// hand types exactly what the right hand typed before, and the other way
/// round.
pub proof fn lemma_mirror_hand_total(ps: Seq<char>, m: Seq<usize>, hand: Hand, n: int)
    requires
        valid_positions(ps),
        n <= 26,
    ensures
        hand_total(spec_mirror(ps), m, hand, n) == hand_total(
            ps,
            m,
            match hand {
                Hand::Left => Hand::Right,
                Hand::Right => Hand::Left,
            },
            n,
        ),
    decreases n,
{
    if n > 0 {
        lemma_mirror_hand_total(ps, m, hand, n - 1);
        let c = letter(n - 1);
        crate::symmetry::lemma_mirror_valid(ps);
        if ps.contains(c) {
            lemma_mirror_first_index(ps, c);
            lemma_mirror_index(first_index(ps, c));
        }
        if spec_mirror(ps).contains(c) {
            crate::symmetry::lemma_mirror_twice(ps);
            lemma_mirror_first_index(spec_mirror(ps), c);
        }
    }
}

/// Under a valid layout every letter is typed by exactly one hand: the two
/// hand totals of the first `n` letter counts add up to their total.
pub proof fn lemma_hand_totals_cover(ps: Seq<char>, m: Seq<usize>, n: int)
    requires
        valid_positions(ps),
        0 <= n <= 26,
    ensures
        hand_total(ps, m, Hand::Left, n) + hand_total(ps, m, Hand::Right, n) == count_total(m, n),
    decreases n,
{
    if n > 0 {
        lemma_hand_totals_cover(ps, m, n - 1);
        crate::layout_26::lemma_valid_contains_every_letter(ps);
        assert(ps.contains(letter(n - 1)));
    }
}

/// The letter counts, totalled, are the counts of the codes below `j`.
proof fn lemma_count_total_codes(s: Seq<u8>, m: Seq<usize>, j: int)
    requires
        0 <= j <= 26,
        m.len() == 26,
        forall|k: int| 0 <= k < 26 ==> m[k] == byte_count(s, k as u8),
    ensures
        count_total(m, j) == code_counts_upto(s, j),
    decreases j,
{
    if j > 0 {
        lemma_count_total_codes(s, m, j - 1);
    }
}

/// Every letter of the corpus is typed by exactly one hand: under a valid
/// layout, the letter presses of the two hands add up to all the letters of
/// the corpus.
pub proof fn lemma_hand_usage_covers_corpus(ps: Seq<char>, s: Seq<u8>, m: Seq<usize>)
    requires
        valid_positions(ps),
        forall|i: int| 0 <= i < s.len() ==> s[i] < 26 || s[i] == BREAK_MARKER,
        m.len() == 26,
        forall|k: int| 0 <= k < 26 ==> m[k] == byte_count(s, k as u8),
    ensures
        hand_total(ps, m, Hand::Left, 26) + hand_total(ps, m, Hand::Right, 26) == letter_total(s),
{
    lemma_hand_totals_cover(ps, m, 26);
    lemma_count_total_codes(s, m, 26);
    lemma_letter_counts_total(s);
}

/// A bigram is a roll, outward or inward, only between two different
/// fingers of one hand on one row, and never both at once.
pub proof fn lemma_rolls_stay_in_row(prev: int, curr: int)
    requires
        0 <= prev < NUM_KEYS,
        0 <= curr < NUM_KEYS,
    ensures
        spec_bigram(prev, curr).roll_out || spec_bigram(prev, curr).roll_in ==> {
            &&& spec_key(prev).row == spec_key(curr).row
            &&& spec_key(prev).hand == spec_key(curr).hand
            &&& spec_key(prev).finger != spec_key(curr).finger
        },
        !(spec_bigram(prev, curr).roll_out && spec_bigram(prev, curr).roll_in),
{
}

/// Adding `d` to the count of letter `k` adds `d` to the total of the
/// letters among the first `n` codes typed by `hand` when `k` is among them
/// and its key (at position `i`) is on `hand`, and nothing otherwise.
proof fn lemma_hand_total_credit_upto(
    ps: Seq<char>,
    m: Seq<usize>,
    k: int,
    d: usize,
    i: int,
    hand: Hand,
    n: int,
)
    requires
        valid_positions(ps),
        0 <= k < 26,
        m.len() == 26,
        m[k] + d <= usize::MAX,
        0 <= i < NUM_KEYS,
        ps[i] == letter(k),
        0 <= n <= 26,
    ensures
        hand_total(ps, m.update(k, (m[k] + d) as usize), hand, n) == hand_total(ps, m, hand, n) + if k < n
            && spec_key(i).hand == hand {
            d as nat
        } else {
            0nat
        },
    decreases n,
{
    if n > 0 {
        lemma_hand_total_credit_upto(ps, m, k, d, i, hand, n - 1);
        if n - 1 == k {
            assert(is_first_index(ps, letter(k), i)) by {
                assert forall|j: int| 0 <= j < i implies ps[j] != letter(k) by {
                    assert(ps[j] != ps[i]);
                }
            }
            lemma_first_index_unique(ps, letter(k), i);
            assert(ps.contains(letter(k)));
        }
    }
}

/// Each letter's count goes to the hand whose key holds the letter: under a
/// valid layout, adding `d` to the count of letter `k`, which sits at
/// position `i`, adds `d` to that hand's total and nothing to the other's.
pub proof fn lemma_hand_total_credit(ps: Seq<char>, m: Seq<usize>, k: int, d: usize, i: int, hand: Hand)
    requires
        valid_positions(ps),
        0 <= k < 26,
        m.len() == 26,
        m[k] + d <= usize::MAX,
        0 <= i < NUM_KEYS,
        ps[i] == letter(k),
    ensures
        hand_total(ps, m.update(k, (m[k] + d) as usize), hand, 26) == hand_total(ps, m, hand, 26) + if spec_key(
            i,
        ).hand == hand {
            d as nat
        } else {
            0nat
        },
{
    lemma_hand_total_credit_upto(ps, m, k, d, i, hand, 26);
}

} // verus!
