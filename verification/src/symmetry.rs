//! Left/right mirror symmetry of the board, and the canonical key that
//! identifies a layout with its mirror image.
use vstd::prelude::*;
use crate::geometry::{NUM_KEYS, spec_key};
use crate::layout_26::{Layout, valid_positions};
use crate::text::string_from_chars;

verus! {

broadcast use vstd::array::group_array_axioms;

/// The position that mirrors position `i` across the two hands.
pub open spec fn mirror_index(i: int) -> int {
    if i == 0 { 25 }
    else if i == 1 { 24 }
    else if i == 2 { 16 }
    else if i == 3 { 15 }
    else if i == 4 { 14 }
    else if i == 5 { 13 }
    else if i == 6 { 20 }
    else if i == 7 { 19 }
    else if i == 8 { 18 }
    else if i == 9 { 17 }
    else if i == 10 { 23 }
    else if i == 11 { 22 }
    else if i == 12 { 21 }
    else if i == 13 { 5 }
    else if i == 14 { 4 }
    else if i == 15 { 3 }
    else if i == 16 { 2 }
    else if i == 17 { 9 }
    else if i == 18 { 8 }
    else if i == 19 { 7 }
    else if i == 20 { 6 }
    else if i == 21 { 12 }
    else if i == 22 { 11 }
    else if i == 23 { 10 }
    else if i == 24 { 1 }
    else { 0 }
}

/// The mirror image of a layout: the letter at `i` moves to
/// `mirror_index(i)`.
pub open spec fn spec_mirror(ps: Seq<char>) -> Seq<char> {
    Seq::new(NUM_KEYS as nat, |k: int| ps[mirror_index(k)])
}

/// Lexicographic `<=` on character sequences (a proper prefix comes first).
/// Characters compare by code point, which is also the order of their UTF-8
/// bytes, so this is the order of `String`s holding these characters.
pub open spec fn seq_lex_le(a: Seq<char>, b: Seq<char>) -> bool
    decreases a.len(),
{
    if a.len() == 0 {
        true
    } else if b.len() == 0 {
        false
    } else if a[0] != b[0] {
        a[0] < b[0]
    } else {
        seq_lex_le(a.drop_first(), b.drop_first())
    }
}

/// The canonical key of a layout: the lexicographically smaller of the
/// layout and its mirror image.
pub open spec fn spec_canonical(ps: Seq<char>) -> Seq<char> {
    if seq_lex_le(ps, spec_mirror(ps)) {
        ps
    } else {
        spec_mirror(ps)
    }
}

/// Mirroring pairs every position with one on the other hand that has the
/// same finger, row, column and base cost, and doing it twice gives back the
/// position.
pub proof fn lemma_mirror_index(i: int)
    requires
        0 <= i < NUM_KEYS,
    ensures
        0 <= mirror_index(i) < NUM_KEYS,
        mirror_index(mirror_index(i)) == i,
        spec_key(mirror_index(i)).hand != spec_key(i).hand,
        spec_key(mirror_index(i)).finger == spec_key(i).finger,
        spec_key(mirror_index(i)).row == spec_key(i).row,
        spec_key(mirror_index(i)).column == spec_key(i).column,
        spec_key(mirror_index(i)).base_cost_tenths == spec_key(i).base_cost_tenths,
{
}

/// Mirroring a layout twice gives back the layout.
pub proof fn lemma_mirror_twice(ps: Seq<char>)
    requires
        ps.len() == NUM_KEYS,
    ensures
        spec_mirror(spec_mirror(ps)) == ps,
{
    assert forall|k: int| 0 <= k < NUM_KEYS implies #[trigger] spec_mirror(spec_mirror(ps))[k] == ps[k] by {
        lemma_mirror_index(k);
    }
    assert(spec_mirror(spec_mirror(ps)) =~= ps);
}

/// The mirror image of a valid layout is valid.
pub proof fn lemma_mirror_valid(ps: Seq<char>)
    requires
        valid_positions(ps),
    ensures
        valid_positions(spec_mirror(ps)),
{
    let m = spec_mirror(ps);
    assert forall|k: int| 0 <= k < m.len() implies crate::text::is_lower(#[trigger] m[k]) by {
        lemma_mirror_index(k);
    }
    assert forall|a: int, b: int| 0 <= a < m.len() && 0 <= b < m.len() && a != b implies m[a] != m[b] by {
        lemma_mirror_index(a);
        lemma_mirror_index(b);
    }
}

/// `seq_lex_le` is total.
pub proof fn lemma_lex_total(a: Seq<char>, b: Seq<char>)
    ensures
        seq_lex_le(a, b) || seq_lex_le(b, a),
    decreases a.len(),
{
    if a.len() > 0 && b.len() > 0 && a[0] == b[0] {
        lemma_lex_total(a.drop_first(), b.drop_first());
    }
}

/// `seq_lex_le` is antisymmetric.
pub proof fn lemma_lex_antisymmetric(a: Seq<char>, b: Seq<char>)
    requires
        seq_lex_le(a, b),
        seq_lex_le(b, a),
    ensures
        a == b,
    decreases a.len(),
{
    if a.len() == 0 {
        assert(b.len() == 0);
        assert(a =~= b);
    } else {
        lemma_lex_antisymmetric(a.drop_first(), b.drop_first());
        assert(a =~= seq![a[0]] + a.drop_first());
        assert(b =~= seq![b[0]] + b.drop_first());
    }
}

/// `seq_lex_le` is reflexive.
pub proof fn lemma_lex_reflexive(a: Seq<char>)
    ensures
        seq_lex_le(a, a),
    decreases a.len(),
{
    if a.len() > 0 {
        lemma_lex_reflexive(a.drop_first());
    }
}

/// `seq_lex_le` is transitive.
pub proof fn lemma_lex_transitive(a: Seq<char>, b: Seq<char>, c: Seq<char>)
    requires
        seq_lex_le(a, b),
        seq_lex_le(b, c),
    ensures
        seq_lex_le(a, c),
    decreases a.len(),
{
    if a.len() > 0 && a[0] == b[0] && b[0] == c[0] {
        lemma_lex_transitive(a.drop_first(), b.drop_first(), c.drop_first());
    }
}

/// Lexicographic order compares at the first position where two sequences
/// differ, by code point.
pub proof fn lemma_lex_first_difference(a: Seq<char>, b: Seq<char>, i: int)
    requires
        0 <= i < a.len(),
        i < b.len(),
        forall|j: int| 0 <= j < i ==> a[j] == b[j],
        a[i] != b[i],
    ensures
        seq_lex_le(a, b) == ((a[i] as int) < (b[i] as int)),
    decreases i,
{
    if i > 0 {
        lemma_lex_first_difference(a.drop_first(), b.drop_first(), i - 1);
    }
}

/// A sequence comes no later than any sequence it is a prefix of.
pub proof fn lemma_lex_prefix(a: Seq<char>, b: Seq<char>)
    requires
        a.len() <= b.len(),
        forall|j: int| 0 <= j < a.len() ==> a[j] == b[j],
    ensures
        seq_lex_le(a, b),
    decreases a.len(),
{
    if a.len() > 0 {
        lemma_lex_prefix(a.drop_first(), b.drop_first());
    }
}

/// The canonical key is the smaller of a layout and its mirror image: it is
/// one of the two, and comes no later than either.
pub proof fn lemma_canonical_is_smaller(ps: Seq<char>)
    ensures
        spec_canonical(ps) == ps || spec_canonical(ps) == spec_mirror(ps),
        seq_lex_le(spec_canonical(ps), ps),
        seq_lex_le(spec_canonical(ps), spec_mirror(ps)),
{
    lemma_lex_reflexive(ps);
    lemma_lex_reflexive(spec_mirror(ps));
    lemma_lex_total(ps, spec_mirror(ps));
}

/// A layout and its mirror image have the same canonical key.
pub proof fn lemma_canonical_key_mirror(ps: Seq<char>)
    requires
        ps.len() == NUM_KEYS,
    ensures
        spec_canonical(spec_mirror(ps)) == spec_canonical(ps),
{
    let m = spec_mirror(ps);
    lemma_mirror_twice(ps);
    lemma_lex_total(ps, m);
    if seq_lex_le(ps, m) && seq_lex_le(m, ps) {
        lemma_lex_antisymmetric(ps, m);
    }
}

/// The mirror position of every position, as a table.
pub fn mirror_indices() -> (m: [usize; NUM_KEYS])
    ensures
        forall|i: int| 0 <= i < NUM_KEYS ==> m@[i] == mirror_index(i),
{
    [25, 24, 16, 15, 14, 13, 20, 19, 18, 17, 23, 22, 21, 5, 4, 3, 2, 9, 8, 7, 6, 12, 11, 10, 1, 0]
}

/// The mirror image of `layout`: the letter at each position moves to the
/// mirrored position.
pub fn mirror_layout(layout: &Layout) -> (r: Layout)
    ensures
        r.positions@ == spec_mirror(layout.positions@),
{
    let m = mirror_indices();
    let positions = layout.positions;
    let mut mirrored = positions;
    for i in 0..NUM_KEYS
        invariant
            positions@ == layout.positions@,
            forall|k: int| 0 <= k < NUM_KEYS ==> m@[k] == mirror_index(k),
            forall|k: int|
                0 <= k < NUM_KEYS ==> #[trigger] mirrored@[k] == (if mirror_index(k) < i {
                    positions@[mirror_index(k)]
                } else {
                    positions@[k]
                }),
    {
        proof {
            lemma_mirror_index(i as int);
        }
        mirrored[m[i]] = positions[i];
        assert forall|k: int| 0 <= k < NUM_KEYS implies #[trigger] mirrored@[k] == (if mirror_index(k) < i + 1 {
            positions@[mirror_index(k)]
        } else {
            positions@[k]
        }) by {
            lemma_mirror_index(k);
        }
    }
    let r = Layout { positions: mirrored };
    assert forall|k: int| 0 <= k < NUM_KEYS implies r.positions@[k] == spec_mirror(layout.positions@)[k] by {
        lemma_mirror_index(k);
    }
    assert(r.positions@ =~= spec_mirror(layout.positions@));
    r
}

/// The letters of `layout` in position order, as a string.
pub fn layout_compact_string(layout: &Layout) -> (s: String)
    ensures
        s@ == layout.positions@,
{
    string_from_chars(layout.positions.as_slice())
}

/// Whether `a` comes no later than `b` in lexicographic order.
pub fn chars_lex_le(a: &[char], b: &[char]) -> (r: bool)
    ensures
        r == seq_lex_le(a@, b@),
{
    let mut i: usize = 0;
    assert(a@.skip(0) =~= a@);
    assert(b@.skip(0) =~= b@);
    while i < a.len() && i < b.len()
        invariant
            i <= a@.len(),
            i <= b@.len(),
            seq_lex_le(a@, b@) == seq_lex_le(a@.skip(i as int), b@.skip(i as int)),
        decreases a.len() - i,
    {
        if a[i] != b[i] {
            return a[i] < b[i];
        }
        assert(a@.skip(i as int).drop_first() =~= a@.skip(i + 1));
        assert(b@.skip(i as int).drop_first() =~= b@.skip(i + 1));
        i += 1;
    }
    i == a.len()
}

/// Whether two character sequences are equal.
pub fn chars_eq(a: &[char], b: &[char]) -> (r: bool)
    ensures
        r == (a@ == b@),
{
    let ab = chars_lex_le(a, b);
    let ba = chars_lex_le(b, a);
    proof {
        if ab && ba {
            lemma_lex_antisymmetric(a@, b@);
        }
        if a@ == b@ {
            lemma_lex_reflexive(a@);
        }
    }
    ab && ba
}

/// The canonical key of a layout: the smaller (lexicographically) of its
/// compact string and that of its mirror image. A layout and its mirror
/// share their key.
pub fn canonical_key(layout: &Layout) -> (s: String)
    ensures
        s@ == spec_canonical(layout.positions@),
{
    let s1 = layout_compact_string(layout);
    let ml = mirror_layout(layout);
    let s2 = layout_compact_string(&ml);
    if chars_lex_le(layout.positions.as_slice(), ml.positions.as_slice()) {
        s1
    } else {
        s2
    }
}

} // verus!
