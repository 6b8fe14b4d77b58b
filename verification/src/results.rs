//! The repository of the best layouts found: at most one record per
//! canonical key (a layout and its mirror image share one), ranked by
//! penalty, and capped in size.
//!
//! Penalties are real numbers; the repository ranks records by their penalty
//! rounded to thousandths (`milli`), ties broken by canonical key. Whether a
//! new record improves on the one already held under its key is decided by
//! the caller from the penalties themselves and handed in.
use vstd::prelude::*;
use crate::symmetry::{
    chars_eq, chars_lex_le, lemma_lex_antisymmetric, lemma_lex_total, lemma_lex_transitive, seq_lex_le,
};
use crate::text::str_chars;
use crate::corpus::QuartadCounts;

verus! {

broadcast use vstd::array::group_array_axioms;

/// Rank order of entries: by rounded penalty, then by canonical key.
pub open spec fn key_lt(m1: i64, c1: Seq<char>, m2: i64, c2: Seq<char>) -> bool {
    m1 < m2 || (m1 == m2 && seq_lex_le(c1, c2) && c1 != c2)
}

/// Entries in strictly increasing rank, no canonical key twice.
pub open spec fn ranked_ok<R>(s: Seq<(i64, Seq<char>, R)>) -> bool {
    &&& forall|i: int, j: int| 0 <= i < j < s.len() ==> key_lt(s[i].0, s[i].1, s[j].0, s[j].1)
    &&& forall|i: int, j: int| 0 <= i < s.len() && 0 <= j < s.len() && i != j ==> s[i].1 != s[j].1
}

/// `s` without the entry held under canonical key `c`, if there is one.
pub open spec fn without_key<R>(s: Seq<(i64, Seq<char>, R)>, c: Seq<char>) -> Seq<(i64, Seq<char>, R)> {
    if exists|i: int| 0 <= i < s.len() && s[i].1 == c {
        s.remove(choose|i: int| 0 <= i < s.len() && s[i].1 == c)
    } else {
        s
    }
}

/// `j` is where an entry of rank `(m, c)` goes in `s`: everything before
/// ranks lower, everything from `j` on ranks higher.
pub open spec fn is_split<R>(s: Seq<(i64, Seq<char>, R)>, m: i64, c: Seq<char>, j: int) -> bool {
    &&& 0 <= j <= s.len()
    &&& forall|i: int| 0 <= i < j ==> key_lt(s[i].0, s[i].1, m, c)
    &&& forall|i: int| j <= i < s.len() ==> key_lt(m, c, s[i].0, s[i].1)
}

/// What offering a record does: rejected when the key is already held and
/// the record does not improve on it; otherwise it replaces any record under
/// its key, is put in rank order, and, past capacity, the lowest-ranked
/// entry is evicted and handed back.
pub open spec fn offer_outcome<R>(
    s: Seq<(i64, Seq<char>, R)>,
    capacity: usize,
    m: i64,
    c: Seq<char>,
    record: R,
    improves: bool,
    after: Seq<(i64, Seq<char>, R)>,
    evicted: Option<R>,
) -> bool {
    if (exists|i: int| 0 <= i < s.len() && s[i].1 == c) && !improves {
        after == s && evicted is None
    } else {
        let s1 = without_key(s, c);
        exists|j: int|
            is_split(s1, m, c, j) && {
                let s2 = s1.insert(j, (m, c, record));
                if s2.len() > capacity {
                    after == s2.drop_last() && evicted == Some(s2.last().2)
                } else {
                    after == s2 && evicted is None
                }
            }
    }
}

/// `key_lt` is transitive.
proof fn lemma_key_lt_transitive(m1: i64, c1: Seq<char>, m2: i64, c2: Seq<char>, m3: i64, c3: Seq<char>)
    requires
        key_lt(m1, c1, m2, c2),
        key_lt(m2, c2, m3, c3),
    ensures
        key_lt(m1, c1, m3, c3),
{
    if m1 == m2 && m2 == m3 {
        lemma_lex_transitive(c1, c2, c3);
        if c1 == c3 {
            lemma_lex_antisymmetric(c1, c2);
        }
    }
}

/// Two distinct ranks are ordered one way or the other.
proof fn lemma_key_lt_total(m1: i64, c1: Seq<char>, m2: i64, c2: Seq<char>)
    requires
        c1 != c2,
    ensures
        key_lt(m1, c1, m2, c2) || key_lt(m2, c2, m1, c1),
{
    lemma_lex_total(c1, c2);
}

/// Offering a record never takes a repository past its capacity: if at most
/// `capacity` records were held before, at most `capacity` are held after.
pub proof fn lemma_offer_within_capacity<R>(
    s: Seq<(i64, Seq<char>, R)>,
    capacity: usize,
    m: i64,
    c: Seq<char>,
    record: R,
    improves: bool,
    after: Seq<(i64, Seq<char>, R)>,
    evicted: Option<R>,
)
    requires
        s.len() <= capacity,
        offer_outcome(s, capacity, m, c, record, improves, after, evicted),
    ensures
        after.len() <= capacity,
{
    if !((exists|i: int| 0 <= i < s.len() && s[i].1 == c) && !improves) {
        let s1 = without_key(s, c);
        assert(s1.len() <= s.len());
    }
}

/// An offered record that is not turned away is held afterwards, unless it
/// ranks below every record held and the repository was full.
pub proof fn lemma_offer_keeps_record<R>(
    s: Seq<(i64, Seq<char>, R)>,
    capacity: usize,
    m: i64,
    c: Seq<char>,
    record: R,
    improves: bool,
    after: Seq<(i64, Seq<char>, R)>,
    evicted: Option<R>,
)
    requires
        ranked_ok(s),
        offer_outcome(s, capacity, m, c, record, improves, after, evicted),
        !(exists|i: int| 0 <= i < s.len() && s[i].1 == c) || improves,
        evicted is None,
    ensures
        after.contains((m, c, record)),
{
    let s1 = without_key(s, c);
    let j = choose|j: int|
        is_split(s1, m, c, j) && {
            let s2 = s1.insert(j, (m, c, record));
            if s2.len() > capacity {
                after == s2.drop_last() && evicted == Some(s2.last().2)
            } else {
                after == s2 && evicted is None
            }
        };
    assert(after[j] == (m, c, record));
}

/// Seconds since the Unix epoch by the system clock
/// (`SystemTime::now().duration_since(UNIX_EPOCH)`, then `as_secs`); a clock
/// set before the epoch reads as 0. The value depends on the clock, so
/// nothing is promised about it.
#[verifier::external_body]
pub fn now_epoch() -> u64 {
    match std::time::SystemTime::now().duration_since(std::time::UNIX_EPOCH) {
        Ok(d) => d.as_secs(),
        Err(_) => 0,
    }
}

/// One entry of the repository.
struct RepoEntry<R> {
    milli: i64,
    canonical: Vec<char>,
    record: R,
}

/// The best records found so far, at most one per canonical key, ranked by
/// rounded penalty then canonical key.
pub struct BestRepo<R> {
    /// The most records kept.
    pub capacity: usize,
    entries: Vec<RepoEntry<R>>,
}

impl<R> BestRepo<R> {
    /// The entries in rank order: rounded penalty, canonical key, record.
    pub closed spec fn ranked(&self) -> Seq<(i64, Seq<char>, R)> {
        self.entries@.map_values(|e: RepoEntry<R>| (e.milli, e.canonical@, e.record))
    }

    /// The most records kept.
    pub closed spec fn limit(&self) -> usize {
        self.capacity
    }

    /// The entries are in strict rank order with no key twice.
    pub open spec fn wf(&self) -> bool {
        ranked_ok(self.ranked())
    }

    /// An empty repository keeping at most `capacity` records.
    pub fn new(capacity: usize) -> (r: Self)
        ensures
            r.wf(),
            r.ranked() == Seq::<(i64, Seq<char>, R)>::empty(),
            r.limit() == capacity,
    {
        let r = BestRepo { capacity, entries: Vec::new() };
        assert(r.ranked() =~= Seq::<(i64, Seq<char>, R)>::empty());
        r
    }

    /// Number of records held.
    pub fn len(&self) -> (n: usize)
        ensures
            n == self.ranked().len(),
    {
        self.entries.len()
    }

    /// Whether no record is held.
    pub fn is_empty(&self) -> (b: bool)
        ensures
            b == (self.ranked().len() == 0),
    {
        self.entries.len() == 0
    }

    /// Index of the entry held under canonical key `c`.
    fn find(&self, c: &Vec<char>) -> (r: Option<usize>)
        ensures
            match r {
                Some(i) => i < self.ranked().len() && self.ranked()[i as int].1 == c@,
                None => forall|i: int| 0 <= i < self.ranked().len() ==> self.ranked()[i].1 != c@,
            },
    {
        let mut i: usize = 0;
        while i < self.entries.len()
            invariant
                i <= self.entries@.len(),
                forall|k: int| 0 <= k < i ==> self.ranked()[k].1 != c@,
            decreases self.entries.len() - i,
        {
            if chars_eq(self.entries[i].canonical.as_slice(), c.as_slice()) {
                return Some(i);
            }
            i += 1;
        }
        None
    }

    /// The record held under canonical key `canonical`, if any.
    pub fn get(&self, canonical: &str) -> (r: Option<&R>)
        ensures
            match r {
                Some(rec) => exists|i: int|
                    0 <= i < self.ranked().len() && self.ranked()[i].1 == canonical@ && self.ranked()[i].2 == *rec,
                None => forall|i: int| 0 <= i < self.ranked().len() ==> self.ranked()[i].1 != canonical@,
            },
    {
        let c = str_chars(canonical);
        match self.find(&c) {
            Some(i) => Some(&self.entries[i].record),
            None => None,
        }
    }

    /// Offers a record under canonical key `canonical`, ranked by `milli`.
    /// When the key is already held and `improves` is false, nothing
    /// changes. Otherwise the record replaces the one under its key (if any)
    /// and takes its place in rank order; when that leaves more than
    /// `capacity` records, the lowest-ranked one is removed and returned.
    pub fn offer(&mut self, canonical: &str, milli: i64, record: R, improves: bool) -> (evicted: Option<R>)
        requires
            old(self).wf(),
        ensures
            final(self).wf(),
            final(self).limit() == old(self).limit(),
            offer_outcome(
                old(self).ranked(),
                old(self).limit(),
                milli,
                canonical@,
                record,
                improves,
                final(self).ranked(),
                evicted,
            ),
    {
        let ghost s = self.ranked();
        let c = str_chars(canonical);
        let found = self.find(&c);
        if found.is_some() && !improves {
            return None;
        }
        match found {
            Some(i) => {
                self.entries.remove(i);
                proof {
                    assert(self.ranked() =~= s.remove(i as int));
                    assert(without_key(s, c@) == s.remove(i as int)) by {
                        let k = choose|k: int| 0 <= k < s.len() && s[k].1 == c@;
                        assert(k == i);
                    }
                }
            },
            None => {
                assert(without_key(s, c@) == s);
            },
        }
        let ghost s1 = self.ranked();
        assert(s1 == without_key(s, c@));
        assert(ranked_ok(s1)) by {
            assert forall|a: int, b: int| 0 <= a < b < s1.len() implies key_lt(s1[a].0, s1[a].1, s1[b].0, s1[b].1) by {
                if let Some(i) = found {
                    let pa = if a < i { a } else { a + 1 };
                    let pb = if b < i { b } else { b + 1 };
                    assert(s1[a] == s[pa] && s1[b] == s[pb]);
                }
            }
            assert forall|a: int, b: int| 0 <= a < s1.len() && 0 <= b < s1.len() && a != b implies s1[a].1 != s1[b].1 by {
                if let Some(i) = found {
                    let pa = if a < i { a } else { a + 1 };
                    let pb = if b < i { b } else { b + 1 };
                    assert(s1[a] == s[pa] && s1[b] == s[pb]);
                }
            }
        }
        assert(forall|k: int| 0 <= k < s1.len() ==> s1[k].1 != c@) by {
            if let Some(i) = found {
                assert forall|k: int| 0 <= k < s1.len() implies s1[k].1 != c@ by {
                    let pk = if k < i { k } else { k + 1 };
                    assert(s1[k] == s[pk]);
                }
            }
        }
        // find where the new entry goes
        let mut j: usize = 0;
        while j < self.entries.len()
            invariant
                self.ranked() == s1,
                j <= s1.len(),
                forall|k: int| 0 <= k < j ==> key_lt(s1[k].0, s1[k].1, milli, c@),
            ensures
                self.ranked() == s1,
                j <= s1.len(),
                forall|k: int| 0 <= k < j ==> key_lt(s1[k].0, s1[k].1, milli, c@),
                j < s1.len() ==> !key_lt(s1[j as int].0, s1[j as int].1, milli, c@),
            decreases self.entries.len() - j,
        {
            let e = &self.entries[j];
            let lower = e.milli < milli || (e.milli == milli && chars_lex_le(e.canonical.as_slice(), c.as_slice())
                && !chars_eq(e.canonical.as_slice(), c.as_slice()));
            if !lower {
                assert(s1[j as int].0 == e.milli && s1[j as int].1 == e.canonical@);
                break;
            }
            j += 1;
        }
        proof {
            assert forall|k: int| j <= k < s1.len() implies key_lt(milli, c@, s1[k].0, s1[k].1) by {
                assert(!key_lt(s1[j as int].0, s1[j as int].1, milli, c@));
                lemma_key_lt_total(milli, c@, s1[j as int].0, s1[j as int].1);
                if k > j {
                    lemma_key_lt_transitive(milli, c@, s1[j as int].0, s1[j as int].1, s1[k].0, s1[k].1);
                }
            }
            assert(is_split(s1, milli, c@, j as int));
        }
        self.entries.insert(j, RepoEntry { milli, canonical: c, record });
        let ghost s2 = s1.insert(j as int, (milli, c@, record));
        assert(self.ranked() =~= s2);
        assert(ranked_ok(s2)) by {
            assert forall|a: int, b: int| 0 <= a < b < s2.len() implies key_lt(s2[a].0, s2[a].1, s2[b].0, s2[b].1) by {
                if a < j && b > j {
                    lemma_key_lt_transitive(s2[a].0, s2[a].1, milli, c@, s2[b].0, s2[b].1);
                }
            }
        }
        if self.entries.len() > self.capacity {
            let last = self.entries.pop();
            match last {
                Some(e) => {
                    assert(self.ranked() =~= s2.drop_last());
                    return Some(e.record);
                },
                None => {
                    return None;
                },
            }
        }
        None
    }

    /// The best records, in rank order, at most `capacity` of them.
    pub fn top(&self) -> (r: Vec<&R>)
        ensures
            r@.len() == if self.ranked().len() < self.limit() {
                self.ranked().len()
            } else {
                self.limit() as nat
            },
            forall|i: int| 0 <= i < r@.len() ==> *r@[i] == self.ranked()[i].2,
    {
        let mut r: Vec<&R> = Vec::new();
        let mut i: usize = 0;
        while i < self.entries.len() && i < self.capacity
            invariant
                i <= self.entries@.len(),
                i <= self.capacity,
                r@.len() == i,
                forall|k: int| 0 <= k < i ==> *r@[k] == self.ranked()[k].2,
            decreases self.entries.len() - i,
        {
            r.push(&self.entries[i].record);
            i += 1;
        }
        r
    }
}

/// The `n` little-endian bytes of `v`.
pub open spec fn le_bytes(v: nat, n: nat) -> Seq<u8>
    decreases n,
{
    if n == 0 {
        Seq::empty()
    } else {
        seq![(v % 256) as u8] + le_bytes(v / 256, (n - 1) as nat)
    }
}

/// Lower-case hexadecimal digit of `d` (0..16).
pub open spec fn hex_digit(d: int) -> char {
    if d < 10 {
        (48 + d) as char
    } else {
        (87 + d) as char
    }
}

/// Lower-case hexadecimal encoding of bytes, two digits per byte, high
/// nibble first.
pub open spec fn hex_lower(bytes: Seq<u8>) -> Seq<char>
    decreases bytes.len(),
{
    if bytes.len() == 0 {
        Seq::empty()
    } else {
        hex_lower(bytes.drop_last()) + seq![hex_digit(bytes.last() as int / 16), hex_digit(bytes.last() as int % 16)]
    }
}

/// Name for the 32 bytes of the BLAKE3 hash of `data`, as computed by
/// `blake3::hash`.
pub uninterp spec fn blake3_digest(data: Seq<u8>) -> Seq<u8>;

/// `blake3::hash(data)`, taken as its 32 raw bytes (`Hash::as_bytes`); the
/// bytes are named by `blake3_digest`.
#[verifier::external_body]
fn blake3_hash(data: &[u8]) -> (h: [u8; 32])
    ensures
        h@ == blake3_digest(data@),
{
    *blake3::hash(data).as_bytes()
}

/// blake3's `Hash::to_hex` on the hash with raw bytes `bytes`: two
/// lower-case hexadecimal digits per byte, high nibble first.
#[verifier::external_body]
fn hash_to_hex(bytes: &[u8; 32]) -> (s: String)
    ensures
        s@ == hex_lower(bytes@),
{
    blake3::Hash::from_bytes(*bytes).to_hex().to_string()
}

/// Lexicographic order of quartads.
pub open spec fn quartad_lt(a: [u8; 4], b: [u8; 4]) -> bool {
    a@[0] < b@[0] || (a@[0] == b@[0] && (a@[1] < b@[1] || (a@[1] == b@[1] && (a@[2] < b@[2] || (a@[2] == b@[2]
        && a@[3] < b@[3])))))
}

/// std's `slice::sort_unstable` on quartads: the same quartads, in
/// ascending order (arrays compare lexicographically).
#[verifier::external_body]
fn sort_quartads(v: &mut Vec<[u8; 4]>)
    ensures
        final(v)@.to_multiset() == old(v)@.to_multiset(),
        forall|i: int, j: int| 0 <= i < j < final(v)@.len() ==> !quartad_lt(final(v)@[j], final(v)@[i]),
{
    v.sort_unstable();
}

/// The bytes fed to the hash for the quartad counts: each quartad in turn,
/// its four bytes and then its count as 8 little-endian bytes.
pub open spec fn quartad_frame(keys: Seq<[u8; 4]>, counts: Map<[u8; 4], usize>) -> Seq<u8>
    decreases keys.len(),
{
    if keys.len() == 0 {
        Seq::empty()
    } else {
        quartad_frame(keys.drop_last(), counts) + keys.last()@ + le_bytes(counts[keys.last()] as nat, 8)
    }
}

/// The bytes fed to the hash for the first `n` letter counts, 8
/// little-endian bytes each.
pub open spec fn monogram_frame(m: Seq<usize>, n: int) -> Seq<u8>
    decreases n,
{
    if n <= 0 {
        Seq::empty()
    } else {
        monogram_frame(m, n - 1) + le_bytes(m[n - 1] as nat, 8)
    }
}

/// All the bytes fed to the hash for a corpus fingerprint.
pub open spec fn fingerprint_message(
    keys: Seq<[u8; 4]>,
    counts: Map<[u8; 4], usize>,
    monograms: Seq<usize>,
    letters_len: usize,
) -> Seq<u8> {
    quartad_frame(keys, counts) + monogram_frame(monograms, 26) + le_bytes(letters_len as nat, 8)
}

/// `keys` lists the quartads of `counts` once each, in increasing order.
pub open spec fn sorted_keys_of(keys: Seq<[u8; 4]>, counts: Map<[u8; 4], usize>) -> bool {
    &&& forall|i: int, j: int| 0 <= i < j < keys.len() ==> quartad_lt(keys[i], keys[j])
    &&& forall|q: [u8; 4]| keys.contains(q) <==> counts.contains_key(q)
}

/// Two increasing listings of the same quartads are the same listing, so a
/// fingerprint depends only on the statistics, not on the order in which
/// the quartads were counted.
pub proof fn lemma_sorted_keys_unique(a: Seq<[u8; 4]>, b: Seq<[u8; 4]>, counts: Map<[u8; 4], usize>)
    requires
        sorted_keys_of(a, counts),
        sorted_keys_of(b, counts),
    ensures
        a == b,
    decreases a.len(),
{
    if a.len() == 0 {
        if b.len() > 0 {
            assert(b.contains(b[0]));
            assert(counts.contains_key(b[0]));
            assert(a.contains(b[0]));
        }
        assert(a =~= b);
    } else if b.len() == 0 {
        assert(a.contains(a[0]));
        assert(counts.contains_key(a[0]));
        assert(b.contains(a[0]));
    } else {
        let x = a.last();
        let y = b.last();
        assert(a.contains(x));
        assert(b.contains(y));
        assert(counts.contains_key(x));
        assert(counts.contains_key(y));
        // the last element is the largest of the set
        if x != y {
            assert(b.contains(x));
            assert(a.contains(y));
            let ix = choose|i: int| 0 <= i < b.len() && b[i] == x;
            let iy = choose|i: int| 0 <= i < a.len() && a[i] == y;
            assert(quartad_lt(x, y) || ix == b.len() - 1);
            assert(quartad_lt(y, x) || iy == a.len() - 1);
            assert(!(quartad_lt(x, y) && quartad_lt(y, x)));
        }
        let rest = counts.remove(x);
        let a1 = a.drop_last();
        let b1 = b.drop_last();
        lemma_drop_last_keys(a, counts);
        lemma_drop_last_keys(b, counts);
        lemma_sorted_keys_unique(a1, b1, rest);
        assert(a =~= a1.push(x));
        assert(b =~= b1.push(y));
    }
}

/// Dropping the largest quartad from an increasing listing lists the rest.
proof fn lemma_drop_last_keys(a: Seq<[u8; 4]>, counts: Map<[u8; 4], usize>)
    requires
        sorted_keys_of(a, counts),
        a.len() > 0,
    ensures
        sorted_keys_of(a.drop_last(), counts.remove(a.last())),
{
    let x = a.last();
    let a1 = a.drop_last();
    let rest = counts.remove(x);
    assert forall|q: [u8; 4]| a1.contains(q) <==> rest.contains_key(q) by {
        if a1.contains(q) {
            let i = choose|i: int| 0 <= i < a1.len() && a1[i] == q;
            assert(a[i] == q);
            assert(a.contains(q));
            assert(quartad_lt(a[i], a[a.len() - 1]));
            assert(q != x);
        }
        if rest.contains_key(q) {
            assert(counts.contains_key(q));
            assert(a.contains(q));
            let i = choose|i: int| 0 <= i < a.len() && a[i] == q;
            assert(i != a.len() - 1);
            assert(a1[i] == q);
        }
    }
}

/// Appends the 8 little-endian bytes of `v`.
fn push_le_u64(out: &mut Vec<u8>, v: u64)
    ensures
        final(out)@ == old(out)@ + le_bytes(v as nat, 8),
{
    let ghost start = out@;
    let mut x: u64 = v;
    for k in 0..8usize
        invariant
            out@ + le_bytes(x as nat, (8 - k) as nat) == start + le_bytes(v as nat, 8),
    {
        assert(le_bytes(x as nat, (8 - k) as nat) == seq![(x % 256) as u8] + le_bytes((x / 256) as nat, (
        8 - k - 1) as nat));
        out.push((x % 256) as u8);
        x = x / 256;
        assert(out@ + le_bytes(x as nat, (8 - (k + 1)) as nat) =~= start + le_bytes(v as nat, 8));
    }
    assert(out@ =~= start + le_bytes(v as nat, 8));
}

/// Fingerprint of corpus statistics: the BLAKE3 hash, in hexadecimal, of
/// the quartads in increasing order (each followed by its count), the 26
/// letter counts and the letter total, every number as 8 little-endian
/// bytes. Equal statistics give equal fingerprints whatever order the
/// quartads were counted in.
pub fn corpus_fingerprint(quartads: &QuartadCounts, monograms: &[usize; 26], letters_len: usize) -> (s: String)
    ensures
        exists|keys: Seq<[u8; 4]>|
            sorted_keys_of(keys, quartads.view()) && s@ == hex_lower(
                blake3_digest(fingerprint_message(keys, quartads.view(), monograms@, letters_len)),
            ),
{
    broadcast use vstd::seq_lib::group_to_multiset_ensures;
    let entries = quartads.entries();
    let mut keys: Vec<[u8; 4]> = Vec::new();
    for i in 0..entries.len()
        invariant
            keys@ == entries@.take(i as int).map_values(|e: ([u8; 4], usize)| e.0),
    {
        keys.push(entries[i].0);
        assert(keys@ =~= entries@.take(i + 1).map_values(|e: ([u8; 4], usize)| e.0));
    }
    assert(entries@.take(entries@.len() as int) =~= entries@);
    let ghost unsorted = keys@;
    sort_quartads(&mut keys);
    let ghost ks = keys@;
    proof {
        assert(unsorted.no_duplicates());
        unsorted.lemma_multiset_has_no_duplicates();
        assert forall|q: [u8; 4]| #[trigger] ks.contains(q) <==> quartads.view().contains_key(q) by {
            assert(ks.contains(q) <==> ks.to_multiset().count(q) > 0);
            assert(unsorted.contains(q) <==> unsorted.to_multiset().count(q) > 0);
            if unsorted.contains(q) {
                let i = choose|i: int| 0 <= i < unsorted.len() && unsorted[i] == q;
                assert(entries@[i].0 == q);
            }
            if quartads.view().contains_key(q) {
                let i = choose|i: int| 0 <= i < entries@.len() && entries@[i].0 == q;
                assert(unsorted[i] == q);
            }
        }
        assert forall|x: [u8; 4]| ks.to_multiset().contains(x) implies ks.to_multiset().count(x) == 1 by {}
        ks.lemma_multiset_has_no_duplicates_conv();
        assert forall|i: int, j: int| 0 <= i < j < ks.len() implies quartad_lt(ks[i], ks[j]) by {
            assert(!quartad_lt(ks[j], ks[i]));
            assert(ks[i] != ks[j]);
            if !quartad_lt(ks[i], ks[j]) {
                assert(ks[i] =~= ks[j]);
            }
        }
    }
    let mut msg: Vec<u8> = Vec::new();
    for i in 0..keys.len()
        invariant
            ks == keys@,
            forall|q: [u8; 4]| #[trigger] ks.contains(q) <==> quartads.view().contains_key(q),
            msg@ == quartad_frame(ks.take(i as int), quartads.view()),
    {
        let q = keys[i];
        assert(ks.contains(q));
        let n = match quartads.get(&q) {
            Some(n) => *n,
            None => 0,
        };
        assert(ks.take(i + 1).drop_last() =~= ks.take(i as int));
        msg.push(q[0]);
        msg.push(q[1]);
        msg.push(q[2]);
        msg.push(q[3]);
        push_le_u64(&mut msg, n as u64);
        assert(msg@ =~= quartad_frame(ks.take(i + 1), quartads.view()));
    }
    assert(ks.take(ks.len() as int) =~= ks);
    for k in 0..26usize
        invariant
            msg@ == quartad_frame(ks, quartads.view()) + monogram_frame(monograms@, k as int),
    {
        push_le_u64(&mut msg, monograms[k] as u64);
        assert(msg@ =~= quartad_frame(ks, quartads.view()) + monogram_frame(monograms@, k + 1));
    }
    push_le_u64(&mut msg, letters_len as u64);
    assert(msg@ =~= fingerprint_message(ks, quartads.view(), monograms@, letters_len));
    assert(sorted_keys_of(ks, quartads.view()));
    let digest = blake3_hash(msg.as_slice());
    hash_to_hex(&digest)
}

} // verus!
