//! Merging result files: records made from different corpora or different
//! penalty weights are not comparable, so they are merged only on request.
use vstd::prelude::*;
use crate::symmetry::chars_eq;
use crate::text::{decimal, push_decimal, push_str, str_chars, string_from_chars};

verus! {

/// The (corpus, config) fingerprint pairs, as character sequences.
pub open spec fn pair_views(pairs: Seq<(String, String)>) -> Seq<(Seq<char>, Seq<char>)> {
    pairs.map_values(|p: (String, String)| (p.0@, p.1@))
}

/// The distinct (corpus, config) fingerprint combinations among `pairs`.
pub open spec fn combinations(pairs: Seq<(String, String)>) -> Set<(Seq<char>, Seq<char>)> {
    pair_views(pairs).to_set()
}

/// The error for `n` combinations merged without `force`.
pub open spec fn mixed_error(n: nat) -> Seq<char> {
    "Found "@ + decimal(n) + " different corpus/config combinations. Use --force to merge anyway."@
}

/// The warning for `n` combinations merged with `force`.
pub open spec fn mixed_warning(n: nat) -> Seq<char> {
    "Warning: Merging results from "@ + decimal(n) + " different corpus/config combinations"@
}

/// The error for `n` combinations, as a string.
fn mixed_error_message(n: usize) -> (s: String)
    ensures
        s@ == mixed_error(n as nat),
{
    let mut out: Vec<char> = Vec::new();
    push_str(&mut out, "Found ");
    push_decimal(&mut out, n);
    push_str(&mut out, " different corpus/config combinations. Use --force to merge anyway.");
    assert(out@ =~= mixed_error(n as nat));
    string_from_chars(out.as_slice())
}

/// The warning for `n` combinations, as a string.
fn mixed_warning_message(n: usize) -> (s: String)
    ensures
        s@ == mixed_warning(n as nat),
{
    let mut out: Vec<char> = Vec::new();
    push_str(&mut out, "Warning: Merging results from ");
    push_decimal(&mut out, n);
    push_str(&mut out, " different corpus/config combinations");
    assert(out@ =~= mixed_warning(n as nat));
    string_from_chars(out.as_slice())
}

/// The views of stored pairs of character vectors.
spec fn seen_views(seen: Seq<(Vec<char>, Vec<char>)>) -> Seq<(Seq<char>, Seq<char>)> {
    seen.map_values(|e: (Vec<char>, Vec<char>)| (e.0@, e.1@))
}

/// Number of distinct (corpus, config) fingerprint combinations.
pub fn count_combinations(pairs: &[(String, String)]) -> (n: usize)
    ensures
        n == combinations(pairs@).len(),
{
    let mut seen: Vec<(Vec<char>, Vec<char>)> = Vec::new();
    assert(pair_views(pairs@.take(0)).to_set() =~= seen_views(seen@).to_set());
    for i in 0..pairs.len()
        invariant
            seen_views(seen@).no_duplicates(),
            seen_views(seen@).to_set() == pair_views(pairs@.take(i as int)).to_set(),
            seen@.len() <= i,
    {
        let a = str_chars(pairs[i].0.as_str());
        let b = str_chars(pairs[i].1.as_str());
        let ghost pv = (a@, b@);
        let ghost sv = seen_views(seen@);
        assert(pair_views(pairs@.take(i + 1)) =~= pair_views(pairs@.take(i as int)).push(pv));
        let mut found = false;
        let mut k: usize = 0;
        while k < seen.len()
            invariant_except_break
                !found,
            invariant
                sv == seen_views(seen@),
                pv == (a@, b@),
                k <= seen@.len(),
                forall|t: int| 0 <= t < k ==> sv[t] != pv,
            ensures
                found ==> sv.contains(pv),
                !found ==> forall|t: int| 0 <= t < sv.len() ==> sv[t] != pv,
            decreases seen.len() - k,
        {
            if chars_eq(seen[k].0.as_slice(), a.as_slice()) && chars_eq(seen[k].1.as_slice(), b.as_slice()) {
                assert(sv[k as int] == pv);
                found = true;
                break;
            }
            k += 1;
        }
        proof {
            pair_views(pairs@.take(i as int)).lemma_push_to_set_commute(pv);
            sv.lemma_push_to_set_commute(pv);
        }
        if found {
            assert(sv.to_set().insert(pv) =~= sv.to_set());
        } else {
            seen.push((a, b));
            assert(seen_views(seen@) =~= sv.push(pv));
        }
    }
    assert(pairs@.take(pairs@.len() as int) =~= pairs@);
    proof {
        seen_views(seen@).unique_seq_to_set();
    }
    seen.len()
}

/// Whether records with these fingerprint pairs may be merged: with at most
/// one combination, yes, silently; with more, only under `force`, and then
/// with a warning; otherwise an error naming the number of combinations.
pub fn check_fingerprints(pairs: &[(String, String)], force: bool) -> (r: Result<Option<String>, String>)
    ensures
        ({
            let n = combinations(pairs@).len();
            if n <= 1 {
                r matches Ok(None)
            } else if !force {
                r matches Err(m) && m@ == mixed_error(n)
            } else {
                r matches Ok(Some(w)) && w@ == mixed_warning(n)
            }
        }),
{
    let n = count_combinations(pairs);
    if n > 1 {
        if !force {
            Err(mixed_error_message(n))
        } else {
            Ok(Some(mixed_warning_message(n)))
        }
    } else {
        Ok(None)
    }
}

} // verus!
