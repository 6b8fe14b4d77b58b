//! Reading back the workers' event logs: each line holds comma-separated
//! fields `ts,worker_id,iter,event_type,penalty,swaps_used,delta_to_prev`.
use vstd::prelude::*;
use crate::duration::{parse_u64, spec_parse_u64};
use crate::symmetry::chars_eq;
use crate::text::{str_chars, string_from_chars};

verus! {

/// The comma-separated fields of `s`, as `str::split(',')` gives them:
/// always at least one, possibly empty.
pub open spec fn split_fields(s: Seq<char>) -> Seq<Seq<char>>
    decreases s.len(),
{
    if s.len() == 0 {
        seq![Seq::empty()]
    } else {
        let prev = split_fields(s.drop_last());
        if s.last() == ',' {
            prev.push(Seq::empty())
        } else {
            prev.update(prev.len() - 1, prev.last().push(s.last()))
        }
    }
}

/// How std's `usize::from_str` reads `s`.
pub open spec fn spec_parse_usize(s: Seq<char>) -> Option<usize> {
    match spec_parse_u64(s) {
        Some(v) => if v <= usize::MAX {
            Some(v as usize)
        } else {
            None
        },
        None => None,
    }
}

/// What an event line says of an accepted move: for a line of at least
/// seven fields whose fourth is `accepted` and whose sixth reads as a
/// number, that number of swaps and the text of the seventh field (the
/// penalty change); nothing otherwise.
pub open spec fn accepted_event(line: Seq<char>) -> Option<(usize, Seq<char>)> {
    let f = split_fields(line);
    if f.len() >= 7 && f[3] == "accepted"@ {
        match spec_parse_usize(f[5]) {
            Some(n) => Some((n, f[6])),
            None => None,
        }
    } else {
        None
    }
}

/// The views of a list of character vectors.
pub open spec fn views(v: Seq<Vec<char>>) -> Seq<Seq<char>> {
    v.map_values(|f: Vec<char>| f@)
}

/// Splits `s` at every comma.
pub fn split_commas(s: &str) -> (fields: Vec<Vec<char>>)
    ensures
        views(fields@) == split_fields(s@),
{
    let chars = str_chars(s);
    let mut fields: Vec<Vec<char>> = Vec::new();
    fields.push(Vec::new());
    assert(views(fields@) =~= split_fields(chars@.take(0)));
    for i in 0..chars.len()
        invariant
            chars@ == s@,
            views(fields@) == split_fields(chars@.take(i as int)),
            fields@.len() >= 1,
    {
        let c = chars[i];
        let ghost before = views(fields@);
        assert(chars@.take(i + 1).drop_last() =~= chars@.take(i as int));
        assert(chars@.take(i + 1).last() == c);
        if c == ',' {
            fields.push(Vec::new());
            assert(views(fields@) =~= before.push(Seq::empty()));
        } else {
            let mut last = match fields.pop() {
                Some(f) => f,
                None => Vec::new(),
            };
            last.push(c);
            fields.push(last);
            assert(views(fields@) =~= before.update(before.len() - 1, before.last().push(c)));
        }
    }
    assert(chars@.take(chars@.len() as int) =~= chars@);
    fields
}

/// Reads a whole `usize` the way std's `usize::from_str` does.
pub fn parse_usize(s: &[char]) -> (r: Option<usize>)
    ensures
        r == spec_parse_usize(s@),
{
    match parse_u64(s) {
        Some(v) => if v <= usize::MAX as u64 {
            Some(v as usize)
        } else {
            None
        },
        None => None,
    }
}

/// The swaps used and the penalty-change text of an accepted move, read
/// from one event line; `None` for any other line.
pub fn parse_accepted_event(line: &str) -> (r: Option<(usize, String)>)
    ensures
        match r {
            Some((n, delta)) => accepted_event(line@) == Some((n, delta@)),
            None => accepted_event(line@) is None,
        },
{
    let fields = split_commas(line);
    if fields.len() < 7 {
        return None;
    }
    let accepted = str_chars("accepted");
    assert(views(fields@)[3] == fields@[3]@);
    if !chars_eq(fields[3].as_slice(), accepted.as_slice()) {
        return None;
    }
    assert(views(fields@)[5] == fields@[5]@);
    assert(views(fields@)[6] == fields@[6]@);
    match parse_usize(fields[5].as_slice()) {
        Some(n) => Some((n, string_from_chars(fields[6].as_slice()))),
        None => None,
    }
}

} // verus!
