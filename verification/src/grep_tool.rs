//! Line search: the lines of a text that contain a query, with an optional
//! case-insensitive variant.

use vstd::prelude::*;

verus! {

pub struct Config<'a> {
    pub query: &'a String,
    pub filename: &'a String,
    pub case_sensitive: bool,
}

/// The needle occurs contiguously in the haystack.
pub open spec fn is_substring(needle: Seq<char>, hay: Seq<char>) -> bool {
    exists|i: int|
        0 <= i && i + needle.len() <= hay.len() && #[trigger] hay.subrange(i, i + needle.len())
            == needle
}

/// The lowercase form of a character sequence, as `str::to_lowercase`
/// computes it.
pub uninterp spec fn lower_of(s: Seq<char>) -> Seq<char>;

/// First position of `c`, or -1 when `c` does not occur.
pub open spec fn find_char(s: Seq<char>, c: char) -> int
    decreases s.len(),
{
    if s.len() == 0 {
        -1
    } else if s[0] == c {
        0
    } else {
        let r = find_char(s.drop_first(), c);
        if r < 0 {
            -1
        } else {
            r + 1
        }
    }
}

proof fn lemma_find_char_range(s: Seq<char>, c: char)
    ensures
        find_char(s, c) >= 0 ==> find_char(s, c) < s.len() && s[find_char(s, c)] == c,
    decreases s.len(),
{
    if s.len() > 0 && s[0] != c {
        lemma_find_char_range(s.drop_first(), c);
    }
}

/// One line as stored: a trailing carriage return before the split point is
/// dropped.
pub open spec fn strip_cr(l: Seq<char>) -> Seq<char> {
    if l.len() > 0 && l.last() == '\r' {
        l.drop_last()
    } else {
        l
    }
}

/// The lines of a text: split at each '\n', dropping one '\r' just before
/// it; the final line ending is optional.
pub open spec fn spec_lines(s: Seq<char>) -> Seq<Seq<char>>
    decreases s.len(),
    via spec_lines_decreases
{
    if s.len() == 0 {
        Seq::empty()
    } else {
        let i = find_char(s, '\n');
        if i < 0 {
            seq![s]
        } else {
            seq![strip_cr(s.take(i))] + spec_lines(s.skip(i + 1))
        }
    }
}

#[via_fn]
proof fn spec_lines_decreases(s: Seq<char>) {
    lemma_find_char_range(s, '\n');
}

/// Relies on str::lines: the text split at each '\n', one '\r' dropped just
/// before it, the final line ending optional.
#[verifier::external_body]
fn str_lines<'a>(s: &'a str) -> (r: Vec<&'a str>)
    ensures
        r@.len() == spec_lines(s@).len(),
        forall|i: int| 0 <= i < r@.len() ==> (#[trigger] r@[i])@ == spec_lines(s@)[i],
{
    s.lines().collect()
}

/// Relies on str::contains: whether the pattern occurs as a substring.
#[verifier::external_body]
fn str_contains(hay: &str, needle: &str) -> (r: bool)
    ensures
        r == is_substring(needle@, hay@),
{
    hay.contains(needle)
}

/// Relies on str::to_lowercase: the result depends on the characters alone.
#[verifier::external_body]
fn str_to_lowercase(s: &str) -> (r: String)
    ensures
        r@ == lower_of(s@),
{
    s.to_lowercase()
}

/// The lines of `contents` that contain `query`, in order.
pub fn search<'a>(query: &str, contents: &'a str) -> (r: Vec<&'a str>)
    ensures
        r@.map_values(|t: &str| t@) == spec_lines(contents@).filter(
            |l: Seq<char>| is_substring(query@, l),
        ),
{
    broadcast use vstd::seq_lib::group_filter_ensures;

    let ghost all = spec_lines(contents@);
    let ghost pred = |l: Seq<char>| is_substring(query@, l);
    let lines = str_lines(contents);
    let mut results: Vec<&'a str> = Vec::new();
    let n = lines.len();
    proof {
        assert(all.take(0) =~= Seq::<Seq<char>>::empty());
        assert(results@.map_values(|t: &str| t@) =~= all.take(0).filter(pred));
    }
    for idx in 0..n
        invariant
            all == spec_lines(contents@),
            pred == (|l: Seq<char>| is_substring(query@, l)),
            n == lines@.len(),
            n == all.len(),
            forall|i: int| 0 <= i < n ==> (#[trigger] lines@[i])@ == all[i],
            results@.map_values(|t: &str| t@) == all.take(idx as int).filter(pred),
    {
        let line = lines[idx];
        proof {
            assert(all.take(idx + 1) =~= all.take(idx as int).push(all[idx as int]));
        }
        if str_contains(line, query) {
            results.push(line);
            proof {
                all.take(idx as int).lemma_filter_push(all[idx as int], pred);
                assert(results@.map_values(|t: &str| t@) =~= all.take(idx as int).filter(
                    pred,
                ).push(all[idx as int]));
                assert(results@.map_values(|t: &str| t@) =~= all.take(idx + 1).filter(pred));
            }
        } else {
            proof {
                all.take(idx as int).lemma_filter_push(all[idx as int], pred);
                assert(results@.map_values(|t: &str| t@) =~= all.take(idx + 1).filter(pred));
            }
        }
    }
    proof {
        assert(all.take(n as int) =~= all);
    }
    results
}

/// The lines of `contents` whose lowercase form contains the lowercase form
/// of `query`, in order.
pub fn search_case_insensitive<'a>(query: &str, contents: &'a str) -> (r: Vec<&'a str>)
    ensures
        r@.map_values(|t: &str| t@) == spec_lines(contents@).filter(
            |l: Seq<char>| is_substring(lower_of(query@), lower_of(l)),
        ),
{
    broadcast use vstd::seq_lib::group_filter_ensures;

    let ghost all = spec_lines(contents@);
    let ghost pred = |l: Seq<char>| is_substring(lower_of(query@), lower_of(l));
    let lowered = str_to_lowercase(query);
    let lines = str_lines(contents);
    let mut results: Vec<&'a str> = Vec::new();
    let n = lines.len();
    proof {
        assert(all.take(0) =~= Seq::<Seq<char>>::empty());
        assert(results@.map_values(|t: &str| t@) =~= all.take(0).filter(pred));
    }
    for idx in 0..n
        invariant
            all == spec_lines(contents@),
            pred == (|l: Seq<char>| is_substring(lower_of(query@), lower_of(l))),
            lowered@ == lower_of(query@),
            n == lines@.len(),
            n == all.len(),
            forall|i: int| 0 <= i < n ==> (#[trigger] lines@[i])@ == all[i],
            results@.map_values(|t: &str| t@) == all.take(idx as int).filter(pred),
    {
        let line = lines[idx];
        let lowered_line = str_to_lowercase(line);
        proof {
            assert(all.take(idx + 1) =~= all.take(idx as int).push(all[idx as int]));
        }
        if str_contains(lowered_line.as_str(), lowered.as_str()) {
            results.push(line);
            proof {
                all.take(idx as int).lemma_filter_push(all[idx as int], pred);
                assert(results@.map_values(|t: &str| t@) =~= all.take(idx as int).filter(
                    pred,
                ).push(all[idx as int]));
                assert(results@.map_values(|t: &str| t@) =~= all.take(idx + 1).filter(pred));
            }
        } else {
            proof {
                all.take(idx as int).lemma_filter_push(all[idx as int], pred);
                assert(results@.map_values(|t: &str| t@) =~= all.take(idx + 1).filter(pred));
            }
        }
    }
    proof {
        assert(all.take(n as int) =~= all);
    }
    results
}

} // verus!
