//! Trusted boundary around `indexmap::IndexMap`, the insertion-ordered map
//! that the codec keeps its tables in.
//!
//! Each map instantiation is modelled by an uninterpreted sequence of
//! key/value pairs in insertion order; the wrappers below state, over that
//! sequence, what the `indexmap` methods do.

use vstd::prelude::*;

use indexmap::IndexMap;

verus! {

#[verifier::external_type_specification]
#[verifier::external_body]
#[verifier::reject_recursive_types(K)]
#[verifier::reject_recursive_types(V)]
#[verifier::reject_recursive_types(S)]
pub struct ExIndexMap<K, V, S>(IndexMap<K, V, S>);

/// Index of the first entry with key `k`, or -1 when no entry has that key.
pub open spec fn entries_find<V>(s: Seq<(u8, V)>, k: u8) -> int
    decreases s.len(),
{
    if s.len() == 0 {
        -1
    } else if s[0].0 == k {
        0
    } else {
        let r = entries_find(s.drop_first(), k);
        if r < 0 {
            -1
        } else {
            r + 1
        }
    }
}

pub open spec fn entries_has_key<V>(s: Seq<(u8, V)>, k: u8) -> bool {
    entries_find(s, k) >= 0
}

/// What `entries_find` returns: either a witness for the first entry with
/// key `k`, or the absence of any such entry.
pub proof fn lemma_entries_find<V>(s: Seq<(u8, V)>, k: u8)
    ensures
        entries_find(s, k) >= 0 ==> {
            let i = entries_find(s, k);
            &&& i < s.len()
            &&& s[i].0 == k
            &&& forall|j: int| 0 <= j < i ==> s[j].0 != k
        },
        entries_find(s, k) < 0 ==> forall|j: int| 0 <= j < s.len() ==> s[j].0 != k,
    decreases s.len(),
{
    if s.len() > 0 && s[0].0 != k {
        lemma_entries_find(s.drop_first(), k);
        assert(forall|j: int| 1 <= j < s.len() ==> s[j] == s.drop_first()[j - 1]);
    }
}

// ---------------------------------------------------------------------------
// Frequency table: byte -> occurrence count.
// ---------------------------------------------------------------------------

/// The entries of a byte-to-count map, in insertion order.
pub uninterp spec fn hist_entries(m: IndexMap<u8, u32>) -> Seq<(u8, u32)>;

/// Relies on `IndexMap::new`: a fresh map has no entries.
#[verifier::external_body]
pub fn hist_new() -> (r: IndexMap<u8, u32>)
    ensures
        hist_entries(r) == Seq::<(u8, u32)>::empty(),
{
    IndexMap::new()
}

/// Relies on `IndexMap::len`: the number of entries.
#[verifier::external_body]
pub fn hist_len(m: &IndexMap<u8, u32>) -> (r: usize)
    ensures
        r == hist_entries(*m).len(),
{
    m.len()
}

/// Relies on `IndexMap::get`: the value stored under an equivalent key.
#[verifier::external_body]
pub fn hist_get(m: &IndexMap<u8, u32>, k: u8) -> (r: Option<u32>)
    ensures
        ({
            let s = hist_entries(*m);
            if entries_find(s, k) >= 0 {
                r == Some(s[entries_find(s, k)].1)
            } else {
                r is None
            }
        }),
{
    m.get(&k).copied()
}

/// Relies on `IndexMap::get_index`: the pair at a given position in
/// insertion order.
#[verifier::external_body]
pub fn hist_get_index(m: &IndexMap<u8, u32>, i: usize) -> (r: Option<(u8, u32)>)
    ensures
        i < hist_entries(*m).len() ==> r == Some(hist_entries(*m)[i as int]),
        i >= hist_entries(*m).len() ==> r is None,
{
    m.get_index(i).map(|(k, v)| (*k, *v))
}

/// Relies on `IndexMap::insert`: an existing key keeps its position and gets
/// the new value; a new key is appended at the end.
#[verifier::external_body]
pub fn hist_insert(m: &mut IndexMap<u8, u32>, k: u8, v: u32) -> (r: Option<u32>)
    ensures
        ({
            let s = hist_entries(*old(m));
            let t = hist_entries(*final(m));
            let i = entries_find(s, k);
            if i >= 0 {
                t == s.update(i, (k, v)) && r == Some(s[i].1)
            } else {
                t == s.push((k, v)) && r is None
            }
        }),
{
    m.insert(k, v)
}

// ---------------------------------------------------------------------------
// Length table: byte -> code length in bits.
// ---------------------------------------------------------------------------

/// The entries of a byte-to-length map, in insertion order.
pub uninterp spec fn len_entries(m: IndexMap<u8, usize>) -> Seq<(u8, usize)>;

/// Relies on `IndexMap::new`: a fresh map has no entries.
#[verifier::external_body]
pub fn lens_new() -> (r: IndexMap<u8, usize>)
    ensures
        len_entries(r) == Seq::<(u8, usize)>::empty(),
{
    IndexMap::new()
}

/// Relies on `IndexMap::len`: the number of entries.
#[verifier::external_body]
pub fn lens_len(m: &IndexMap<u8, usize>) -> (r: usize)
    ensures
        r == len_entries(*m).len(),
{
    m.len()
}

/// Relies on `IndexMap::get`: the value stored under an equivalent key.
#[verifier::external_body]
pub fn lens_get(m: &IndexMap<u8, usize>, k: u8) -> (r: Option<usize>)
    ensures
        ({
            let s = len_entries(*m);
            if entries_find(s, k) >= 0 {
                r == Some(s[entries_find(s, k)].1)
            } else {
                r is None
            }
        }),
{
    m.get(&k).copied()
}

/// Relies on `IndexMap::get_index`: the pair at a given position in
/// insertion order.
#[verifier::external_body]
pub fn lens_get_index(m: &IndexMap<u8, usize>, i: usize) -> (r: Option<(u8, usize)>)
    ensures
        i < len_entries(*m).len() ==> r == Some(len_entries(*m)[i as int]),
        i >= len_entries(*m).len() ==> r is None,
{
    m.get_index(i).map(|(k, v)| (*k, *v))
}

/// Relies on `IndexMap::insert`: an existing key keeps its position and gets
/// the new value; a new key is appended at the end.
#[verifier::external_body]
pub fn lens_insert(m: &mut IndexMap<u8, usize>, k: u8, v: usize) -> (r: Option<usize>)
    ensures
        ({
            let s = len_entries(*old(m));
            let t = len_entries(*final(m));
            let i = entries_find(s, k);
            if i >= 0 {
                t == s.update(i, (k, v)) && r == Some(s[i].1)
            } else {
                t == s.push((k, v)) && r is None
            }
        }),
{
    m.insert(k, v)
}

// ---------------------------------------------------------------------------
// Code book: byte -> canonical code as a string of '0' and '1'.
// ---------------------------------------------------------------------------

/// The entries of a byte-to-code map, in insertion order, each code viewed
/// as its character sequence.
pub uninterp spec fn book_entries(m: IndexMap<u8, String>) -> Seq<(u8, Seq<char>)>;

/// Relies on `IndexMap::new`: a fresh map has no entries.
#[verifier::external_body]
pub fn book_new() -> (r: IndexMap<u8, String>)
    ensures
        book_entries(r) == Seq::<(u8, Seq<char>)>::empty(),
{
    IndexMap::new()
}

/// Relies on `IndexMap::len`: the number of entries.
#[verifier::external_body]
pub fn book_len(m: &IndexMap<u8, String>) -> (r: usize)
    ensures
        r == book_entries(*m).len(),
{
    m.len()
}

/// Relies on `IndexMap::get`: the value stored under an equivalent key
/// (cloned here, so the wrapper hands out a plain `String`).
#[verifier::external_body]
pub fn book_get(m: &IndexMap<u8, String>, k: u8) -> (r: Option<String>)
    ensures
        ({
            let s = book_entries(*m);
            if entries_find(s, k) >= 0 {
                r is Some && r->0@ == s[entries_find(s, k)].1
            } else {
                r is None
            }
        }),
{
    m.get(&k).cloned()
}

/// Relies on `IndexMap::get_index`: the pair at a given position in
/// insertion order.
#[verifier::external_body]
pub fn book_get_index(m: &IndexMap<u8, String>, i: usize) -> (r: Option<(u8, String)>)
    ensures
        ({
            let s = book_entries(*m);
            if i < s.len() {
                r matches Some(p) && p.0 == s[i as int].0 && p.1@ == s[i as int].1
            } else {
                r is None
            }
        }),
{
    m.get_index(i).map(|(k, v)| (*k, v.clone()))
}

/// Relies on `IndexMap::insert`: an existing key keeps its position and gets
/// the new value; a new key is appended at the end.
#[verifier::external_body]
pub fn book_insert(m: &mut IndexMap<u8, String>, k: u8, v: String) -> (r: Option<String>)
    ensures
        ({
            let s = book_entries(*old(m));
            let t = book_entries(*final(m));
            let i = entries_find(s, k);
            if i >= 0 {
                t == s.update(i, (k, v@)) && r is Some && r->0@ == s[i].1
            } else {
                t == s.push((k, v@)) && r is None
            }
        }),
{
    m.insert(k, v)
}

} // verus!
