//! Canonical Huffman compression: frequency analysis, tree construction,
//! code-length extraction, canonical code assignment, header serialization
//! and bit packing.

use vstd::prelude::*;

use indexmap::IndexMap;

use crate::binary::{
    bin_str, bit_chars, bits_to_string, bits_val, bits_wf, char_val, incr_bits,
    lemma_bin_str_injective, lemma_bin_str_len, lemma_bin_str_prefix, lemma_bits_val_bound,
    lemma_char_val_bin_str,
};
use crate::imap::{
    book_entries, book_get, book_get_index, book_insert, book_len, book_new, entries_find,
    hist_entries, hist_get, hist_get_index, hist_insert, hist_len, hist_new, lemma_entries_find,
    len_entries, lens_get, lens_get_index, lens_insert, lens_len, lens_new,
};
use vstd::arithmetic::power2::pow2;

verus! {

pub struct Config<'a> {
    pub filename: &'a String,
}

impl<'a> Config<'a> {
    pub fn new(args: &'a [String]) -> (r: Result<Config<'a>, &'static str>)
        ensures
            args@.len() < 3 ==> (r matches Err(m) && m@
                == "Compress tool requires a filename argument"@),
            args@.len() >= 3 ==> r is Ok && r->Ok_0.filename@ == args@[2]@,
    {
        if args.len() < 3 {
            return Err("Compress tool requires a filename argument");
        };
        let filename = &args[2];
        Ok(Config { filename })
    }
}

// ---------------------------------------------------------------------------
// Frequency counter.
// ---------------------------------------------------------------------------

/// The frequency table of a byte sequence: one entry per distinct byte, in
/// first-occurrence order, counting how often the byte occurs.
pub open spec fn hist_seq(content: Seq<u8>) -> Seq<(u8, u32)>
    decreases content.len(),
{
    if content.len() == 0 {
        Seq::empty()
    } else {
        let prev = hist_seq(content.drop_last());
        let b = content.last();
        let i = entries_find(prev, b);
        if i >= 0 {
            prev.update(i, (b, (prev[i].1 + 1) as u32))
        } else {
            prev.push((b, 1u32))
        }
    }
}

/// Every count in the frequency table is at most the input length.
pub proof fn lemma_hist_counts_bounded(content: Seq<u8>)
    ensures
        forall|i: int|
            0 <= i < hist_seq(content).len() ==> #[trigger] hist_seq(content)[i].1 <= content.len(),
    decreases content.len(),
{
    if content.len() > 0 {
        lemma_hist_counts_bounded(content.drop_last());
        lemma_entries_find(hist_seq(content.drop_last()), content.last());
    }
}

/// Sum of the counts of a frequency table.
pub open spec fn sum_counts(s: Seq<(u8, u32)>) -> int
    decreases s.len(),
{
    if s.len() == 0 {
        0
    } else {
        sum_counts(s.drop_last()) + s.last().1
    }
}

proof fn lemma_sum_counts_update(s: Seq<(u8, u32)>, i: int, p: (u8, u32))
    requires
        0 <= i < s.len(),
    ensures
        sum_counts(s.update(i, p)) == sum_counts(s) - s[i].1 + p.1,
    decreases s.len(),
{
    if i == s.len() - 1 {
        assert(s.update(i, p).drop_last() =~= s.drop_last());
    } else {
        assert(s.update(i, p).drop_last() =~= s.drop_last().update(i, p));
        lemma_sum_counts_update(s.drop_last(), i, p);
    }
}

/// Histogram law: the counts of the frequency table sum to the input length,
/// and an empty input yields an empty table.
pub proof fn lemma_histogram_sum(content: Seq<u8>)
    requires
        content.len() <= u32::MAX,
    ensures
        sum_counts(hist_seq(content)) == content.len(),
        content.len() == 0 ==> hist_seq(content) == Seq::<(u8, u32)>::empty(),
    decreases content.len(),
{
    if content.len() > 0 {
        let prev = hist_seq(content.drop_last());
        let b = content.last();
        lemma_histogram_sum(content.drop_last());
        lemma_hist_counts_bounded(content.drop_last());
        let i = entries_find(prev, b);
        if i >= 0 {
            lemma_entries_find(prev, b);
            lemma_sum_counts_update(prev, i, (b, (prev[i].1 + 1) as u32));
            assert(prev[i].1 + 1 <= content.len());
        } else {
            assert(hist_seq(content).drop_last() =~= prev);
            assert(hist_seq(content).last() == (b, 1u32));
        }
    }
}

/// Builds the frequency table of `content`: a map from byte value to
/// occurrence count, keyed in first-occurrence order.
pub fn histogram(content: &[u8]) -> (r: IndexMap<u8, u32>)
    requires
        content@.len() <= u32::MAX,
    ensures
        hist_entries(r) == hist_seq(content@),
{
    let mut hist = hist_new();
    let n = content.len();
    for idx in 0..n
        invariant
            n == content@.len(),
            content@.len() <= u32::MAX,
            hist_entries(hist) == hist_seq(content@.take(idx as int)),
    {
        let b = content[idx];
        proof {
            assert(content@.take(idx + 1).drop_last() =~= content@.take(idx as int));
            assert(content@.take(idx + 1).last() == b);
            lemma_entries_find(hist_seq(content@.take(idx as int)), b);
            lemma_hist_counts_bounded(content@.take(idx as int));
        }
        let val: u32;
        match hist_get(&hist, b) {
            Some(old_hist) => val = old_hist + 1,
            None => val = 1,
        };
        hist_insert(&mut hist, b, val);
    }
    proof {
        assert(content@.take(n as int) =~= content@);
    }
    hist
}

// ---------------------------------------------------------------------------
// Huffman tree.
// ---------------------------------------------------------------------------

/// A weighted binary tree: a leaf carries a byte value and its weight, an
/// inner node the sum of its children's weights.
#[derive(Debug, PartialEq)]
pub enum Tree {
    Leaf(u8, u32),
    Node(Box<Tree>, Box<Tree>, u32),
}

impl Tree {
    /// The weight stored at the root.
    pub open spec fn weight(self) -> u32 {
        match self {
            Tree::Leaf(_, w) => w,
            Tree::Node(_, _, w) => w,
        }
    }

    fn val(&self) -> (r: &u32)
        ensures
            *r == self.weight(),
    {
        match self {
            Tree::Leaf(_, v) => v,
            Tree::Node(_, _, v) => v,
        }
    }
}

/// Sum of the root weights of a sequence of trees.
pub open spec fn sum_weights(s: Seq<Tree>) -> int
    decreases s.len(),
{
    if s.len() == 0 {
        0
    } else {
        sum_weights(s.drop_last()) + s.last().weight()
    }
}

proof fn lemma_sum_weights_nonneg(s: Seq<Tree>)
    ensures
        sum_weights(s) >= 0,
    decreases s.len(),
{
    if s.len() > 0 {
        lemma_sum_weights_nonneg(s.drop_last());
    }
}

proof fn lemma_sum_weights_split(s: Seq<Tree>, n: int)
    requires
        0 <= n <= s.len(),
    ensures
        sum_weights(s) == sum_weights(s.take(n)) + sum_weights(s.skip(n)),
    decreases s.len(),
{
    if n == s.len() {
        assert(s.take(n) =~= s);
        assert(s.skip(n) =~= Seq::<Tree>::empty());
    } else {
        lemma_sum_weights_split(s.drop_last(), n);
        assert(s.drop_last().take(n) =~= s.take(n));
        assert(s.skip(n).drop_last() =~= s.drop_last().skip(n));
        assert(s.skip(n).last() == s.last());
    }
}

proof fn lemma_sum_weights_pair(a: Tree, b: Tree)
    ensures
        sum_weights(seq![a, b]) == a.weight() + b.weight(),
{
    let two = seq![a, b];
    assert(two.drop_last() =~= seq![a]);
    assert(seq![a].drop_last() =~= Seq::<Tree>::empty());
    assert(sum_weights(Seq::<Tree>::empty()) == 0);
    assert(sum_weights(seq![a]) == sum_weights(Seq::<Tree>::empty()) + a.weight());
    assert(sum_weights(two) == sum_weights(seq![a]) + b.weight());
}

/// Sum over an insertion at position `i`.
proof fn lemma_sum_weights_insert(s: Seq<Tree>, i: int, t: Tree)
    requires
        0 <= i <= s.len(),
    ensures
        sum_weights(s.insert(i, t)) == sum_weights(s) + t.weight(),
    decreases s.len(),
{
    if i == s.len() {
        assert(s.insert(i, t).drop_last() =~= s);
        assert(s.insert(i, t).last() == t);
    } else {
        assert(s.insert(i, t).drop_last() =~= s.drop_last().insert(i, t));
        assert(s.insert(i, t).last() == s.last());
        lemma_sum_weights_insert(s.drop_last(), i, t);
    }
}

proof fn lemma_sum_weights_concat(a: Seq<Tree>, b: Seq<Tree>)
    ensures
        sum_weights(a + b) == sum_weights(a) + sum_weights(b),
    decreases b.len(),
{
    if b.len() == 0 {
        assert(a + b =~= a);
    } else {
        lemma_sum_weights_concat(a, b.drop_last());
        assert((a + b).drop_last() =~= a + b.drop_last());
        assert((a + b).last() == b.last());
    }
}

/// One leaf per frequency-table entry, carrying its byte and count.
pub open spec fn leaf_seq(s: Seq<(u8, u32)>) -> Seq<Tree> {
    s.map_values(|p: (u8, u32)| Tree::Leaf(p.0, p.1))
}

/// Inserts `t` behind every tree of weight at least `t`'s and ahead of the
/// first strictly lighter one.
pub open spec fn insert_desc(s: Seq<Tree>, t: Tree) -> Seq<Tree>
    decreases s.len(),
{
    if s.len() == 0 {
        seq![t]
    } else if s[0].weight() < t.weight() {
        seq![t] + s
    } else {
        seq![s[0]] + insert_desc(s.drop_first(), t)
    }
}

/// Stable sort by weight descending: ties keep their original order.
pub open spec fn sort_desc(s: Seq<Tree>) -> Seq<Tree>
    decreases s.len(),
{
    if s.len() == 0 {
        Seq::empty()
    } else {
        insert_desc(sort_desc(s.drop_last()), s.last())
    }
}

proof fn lemma_insert_desc_at(s: Seq<Tree>, t: Tree, p: int)
    requires
        0 <= p <= s.len(),
        forall|j: int| 0 <= j < p ==> s[j].weight() >= t.weight(),
        p < s.len() ==> s[p].weight() < t.weight(),
    ensures
        insert_desc(s, t) == s.insert(p, t),
    decreases s.len(),
{
    if p == 0 {
        if s.len() == 0 {
            assert(insert_desc(s, t) =~= s.insert(0, t));
        } else {
            assert(seq![t] + s =~= s.insert(0, t));
        }
    } else {
        assert(s[0].weight() >= t.weight());
        assert(forall|j: int| 1 <= j < s.len() ==> s[j] == s.drop_first()[j - 1]);
        lemma_insert_desc_at(s.drop_first(), t, p - 1);
        assert(seq![s[0]] + s.drop_first().insert(p - 1, t) =~= s.insert(p, t));
    }
}

proof fn lemma_sum_weights_insert_desc(s: Seq<Tree>, t: Tree)
    ensures
        sum_weights(insert_desc(s, t)) == sum_weights(s) + t.weight(),
        insert_desc(s, t).len() == s.len() + 1,
    decreases s.len(),
{
    if s.len() == 0 {
        assert(seq![t].drop_last() =~= Seq::<Tree>::empty());
        assert(sum_weights(Seq::<Tree>::empty()) == 0);
    } else if s[0].weight() < t.weight() {
        lemma_sum_weights_concat(seq![t], s);
        assert(seq![t].drop_last() =~= Seq::<Tree>::empty());
        assert(sum_weights(Seq::<Tree>::empty()) == 0);
    } else {
        lemma_sum_weights_insert_desc(s.drop_first(), t);
        lemma_sum_weights_concat(seq![s[0]], insert_desc(s.drop_first(), t));
        lemma_sum_weights_concat(seq![s[0]], s.drop_first());
        assert(seq![s[0]] + s.drop_first() =~= s);
        assert(seq![s[0]].drop_last() =~= Seq::<Tree>::empty());
        assert(sum_weights(Seq::<Tree>::empty()) == 0);
    }
}

proof fn lemma_sum_weights_sort_desc(s: Seq<Tree>)
    ensures
        sum_weights(sort_desc(s)) == sum_weights(s),
        sort_desc(s).len() == s.len(),
    decreases s.len(),
{
    if s.len() > 0 {
        lemma_sum_weights_sort_desc(s.drop_last());
        lemma_sum_weights_insert_desc(sort_desc(s.drop_last()), s.last());
    }
}

proof fn lemma_sum_weights_leaf_seq(s: Seq<(u8, u32)>)
    ensures
        sum_weights(leaf_seq(s)) == sum_counts(s),
    decreases s.len(),
{
    if s.len() > 0 {
        lemma_sum_weights_leaf_seq(s.drop_last());
        assert(leaf_seq(s).drop_last() =~= leaf_seq(s.drop_last()));
        assert(leaf_seq(s).last() == Tree::Leaf(s.last().0, s.last().1));
    }
}

/// Converts the frequency table to its leaves, sorted by weight descending,
/// ties kept in first-occurrence order.
pub fn leaves(histogram: IndexMap<u8, u32>) -> (r: Vec<Tree>)
    ensures
        r@ == sort_desc(leaf_seq(hist_entries(histogram))),
{
    let ghost all = leaf_seq(hist_entries(histogram));
    let n = hist_len(&histogram);
    let mut flat: Vec<Tree> = Vec::new();
    for idx in 0..n
        invariant
            all == leaf_seq(hist_entries(histogram)),
            n == all.len(),
            n == hist_entries(histogram).len(),
            flat@ =~= all.take(idx as int),
    {
        let pair = hist_get_index(&histogram, idx).unwrap();
        flat.push(Tree::Leaf(pair.0, pair.1));
        proof {
            assert(all[idx as int] == Tree::Leaf(pair.0, pair.1));
            assert(flat@ =~= all.take(idx + 1));
        }
    }
    let mut sorted: Vec<Tree> = Vec::new();
    let mut processed: usize = 0;
    proof {
        assert(all.take(0) =~= Seq::<Tree>::empty());
        assert(flat@ =~= all.skip(0));
    }
    while flat.len() > 0
        invariant
            n == all.len(),
            processed + flat@.len() == all.len(),
            sorted@ == sort_desc(all.take(processed as int)),
            flat@ == all.skip(processed as int),
        decreases flat@.len(),
    {
        let ghost prev_sorted = sorted@;
        let t = flat.remove(0);
        proof {
            assert(t == all[processed as int]);
            assert(flat@ =~= all.skip(processed + 1));
        }
        let w = *t.val();
        let m = sorted.len();
        let mut pos: usize = 0;
        loop
            invariant
                sorted@ == prev_sorted,
                m == prev_sorted.len(),
                0 <= pos <= m,
                forall|j: int| 0 <= j < pos ==> prev_sorted[j].weight() >= w,
            ensures
                sorted@ == prev_sorted,
                pos <= m,
                forall|j: int| 0 <= j < pos ==> prev_sorted[j].weight() >= w,
                pos < m ==> prev_sorted[pos as int].weight() < w,
            decreases m - pos,
        {
            if pos >= m {
                break ;
            }
            if *sorted[pos].val() < w {
                break ;
            }
            pos = pos + 1;
        }
        sorted.insert(pos, t);
        proof {
            lemma_insert_desc_at(prev_sorted, t, pos as int);
            assert(all.take(processed + 1).drop_last() =~= all.take(processed as int));
            assert(all.take(processed + 1).last() == t);
            assert(sorted@ == insert_desc(sort_desc(all.take(processed as int)), t));
            assert(sorted@ == sort_desc(all.take(processed + 1)));
        }
        processed = processed + 1;
    }
    proof {
        assert(all.take(processed as int) =~= all);
    }
    sorted
}

/// Tree-builder law: for non-empty input, the tree built from the sorted
/// leaves of the frequency table exists and its root weight is the input
/// length; for empty input there is no tree.
pub proof fn lemma_tree_weight_is_input_len(content: Seq<u8>)
    requires
        content.len() <= u32::MAX,
    ensures
        content.len() > 0 ==> (spec_huff(sort_desc(leaf_seq(hist_seq(content)))) matches Some(t)
            && t.weight() == content.len()),
        content.len() == 0 ==> spec_huff(sort_desc(leaf_seq(hist_seq(content)))) is None,
{
    let h = hist_seq(content);
    let s = sort_desc(leaf_seq(h));
    lemma_histogram_sum(content);
    lemma_sum_weights_leaf_seq(h);
    lemma_sum_weights_sort_desc(leaf_seq(h));
    lemma_huff_weight(s);
    if content.len() == 0 {
        assert(h =~= Seq::<(u8, u32)>::empty());
    } else {
        assert(s.len() > 0) by {
            if h.len() == 0 {
                assert(sum_counts(h) == 0);
            }
        };
    }
}

/// The tree that merges two trees, weighted by the sum of their weights.
pub open spec fn merged(first: Tree, second: Tree) -> Tree {
    Tree::Node(
        Box::new(first),
        Box::new(second),
        (first.weight() + second.weight()) as u32,
    )
}

/// The first position, scanning from the head, whose weight is at most `w`;
/// the length of the sequence when every weight is larger.
pub open spec fn reinsert_pos(s: Seq<Tree>, w: u32) -> int
    decreases s.len(),
{
    if s.len() == 0 {
        0
    } else if s[0].weight() <= w {
        0
    } else {
        1 + reinsert_pos(s.drop_first(), w)
    }
}

proof fn lemma_reinsert_pos_range(s: Seq<Tree>, w: u32)
    ensures
        0 <= reinsert_pos(s, w) <= s.len(),
        forall|j: int| 0 <= j < reinsert_pos(s, w) ==> s[j].weight() > w,
        reinsert_pos(s, w) < s.len() ==> s[reinsert_pos(s, w)].weight() <= w,
    decreases s.len(),
{
    if s.len() > 0 && s[0].weight() > w {
        lemma_reinsert_pos_range(s.drop_first(), w);
        assert(forall|j: int| 1 <= j < s.len() ==> s[j] == s.drop_first()[j - 1]);
    }
}

/// One greedy merge step: remove the two lowest-weight trees from the tail,
/// merge them, and reinsert the merged node so that the sequence stays
/// sorted by weight descending, ahead of trees of equal weight.
pub open spec fn merge_step(s: Seq<Tree>) -> Seq<Tree>
    recommends
        s.len() >= 2,
{
    let first = s.last();
    let second = s[s.len() - 2];
    let n = merged(first, second);
    let rest = s.take(s.len() - 2);
    rest.insert(reinsert_pos(rest, n.weight()), n)
}

/// The Huffman tree of a weight-descending sequence of trees: greedy
/// pairwise merging from the tail until one tree remains; none when the
/// sequence is empty.
pub open spec fn spec_huff(s: Seq<Tree>) -> Option<Tree>
    decreases s.len(),
    via spec_huff_decreases
{
    if s.len() == 0 {
        None
    } else if s.len() == 1 {
        Some(s[0])
    } else {
        spec_huff(merge_step(s))
    }
}

#[via_fn]
proof fn spec_huff_decreases(s: Seq<Tree>) {
    if s.len() >= 2 {
        let rest = s.take(s.len() - 2);
        lemma_reinsert_pos_range(rest, merged(s.last(), s[s.len() - 2]).weight());
    }
}

/// Tree-builder law: on a non-empty sequence the greedy merge yields a tree
/// whose root weight is the sum of all weights; on an empty sequence it
/// yields nothing.
pub proof fn lemma_huff_weight(s: Seq<Tree>)
    requires
        sum_weights(s) <= u32::MAX,
    ensures
        s.len() == 0 ==> spec_huff(s) is None,
        s.len() > 0 ==> (spec_huff(s) matches Some(t) && t.weight() == sum_weights(s)),
    decreases s.len(),
{
    if s.len() == 1 {
        assert(s.drop_last() =~= Seq::<Tree>::empty());
        assert(sum_weights(Seq::<Tree>::empty()) == 0);
        assert(sum_weights(s) == s[0].weight());
        assert(spec_huff(s) == Some(s[0]));
    } else if s.len() >= 2 {
        let rest = s.take(s.len() - 2);
        let n = merged(s.last(), s[s.len() - 2]);
        lemma_sum_weights_split(s, s.len() - 2);
        assert(s.skip(s.len() - 2) =~= seq![s[s.len() - 2], s.last()]);
        lemma_sum_weights_pair(s[s.len() - 2], s.last());
        assert(sum_weights(s) == sum_weights(rest) + s[s.len() - 2].weight() + s.last().weight());
        lemma_sum_weights_nonneg(rest);
        lemma_reinsert_pos_range(rest, n.weight());
        lemma_sum_weights_insert(rest, reinsert_pos(rest, n.weight()), n);
        assert(sum_weights(merge_step(s)) == sum_weights(s));
        assert(merge_step(s).len() == s.len() - 1);
        lemma_huff_weight(merge_step(s));
        assert(spec_huff(s) == spec_huff(merge_step(s)));
    }
}

/// Builds the Huffman tree by greedy merging, per `spec_huff`: the two
/// lowest-weight trees at the tail are merged and the node reinserted at the
/// first position whose weight is at most the node's, keeping the sequence
/// sorted descending; the last remaining tree is the result.
pub fn huff_tree(leaves: &mut Vec<Tree>) -> (r: Option<Tree>)
    requires
        sum_weights(old(leaves)@) <= u32::MAX,
    ensures
        r == spec_huff(old(leaves)@),
        final(leaves)@.len() == 0,
{
    if leaves.len() == 0 {
        return None;
    }
    while leaves.len() >= 2
        invariant
            spec_huff(leaves@) == spec_huff(old(leaves)@),
            sum_weights(leaves@) == sum_weights(old(leaves)@),
            sum_weights(old(leaves)@) <= u32::MAX,
            leaves@.len() >= 1,
        decreases leaves@.len(),
    {
        let ghost s = leaves@;
        let first = leaves.pop().unwrap();
        let second = leaves.pop().unwrap();
        proof {
            assert(s.drop_last() =~= s.take(s.len() - 1));
            assert(s.drop_last().drop_last() =~= s.take(s.len() - 2));
            lemma_sum_weights_split(s, s.len() - 2);
            assert(s.skip(s.len() - 2) =~= seq![second, first]);
            lemma_sum_weights_pair(second, first);
            lemma_sum_weights_nonneg(s.take(s.len() - 2));
            assert(leaves@ =~= s.take(s.len() - 2));
        }
        let v = *first.val() + *second.val();
        let new_node = Tree::Node(Box::new(first), Box::new(second), v);
        let ghost rest = leaves@;
        let n = leaves.len();
        let mut i: usize = 0;
        let mut pos: usize = n;
        loop
            invariant
                leaves@ == rest,
                n == rest.len(),
                0 <= i <= n,
                pos == n,
                new_node.weight() == v,
                forall|j: int| 0 <= j < i ==> rest[j].weight() > v,
            ensures
                leaves@ == rest,
                i <= rest.len(),
                forall|j: int| 0 <= j < i ==> rest[j].weight() > v,
                i < rest.len() ==> rest[i as int].weight() <= v,
                i == rest.len() || i < rest.len(),
            decreases n - i,
        {
            if i >= n {
                break ;
            }
            let node = &leaves[i];
            if *node.val() <= v {
                break ;
            }
            i = i + 1;
        }
        proof {
            lemma_reinsert_pos_range(rest, v);
            if i < rest.len() {
                assert(reinsert_pos(rest, v) == i) by {
                    let p = reinsert_pos(rest, v);
                    if p < i {
                        assert(rest[p].weight() > v);
                    }
                    if i < p {
                        assert(rest[i as int].weight() > v);
                    }
                };
            } else {
                assert(reinsert_pos(rest, v) == i) by {
                    let p = reinsert_pos(rest, v);
                    if p < i {
                        assert(rest[p].weight() > v);
                    }
                };
            }
            lemma_sum_weights_insert(rest, i as int, new_node);
        }
        leaves.insert(i, new_node);
        proof {
            assert(leaves@ =~= merge_step(s));
        }
    }
    let t = leaves.pop().unwrap();
    Some(t)
}

// ---------------------------------------------------------------------------
// Code-length extraction.
// ---------------------------------------------------------------------------

/// The byte of each leaf together with its depth, left to right, starting
/// from depth `d` at the root.
pub open spec fn tree_depths(t: Tree, d: int) -> Seq<(u8, int)>
    decreases t,
{
    match t {
        Tree::Leaf(k, _) => seq![(k, d)],
        Tree::Node(l, r, _) => tree_depths(*l, d + 1) + tree_depths(*r, d + 1),
    }
}

/// The bytes of the leaves, left to right.
pub open spec fn tree_syms(t: Tree) -> Seq<u8>
    decreases t,
{
    match t {
        Tree::Leaf(k, _) => seq![k],
        Tree::Node(l, r, _) => tree_syms(*l) + tree_syms(*r),
    }
}

/// Height of a tree: a leaf has height 0.
pub open spec fn tree_ht(t: Tree) -> int
    decreases t,
{
    match t {
        Tree::Leaf(_, _) => 0,
        Tree::Node(l, r, _) => 1 + if tree_ht(*l) >= tree_ht(*r) {
            tree_ht(*l)
        } else {
            tree_ht(*r)
        },
    }
}

proof fn lemma_tree_depths_syms(t: Tree, d: int)
    ensures
        tree_depths(t, d).len() == tree_syms(t).len(),
        forall|i: int|
            0 <= i < tree_depths(t, d).len() ==> (#[trigger] tree_depths(t, d)[i]).0 == tree_syms(
                t,
            )[i],
    decreases t,
{
    match t {
        Tree::Leaf(_, _) => {},
        Tree::Node(l, r, _) => {
            lemma_tree_depths_syms(*l, d + 1);
            lemma_tree_depths_syms(*r, d + 1);
        },
    }
}

proof fn lemma_tree_depths_range(t: Tree, d: int)
    ensures
        tree_depths(t, d).len() >= 1,
        forall|i: int|
            0 <= i < tree_depths(t, d).len() ==> d <= (#[trigger] tree_depths(t, d)[i]).1 <= d
                + tree_ht(t),
    decreases t,
{
    match t {
        Tree::Leaf(_, _) => {},
        Tree::Node(l, r, _) => {
            lemma_tree_depths_range(*l, d + 1);
            lemma_tree_depths_range(*r, d + 1);
        },
    }
}

proof fn lemma_tree_depths_shift(t: Tree, d: int)
    ensures
        tree_depths(t, d).len() == tree_depths(t, 0).len(),
        forall|i: int|
            0 <= i < tree_depths(t, d).len() ==> #[trigger] tree_depths(t, d)[i] == (
            tree_depths(t, 0)[i].0,
            tree_depths(t, 0)[i].1 + d,
            ),
    decreases t,
{
    match t {
        Tree::Leaf(_, _) => {},
        Tree::Node(l, r, _) => {
            lemma_tree_depths_shift(*l, d + 1);
            lemma_tree_depths_shift(*r, d + 1);
            lemma_tree_depths_shift(*l, 1);
            lemma_tree_depths_shift(*r, 1);
        },
    }
}

proof fn lemma_no_dup_split(a: Seq<u8>, b: Seq<u8>)
    requires
        (a + b).no_duplicates(),
    ensures
        a.no_duplicates(),
        b.no_duplicates(),
        forall|i: int, j: int| 0 <= i < a.len() && 0 <= j < b.len() ==> a[i] != b[j],
{
    assert(forall|i: int| 0 <= i < a.len() ==> a[i] == (a + b)[i]);
    assert(forall|j: int| 0 <= j < b.len() ==> b[j] == (a + b)[a.len() + j]);
}

/// Length-table entries with their values as mathematical integers.
pub open spec fn lens_as_int(s: Seq<(u8, usize)>) -> Seq<(u8, int)> {
    s.map_values(|p: (u8, usize)| (p.0, p.1 as int))
}

/// Walks the tree and maps every leaf byte to its depth, in left-to-right
/// leaf order: the code length each byte will receive.
pub fn code_lengths(huff_tree: Tree) -> (r: IndexMap<u8, usize>)
    requires
        tree_syms(huff_tree).no_duplicates(),
        tree_ht(huff_tree) <= usize::MAX,
    ensures
        lens_as_int(len_entries(r)) == tree_depths(huff_tree, 0),
    decreases huff_tree,
{
    let ghost whole = huff_tree;
    let mut book = lens_new();
    match huff_tree {
        Tree::Leaf(k, _) => {
            lens_insert(&mut book, k, 0);
            proof {
                assert(lens_as_int(len_entries(book)) =~= seq![(k, 0int)]);
                assert(tree_depths(whole, 0) == seq![(k, 0int)]);
            }
        },
        Tree::Node(left_t, right_t, _) => {
            let ghost lt = *left_t;
            let ghost rt = *right_t;
            let ghost lsyms = tree_syms(lt);
            let ghost rsyms = tree_syms(rt);
            let ghost ltarget = tree_depths(lt, 1);
            let ghost rtarget = tree_depths(rt, 1);
            proof {
                assert(tree_syms(whole) == lsyms + rsyms);
                lemma_no_dup_split(lsyms, rsyms);
                lemma_tree_depths_syms(lt, 0);
                lemma_tree_depths_syms(rt, 0);
                lemma_tree_depths_syms(lt, 1);
                lemma_tree_depths_syms(rt, 1);
                lemma_tree_depths_range(lt, 0);
                lemma_tree_depths_range(rt, 0);
                lemma_tree_depths_shift(lt, 1);
                lemma_tree_depths_shift(rt, 1);
            }
            let left = code_lengths(*left_t);
            let right = code_lengths(*right_t);
            proof {
                assert(lens_as_int(len_entries(book)) =~= ltarget.take(0));
            }
            let nl = lens_len(&left);
            for i in 0..nl
                invariant
                    nl == len_entries(left).len(),
                    lens_as_int(len_entries(left)) == tree_depths(lt, 0),
                    lsyms == tree_syms(lt),
                    ltarget == tree_depths(lt, 1),
                    ltarget.len() == nl,
                    nl == lsyms.len(),
                    tree_ht(lt) < usize::MAX,
                    forall|j: int| 0 <= j < nl ==> (#[trigger] ltarget[j]).0 == lsyms[j],
                    forall|j: int|
                        0 <= j < nl ==> (#[trigger] ltarget[j]).1 == tree_depths(lt, 0)[j].1 + 1,
                    forall|j: int|
                        0 <= j < nl ==> 0 <= (#[trigger] tree_depths(lt, 0)[j]).1 <= tree_ht(lt),
                    lsyms.no_duplicates(),
                    lens_as_int(len_entries(book)) == ltarget.take(i as int),
                    len_entries(book).len() == i,
                    forall|j: int|
                        0 <= j < i ==> (#[trigger] len_entries(book)[j]).0 == lsyms[j],
            {
                let pair = lens_get_index(&left, i).unwrap();
                proof {
                    lemma_tree_depths_syms(lt, 0);
                    assert(lens_as_int(len_entries(left))[i as int] == (pair.0, pair.1 as int));
                    assert((pair.0, pair.1 as int) == tree_depths(lt, 0)[i as int]);
                    assert(pair.0 == lsyms[i as int]);
                    assert(pair.1 + 1 <= usize::MAX);
                    lemma_entries_find(len_entries(book), pair.0);
                    if entries_find(len_entries(book), pair.0) >= 0 {
                        let f = entries_find(len_entries(book), pair.0);
                        assert(len_entries(book)[f].0 == lsyms[f]);
                        assert(lsyms[f] == lsyms[i as int]);
                    }
                }
                lens_insert(&mut book, pair.0, pair.1 + 1);
                proof {
                    assert(lens_as_int(len_entries(book)) =~= ltarget.take(i + 1));
                }
            }
            let nr = lens_len(&right);
            proof {
                assert(ltarget.take(nl as int) =~= ltarget);
                assert(ltarget + rtarget.take(0) =~= ltarget);
            }
            for i in 0..nr
                invariant
                    nr == len_entries(right).len(),
                    lens_as_int(len_entries(right)) == tree_depths(rt, 0),
                    lsyms == tree_syms(lt),
                    rsyms == tree_syms(rt),
                    ltarget == tree_depths(lt, 1),
                    rtarget == tree_depths(rt, 1),
                    rtarget.len() == nr,
                    nr == rsyms.len(),
                    tree_ht(rt) < usize::MAX,
                    forall|j: int| 0 <= j < nr ==> (#[trigger] rtarget[j]).0 == rsyms[j],
                    forall|j: int|
                        0 <= j < nr ==> (#[trigger] rtarget[j]).1 == tree_depths(rt, 0)[j].1 + 1,
                    forall|j: int|
                        0 <= j < nr ==> 0 <= (#[trigger] tree_depths(rt, 0)[j]).1 <= tree_ht(rt),
                    rsyms.no_duplicates(),
                    forall|a: int, b: int|
                        0 <= a < lsyms.len() && 0 <= b < rsyms.len() ==> lsyms[a] != rsyms[b],
                    lens_as_int(len_entries(book)) == ltarget + rtarget.take(i as int),
                    len_entries(book).len() == lsyms.len() + i,
                    ltarget.len() == lsyms.len(),
                    forall|j: int|
                        0 <= j < lsyms.len() ==> (#[trigger] len_entries(book)[j]).0 == lsyms[j],
                    forall|j: int|
                        0 <= j < i ==> (#[trigger] len_entries(book)[lsyms.len() + j]).0
                            == rsyms[j],
            {
                let pair = lens_get_index(&right, i).unwrap();
                proof {
                    lemma_tree_depths_syms(rt, 0);
                    assert(lens_as_int(len_entries(right))[i as int] == (pair.0, pair.1 as int));
                    assert((pair.0, pair.1 as int) == tree_depths(rt, 0)[i as int]);
                    assert(pair.0 == rsyms[i as int]);
                    assert(pair.1 + 1 <= usize::MAX);
                    lemma_entries_find(len_entries(book), pair.0);
                    if entries_find(len_entries(book), pair.0) >= 0 {
                        let f = entries_find(len_entries(book), pair.0);
                        if f < lsyms.len() {
                            assert(len_entries(book)[f].0 == lsyms[f]);
                        } else {
                            let j = f - lsyms.len();
                            assert(len_entries(book)[lsyms.len() + j].0 == rsyms[j]);
                            assert(rsyms[j] == rsyms[i as int]);
                        }
                    }
                }
                let ghost prev = len_entries(book);
                lens_insert(&mut book, pair.0, pair.1 + 1);
                proof {
                    let target = ltarget + rtarget.take(i + 1);
                    let cur = len_entries(book);
                    assert(cur == prev.push((pair.0, (pair.1 + 1) as usize)));
                    assert forall|k: int| 0 <= k < cur.len() implies lens_as_int(cur)[k]
                        == target[k] by {
                        if k < lsyms.len() + i {
                            assert(cur[k] == prev[k]);
                            assert(lens_as_int(prev)[k] == (ltarget + rtarget.take(i as int))[k]);
                            if k >= lsyms.len() {
                                assert(rtarget.take(i as int)[k - lsyms.len()] == rtarget[k
                                    - lsyms.len()]);
                                assert(rtarget.take(i + 1)[k - lsyms.len()] == rtarget[k
                                    - lsyms.len()]);
                            }
                        } else {
                            assert(cur[k] == (pair.0, (pair.1 + 1) as usize));
                            assert(target[k] == rtarget[i as int]);
                        }
                    };
                    assert(lens_as_int(cur) =~= target);
                }
            }
            proof {
                assert(rtarget.take(nr as int) =~= rtarget);
                assert(tree_depths(whole, 0) == ltarget + rtarget);
            }
        },
    }
    book
}

// ---------------------------------------------------------------------------
// Length buckets.
// ---------------------------------------------------------------------------

/// Inserts `x` ahead of the first strictly greater element.
pub open spec fn insert_asc(s: Seq<u8>, x: u8) -> Seq<u8>
    decreases s.len(),
{
    if s.len() == 0 {
        seq![x]
    } else if x < s[0] {
        seq![x] + s
    } else {
        seq![s[0]] + insert_asc(s.drop_first(), x)
    }
}

/// Sort ascending by byte value.
pub open spec fn sort_asc(s: Seq<u8>) -> Seq<u8>
    decreases s.len(),
{
    if s.len() == 0 {
        Seq::empty()
    } else {
        insert_asc(sort_asc(s.drop_last()), s.last())
    }
}

/// The keys whose length is `l`, in entry order.
pub open spec fn keys_with_len(s: Seq<(u8, usize)>, l: int) -> Seq<u8>
    decreases s.len(),
{
    if s.len() == 0 {
        Seq::empty()
    } else {
        keys_with_len(s.drop_last(), l) + if s.last().1 == l {
            seq![s.last().0]
        } else {
            Seq::empty()
        }
    }
}

/// The largest length in the table; 0 when the table is empty.
pub open spec fn max_len(s: Seq<(u8, usize)>) -> int
    decreases s.len(),
{
    if s.len() == 0 {
        0
    } else if max_len(s.drop_last()) >= s.last().1 {
        max_len(s.drop_last())
    } else {
        s.last().1 as int
    }
}

/// Whether some entry has length zero.
pub open spec fn has_zero_len(s: Seq<(u8, usize)>) -> bool {
    exists|i: int| 0 <= i < s.len() && (#[trigger] s[i]).1 == 0
}

/// A single-entry table of length zero is forced to length one; anything
/// else is kept as it is.
pub open spec fn forced_lens(s: Seq<(u8, usize)>) -> Seq<(u8, usize)> {
    if s.len() == 1 && s[0].1 == 0 {
        seq![(s[0].0, 1usize)]
    } else {
        s
    }
}

/// The length buckets of a length table: bucket `i` holds the keys of
/// length `i + 1`, sorted ascending.
pub open spec fn buckets_model(s: Seq<(u8, usize)>) -> Seq<Seq<u8>> {
    Seq::new(max_len(s) as nat, |i: int| sort_asc(keys_with_len(s, i + 1)))
}

proof fn lemma_max_len_bound(s: Seq<(u8, usize)>)
    ensures
        0 <= max_len(s) <= usize::MAX,
        forall|i: int| 0 <= i < s.len() ==> (#[trigger] s[i]).1 <= max_len(s),
    decreases s.len(),
{
    if s.len() > 0 {
        lemma_max_len_bound(s.drop_last());
        assert(forall|i: int| 0 <= i < s.len() - 1 ==> s[i] == s.drop_last()[i]);
    }
}

/// Sorts the length table into per-length buckets: bucket `i` holds, in
/// ascending byte order, the bytes whose code length is `i + 1`.  A single
/// length-zero entry (the one-symbol alphabet) is forced to length one; a
/// length-zero entry among others admits no bucket and yields nothing.
pub fn enc_vector(len_book: &IndexMap<u8, usize>) -> (r: Option<Vec<Vec<u8>>>)
    ensures
        r is None <==> (has_zero_len(len_entries(*len_book)) && len_entries(*len_book).len() > 1),
        r matches Some(v) ==> v.deep_view() == buckets_model(forced_lens(len_entries(*len_book))),
{
    let ghost entries = len_entries(*len_book);
    let n = lens_len(len_book);
    let mut longest: usize = 0;
    for i in 0..n
        invariant
            entries == len_entries(*len_book),
            n == entries.len(),
            longest == max_len(entries.take(i as int)),
            !has_zero_len(entries.take(i as int)),
    {
        let p = lens_get_index(len_book, i).unwrap();
        proof {
            assert(entries.take(i + 1).drop_last() =~= entries.take(i as int));
            assert(entries.take(i + 1).last() == entries[i as int]);
        }
        if p.1 == 0 {
            if n == 1 {
                let mut bucket: Vec<u8> = Vec::new();
                bucket.push(p.0);
                let mut buckets: Vec<Vec<u8>> = Vec::new();
                buckets.push(bucket);
                proof {
                    let f = forced_lens(entries);
                    assert(f == seq![(entries[0].0, 1usize)]);
                    assert(f.drop_last() =~= Seq::<(u8, usize)>::empty());
                    assert(max_len(Seq::<(u8, usize)>::empty()) == 0);
                    assert(keys_with_len(Seq::<(u8, usize)>::empty(), 1) =~= Seq::<u8>::empty());
                    assert(max_len(f) == 1);
                    assert(f.last() == (entries[0].0, 1usize));
                    assert(keys_with_len(f, 1) =~= seq![entries[0].0]);
                    assert(sort_asc(seq![entries[0].0]) =~= seq![entries[0].0]) by {
                        assert(seq![entries[0].0].drop_last() =~= Seq::<u8>::empty());
                        assert(sort_asc(Seq::<u8>::empty()) == Seq::<u8>::empty());
                        assert(insert_asc(Seq::<u8>::empty(), entries[0].0) == seq![entries[0].0]);
                    };
                    assert(buckets@[0].deep_view() =~= buckets@[0]@);
                    assert(buckets@[0]@ =~= seq![entries[0].0]);
                    assert(buckets.deep_view() =~= buckets_model(f));
                }
                return Some(buckets);
            } else {
                proof {
                    assert(entries[i as int].1 == 0);
                }
                return None;
            }
        }
        if p.1 > longest {
            longest = p.1;
        }
        proof {
            if has_zero_len(entries.take(i + 1)) {
                let z = choose|j: int|
                    0 <= j < i + 1 && (#[trigger] entries.take(i + 1)[j]).1 == 0;
                assert(entries.take(i as int)[z].1 == 0);
            }
        }
    }
    proof {
        assert(entries.take(n as int) =~= entries);
        assert(forced_lens(entries) == entries);
    }
    let mut buckets: Vec<Vec<u8>> = Vec::new();
    for b in 0..longest
        invariant
            entries == len_entries(*len_book),
            n == entries.len(),
            longest == max_len(entries),
            buckets@.len() == b,
            forall|j: int|
                0 <= j < b ==> (#[trigger] buckets@[j])@ == sort_asc(keys_with_len(entries, j + 1)),
    {
        let mut cur: Vec<u8> = Vec::new();
        for i in 0..n
            invariant
                entries == len_entries(*len_book),
                n == entries.len(),
                b < longest,
                cur@ == keys_with_len(entries.take(i as int), b + 1),
        {
            let p = lens_get_index(len_book, i).unwrap();
            proof {
                assert(entries.take(i + 1).drop_last() =~= entries.take(i as int));
                assert(entries.take(i + 1).last() == entries[i as int]);
            }
            if p.1 == b + 1 {
                cur.push(p.0);
                proof {
                    assert(cur@ =~= keys_with_len(entries.take(i + 1), b + 1));
                }
            } else {
                proof {
                    assert(cur@ =~= keys_with_len(entries.take(i + 1), b + 1));
                }
            }
        }
        proof {
            assert(entries.take(n as int) =~= entries);
        }
        let ghost unsorted = cur@;
        let total = cur.len();
        let mut sorted: Vec<u8> = Vec::new();
        let mut processed: usize = 0;
        proof {
            assert(unsorted.take(0) =~= Seq::<u8>::empty());
            assert(cur@ =~= unsorted.skip(0));
        }
        while cur.len() > 0
            invariant
                processed + cur@.len() == unsorted.len(),
                total == unsorted.len(),
                sorted@ == sort_asc(unsorted.take(processed as int)),
                cur@ == unsorted.skip(processed as int),
            decreases cur@.len(),
        {
            let ghost prev_sorted = sorted@;
            let x = cur.remove(0);
            proof {
                assert(x == unsorted[processed as int]);
                assert(cur@ =~= unsorted.skip(processed + 1));
            }
            let m = sorted.len();
            let mut pos: usize = 0;
            loop
                invariant
                    sorted@ == prev_sorted,
                    m == prev_sorted.len(),
                    0 <= pos <= m,
                    forall|j: int| 0 <= j < pos ==> prev_sorted[j] <= x,
                ensures
                    sorted@ == prev_sorted,
                    pos <= m,
                    forall|j: int| 0 <= j < pos ==> prev_sorted[j] <= x,
                    pos < m ==> prev_sorted[pos as int] > x,
                decreases m - pos,
            {
                if pos >= m {
                    break ;
                }
                if sorted[pos] > x {
                    break ;
                }
                pos = pos + 1;
            }
            sorted.insert(pos, x);
            proof {
                lemma_insert_asc_at(prev_sorted, x, pos as int);
                assert(unsorted.take(processed + 1).drop_last() =~= unsorted.take(
                    processed as int,
                ));
                assert(unsorted.take(processed + 1).last() == x);
                assert(sorted@ == sort_asc(unsorted.take(processed + 1)));
            }
            processed = processed + 1;
        }
        proof {
            assert(unsorted.take(processed as int) =~= unsorted);
        }
        buckets.push(sorted);
    }
    proof {
        lemma_max_len_bound(entries);
        assert forall|j: int| 0 <= j < buckets@.len() implies #[trigger] buckets.deep_view()[j]
            == buckets@[j]@ by {
            assert(buckets@[j].deep_view() =~= buckets@[j]@);
        };
        assert(buckets.deep_view() =~= buckets_model(entries));
    }
    Some(buckets)
}

// ---------------------------------------------------------------------------
// Canonical code assignment.
// ---------------------------------------------------------------------------

/// The running code value at the start of bucket `i`: the value after the
/// previous bucket, shifted left by one bit.
pub open spec fn start_val(b: Seq<Seq<u8>>, i: int) -> nat
    decreases i,
{
    if i <= 0 {
        0
    } else {
        ((start_val(b, i - 1) + b[i - 1].len()) * 2) as nat
    }
}

/// Every bucket fits its width: the codes of length `i + 1` end below
/// `pow2(i + 1)`.  This is what the length distribution of any Huffman tree
/// guarantees, and what makes the assignment prefix-free.
pub open spec fn valid_buckets(b: Seq<Seq<u8>>) -> bool {
    forall|i: int|
        0 <= i < b.len() ==> start_val(b, i) + (#[trigger] b[i]).len() <= pow2((i + 1) as nat)
}

/// The code assignments of bucket `i`: consecutive values rendered at width
/// `i + 1`.
pub open spec fn bucket_codes(b: Seq<Seq<u8>>, i: int) -> Seq<(u8, Seq<char>)> {
    Seq::new(
        b[i].len(),
        |j: int| (b[i][j], bin_str((start_val(b, i) + j) as nat, (i + 1) as nat)),
    )
}

/// The code book of the first `i` buckets, in canonical order.
pub open spec fn book_model_upto(b: Seq<Seq<u8>>, i: int) -> Seq<(u8, Seq<char>)>
    decreases i,
{
    if i <= 0 {
        Seq::empty()
    } else {
        book_model_upto(b, i - 1) + bucket_codes(b, i - 1)
    }
}

/// The full canonical code book of a bucket sequence.
pub open spec fn book_model(b: Seq<Seq<u8>>) -> Seq<(u8, Seq<char>)> {
    book_model_upto(b, b.len() as int)
}

/// The symbols of the first `i` buckets, in canonical order.
pub open spec fn syms_upto(b: Seq<Seq<u8>>, i: int) -> Seq<u8>
    decreases i,
{
    if i <= 0 {
        Seq::empty()
    } else {
        syms_upto(b, i - 1) + b[i - 1]
    }
}

/// All symbols of a bucket sequence, in canonical order.
pub open spec fn bucket_syms(b: Seq<Seq<u8>>) -> Seq<u8> {
    syms_upto(b, b.len() as int)
}

/// A bucket that ends exactly at its capacity leaves no room: every later
/// bucket is empty.
proof fn lemma_full_capacity(b: Seq<Seq<u8>>, i: int, i2: int)
    requires
        valid_buckets(b),
        0 <= i < i2 < b.len(),
        start_val(b, i) + b[i].len() == pow2((i + 1) as nat),
    ensures
        b[i2].len() == 0,
        start_val(b, i2) + b[i2].len() == pow2((i2 + 1) as nat),
    decreases i2 - i,
{
    if i2 == i + 1 {
        vstd::arithmetic::power2::lemma_pow2_unfold((i2 + 1) as nat);
        assert(start_val(b, i2) == (start_val(b, i) + b[i].len()) * 2);
    } else {
        lemma_full_capacity(b, i, i2 - 1);
        vstd::arithmetic::power2::lemma_pow2_unfold((i2 + 1) as nat);
        assert(start_val(b, i2) == (start_val(b, i2 - 1) + b[i2 - 1].len()) * 2);
    }
}

/// The keys of the model book are the bucket symbols, in order.
proof fn lemma_book_model_syms(b: Seq<Seq<u8>>, i: int)
    requires
        0 <= i <= b.len(),
    ensures
        book_model_upto(b, i).len() == syms_upto(b, i).len(),
        forall|j: int|
            0 <= j < book_model_upto(b, i).len() ==> (#[trigger] book_model_upto(b, i)[j]).0
                == syms_upto(b, i)[j],
    decreases i,
{
    if i > 0 {
        lemma_book_model_syms(b, i - 1);
    }
}

/// Earlier symbol prefixes persist in later ones.
proof fn lemma_syms_extends(b: Seq<Seq<u8>>, i: int, i2: int)
    requires
        0 <= i <= i2,
    ensures
        syms_upto(b, i).len() <= syms_upto(b, i2).len(),
        forall|k: int|
            0 <= k < syms_upto(b, i).len() ==> #[trigger] syms_upto(b, i2)[k] == syms_upto(b, i)[k],
    decreases i2 - i,
{
    if i2 > i {
        lemma_syms_extends(b, i, i2 - 1);
    }
}

/// Assigns each symbol its canonical code: a running counter, shifted left
/// at each new length and incremented after each symbol, rendered at the
/// bucket's width.
pub fn canonical_book(encode_vector: Vec<Vec<u8>>) -> (r: IndexMap<u8, String>)
    requires
        valid_buckets(encode_vector.deep_view()),
        bucket_syms(encode_vector.deep_view()).no_duplicates(),
    ensures
        book_entries(r) == book_model(encode_vector.deep_view()),
{
    let ghost b = encode_vector.deep_view();
    let mut code_book = book_new();
    let mut counter: Vec<u8> = Vec::new();
    let ghost mut live: bool = true;
    let nb = encode_vector.len();
    proof {
        assert(book_entries(code_book) =~= book_model_upto(b, 0));
    }
    for i in 0..nb
        invariant
            b == encode_vector.deep_view(),
            nb == b.len(),
            valid_buckets(b),
            bucket_syms(b).no_duplicates(),
            bits_wf(counter@),
            counter@.len() == i,
            book_entries(code_book) == book_model_upto(b, i as int),
            live ==> 2 * bits_val(counter@) == start_val(b, i as int),
            !live ==> forall|k: int| i <= k < nb ==> (#[trigger] b[k]).len() == 0,
    {
        let ghost pre = counter@;
        counter.push(0);
        proof {
            assert(counter@.drop_last() =~= pre);
            assert(counter@.last() == 0u8);
            assert(bits_val(counter@) == 2 * bits_val(pre));
        }
        let bucket = &encode_vector[i];
        proof {
            assert(bucket@ =~= b[i as int]);
        }
        let cnt = bucket.len();
        proof {
            if live {
                lemma_bits_val_bound(pre);
                vstd::arithmetic::power2::lemma_pow2_unfold((i + 1) as nat);
            }
        }
        for j in 0..cnt
            invariant
                b == encode_vector.deep_view(),
                nb == b.len(),
                i < nb,
                valid_buckets(b),
                bucket_syms(b).no_duplicates(),
                bucket@ == b[i as int],
                cnt == b[i as int].len(),
                bits_wf(counter@),
                counter@.len() == i + 1,
                book_entries(code_book) == book_model_upto(b, i as int) + bucket_codes(
                    b,
                    i as int,
                ).take(j as int),
                live ==> bits_val(counter@) == start_val(b, i as int) + j,
                !live ==> j == cnt && (forall|k: int|
                    i < k < nb ==> (#[trigger] b[k]).len() == 0),
        {
            let sym = bucket[j];
            proof {
                assert(b[i as int][j as int] == sym);
                assert(live) by {
                    if !live {
                        assert(j == cnt);
                    }
                };
                assert(start_val(b, i as int) + cnt <= pow2((i + 1) as nat));
            }
            let code = bits_to_string(&counter);
            proof {
                let li = syms_upto(b, i as int).len();
                lemma_book_model_syms(b, i as int);
                lemma_syms_extends(b, i as int, nb as int);
                lemma_syms_extends(b, i + 1, nb as int);
                assert(syms_upto(b, i + 1) == syms_upto(b, i as int) + b[i as int]);
                assert(forall|q: int|
                    0 <= q < cnt ==> #[trigger] syms_upto(b, i + 1)[li + q] == b[i as int][q]);
                lemma_entries_find(book_entries(code_book), sym);
                let be = book_entries(code_book);
                if entries_find(be, sym) >= 0 {
                    let f = entries_find(be, sym);
                    assert(bucket_syms(b)[li + j] == syms_upto(b, i + 1)[li + j]);
                    if f < li {
                        assert(be[f].0 == syms_upto(b, i as int)[f]);
                        assert(bucket_syms(b)[f] == syms_upto(b, i as int)[f]);
                        assert(bucket_syms(b)[f] == bucket_syms(b)[li + j]);
                    } else {
                        let q = f - li;
                        assert(be[li + q].0 == bucket_codes(b, i as int).take(j as int)[q].0);
                        assert(be[li + q].0 == b[i as int][q]);
                        assert(bucket_syms(b)[li + q] == syms_upto(b, i + 1)[li + q]);
                        assert(bucket_syms(b)[li + q] == bucket_syms(b)[li + j]);
                    }
                    assert(false);
                }
            }
            book_insert(&mut code_book, sym, code);
            proof {
                assert(book_entries(code_book) =~= book_model_upto(b, i as int) + bucket_codes(
                    b,
                    i as int,
                ).take(j + 1));
            }
            let ghost before = counter@;
            incr_bits(&mut counter);
            proof {
                let sv = start_val(b, i as int);
                if sv + j + 1 < pow2((i + 1) as nat) {
                    assert(bits_val(counter@) == sv + j + 1);
                } else {
                    assert(sv + j + 1 == pow2((i + 1) as nat));
                    assert(j + 1 == cnt);
                    live = false;
                    assert forall|k: int| i < k < nb implies (#[trigger] b[k]).len() == 0 by {
                        lemma_full_capacity(b, i as int, k);
                    };
                }
            }
        }
        proof {
            assert(bucket_codes(b, i as int).take(cnt as int) =~= bucket_codes(b, i as int));
            assert(book_model_upto(b, i + 1) == book_model_upto(b, i as int) + bucket_codes(
                b,
                i as int,
            ));
            if live {
                assert(start_val(b, i + 1) == ((start_val(b, i as int) + b[i as int].len())
                    * 2) as nat);
            }
        }
    }
    code_book
}

// ---------------------------------------------------------------------------
// Pipeline facts: the symbols of the built tree are exactly the distinct
// bytes of the input, each once.
// ---------------------------------------------------------------------------

/// The keys of a table, in entry order.
pub open spec fn entry_keys<V>(s: Seq<(u8, V)>) -> Seq<u8> {
    s.map_values(|p: (u8, V)| p.0)
}

proof fn lemma_hist_len_bound(content: Seq<u8>)
    ensures
        hist_seq(content).len() <= content.len(),
    decreases content.len(),
{
    if content.len() > 0 {
        lemma_hist_len_bound(content.drop_last());
        lemma_entries_find(hist_seq(content.drop_last()), content.last());
    }
}

/// The frequency table holds each byte at most once, and holds exactly the
/// bytes that occur in the input.
proof fn lemma_hist_keys(content: Seq<u8>)
    ensures
        entry_keys(hist_seq(content)).no_duplicates(),
        forall|i: int|
            0 <= i < content.len() ==> entries_find(hist_seq(content), #[trigger] content[i]) >= 0,
    decreases content.len(),
{
    if content.len() > 0 {
        let prev = hist_seq(content.drop_last());
        let b = content.last();
        let cur = hist_seq(content);
        lemma_hist_keys(content.drop_last());
        lemma_entries_find(prev, b);
        if entries_find(prev, b) >= 0 {
            assert(entry_keys(cur) =~= entry_keys(prev));
        } else {
            assert(entry_keys(cur) =~= entry_keys(prev).push(b));
            assert(forall|j: int| 0 <= j < prev.len() ==> prev[j].0 != b);
        }
        lemma_entries_find(cur, b);
        if entries_find(cur, b) < 0 {
            if entries_find(prev, b) >= 0 {
                assert(cur[entries_find(prev, b)].0 == b);
            } else {
                assert(cur[cur.len() - 1].0 == b);
            }
            assert(false);
        }
        assert forall|i: int| 0 <= i < content.len() implies entries_find(
            cur,
            #[trigger] content[i],
        ) >= 0 by {
            if i < content.len() - 1 {
                let x = content[i];
                assert(content.drop_last()[i] == x);
                let f = entries_find(prev, x);
                lemma_entries_find(prev, x);
                lemma_entries_find(cur, x);
                if entries_find(cur, x) < 0 {
                    assert(cur[f].0 == x);
                    assert(false);
                }
            }
        };
    }
}

/// The leaf symbols of every tree in a sequence, in order.
pub open spec fn all_syms(s: Seq<Tree>) -> Seq<u8> {
    s.map_values(|t: Tree| tree_syms(t)).flatten()
}

proof fn lemma_all_syms_concat(a: Seq<Tree>, b: Seq<Tree>)
    ensures
        all_syms(a + b) == all_syms(a) + all_syms(b),
{
    assert((a + b).map_values(|t: Tree| tree_syms(t)) =~= a.map_values(|t: Tree| tree_syms(t))
        + b.map_values(|t: Tree| tree_syms(t)));
    vstd::seq_lib::lemma_flatten_concat(
        a.map_values(|t: Tree| tree_syms(t)),
        b.map_values(|t: Tree| tree_syms(t)),
    );
}

proof fn lemma_all_syms_single(t: Tree)
    ensures
        all_syms(seq![t]) == tree_syms(t),
{
    let m = seq![t].map_values(|x: Tree| tree_syms(x));
    assert(m =~= seq![tree_syms(t)]);
    m.lemma_flatten_one_element();
}

proof fn lemma_all_syms_insert(s: Seq<Tree>, p: int, t: Tree)
    requires
        0 <= p <= s.len(),
    ensures
        all_syms(s.insert(p, t)).to_multiset() == all_syms(s).to_multiset().add(
            tree_syms(t).to_multiset(),
        ),
{
    broadcast use vstd::seq_lib::group_to_multiset_ensures;

    assert(s.insert(p, t) =~= s.take(p) + (seq![t] + s.skip(p)));
    assert(s =~= s.take(p) + s.skip(p));
    lemma_all_syms_concat(s.take(p), seq![t] + s.skip(p));
    lemma_all_syms_concat(seq![t], s.skip(p));
    lemma_all_syms_concat(s.take(p), s.skip(p));
    lemma_all_syms_single(t);
    vstd::seq_lib::lemma_multiset_commutative(
        all_syms(s.take(p)),
        all_syms(seq![t]) + all_syms(s.skip(p)),
    );
    vstd::seq_lib::lemma_multiset_commutative(all_syms(seq![t]), all_syms(s.skip(p)));
    vstd::seq_lib::lemma_multiset_commutative(all_syms(s.take(p)), all_syms(s.skip(p)));
    assert(all_syms(s.insert(p, t)).to_multiset() =~= all_syms(s).to_multiset().add(
        tree_syms(t).to_multiset(),
    ));
}

/// Greedy merging neither loses nor invents a symbol.
proof fn lemma_huff_syms(s: Seq<Tree>)
    requires
        s.len() > 0,
    ensures
        spec_huff(s) matches Some(t) && tree_syms(t).to_multiset() == all_syms(s).to_multiset(),
    decreases s.len(),
{
    broadcast use vstd::seq_lib::group_to_multiset_ensures;

    if s.len() == 1 {
        assert(s =~= seq![s[0]]);
        lemma_all_syms_single(s[0]);
    } else {
        let rest = s.take(s.len() - 2);
        let second = s[s.len() - 2];
        let first = s.last();
        let n = merged(first, second);
        let p = reinsert_pos(rest, n.weight());
        lemma_reinsert_pos_range(rest, n.weight());
        lemma_huff_syms(merge_step(s));
        lemma_all_syms_insert(rest, p, n);
        assert(tree_syms(n) == tree_syms(first) + tree_syms(second));
        vstd::seq_lib::lemma_multiset_commutative(tree_syms(first), tree_syms(second));
        assert(s =~= rest + (seq![second] + seq![first]));
        lemma_all_syms_concat(rest, seq![second] + seq![first]);
        lemma_all_syms_concat(seq![second], seq![first]);
        lemma_all_syms_single(second);
        lemma_all_syms_single(first);
        vstd::seq_lib::lemma_multiset_commutative(
            all_syms(rest),
            all_syms(seq![second]) + all_syms(seq![first]),
        );
        vstd::seq_lib::lemma_multiset_commutative(all_syms(seq![second]), all_syms(seq![first]));
        assert(all_syms(merge_step(s)).to_multiset() =~= all_syms(s).to_multiset());
    }
}

proof fn lemma_sort_desc_syms(s: Seq<Tree>)
    ensures
        all_syms(sort_desc(s)).to_multiset() == all_syms(s).to_multiset(),
    decreases s.len(),
{
    broadcast use vstd::seq_lib::group_to_multiset_ensures;

    if s.len() > 0 {
        lemma_sort_desc_syms(s.drop_last());
        lemma_insert_desc_syms(sort_desc(s.drop_last()), s.last());
        assert(s =~= s.drop_last() + seq![s.last()]);
        lemma_all_syms_concat(s.drop_last(), seq![s.last()]);
        lemma_all_syms_single(s.last());
        vstd::seq_lib::lemma_multiset_commutative(all_syms(s.drop_last()), all_syms(seq![s.last()]));
        assert(all_syms(sort_desc(s)).to_multiset() =~= all_syms(s).to_multiset());
    }
}

proof fn lemma_insert_desc_syms(s: Seq<Tree>, t: Tree)
    ensures
        all_syms(insert_desc(s, t)).to_multiset() == all_syms(s).to_multiset().add(
            tree_syms(t).to_multiset(),
        ),
    decreases s.len(),
{
    broadcast use vstd::seq_lib::group_to_multiset_ensures;

    if s.len() == 0 {
        lemma_all_syms_single(t);
        assert(all_syms(s) =~= Seq::<u8>::empty()) by {
            assert(s.map_values(|x: Tree| tree_syms(x)) =~= Seq::<Seq<u8>>::empty());
        };
        assert(all_syms(insert_desc(s, t)).to_multiset() =~= all_syms(s).to_multiset().add(
            tree_syms(t).to_multiset(),
        ));
    } else if s[0].weight() < t.weight() {
        lemma_all_syms_concat(seq![t], s);
        lemma_all_syms_single(t);
        vstd::seq_lib::lemma_multiset_commutative(all_syms(seq![t]), all_syms(s));
        assert(all_syms(insert_desc(s, t)).to_multiset() =~= all_syms(s).to_multiset().add(
            tree_syms(t).to_multiset(),
        ));
    } else {
        lemma_insert_desc_syms(s.drop_first(), t);
        lemma_all_syms_concat(seq![s[0]], insert_desc(s.drop_first(), t));
        lemma_all_syms_concat(seq![s[0]], s.drop_first());
        assert(seq![s[0]] + s.drop_first() =~= s);
        lemma_all_syms_single(s[0]);
        vstd::seq_lib::lemma_multiset_commutative(
            all_syms(seq![s[0]]),
            all_syms(insert_desc(s.drop_first(), t)),
        );
        vstd::seq_lib::lemma_multiset_commutative(all_syms(seq![s[0]]), all_syms(s.drop_first()));
        assert(all_syms(insert_desc(s, t)).to_multiset() =~= all_syms(s).to_multiset().add(
            tree_syms(t).to_multiset(),
        ));
    }
}

proof fn lemma_leaf_seq_syms(h: Seq<(u8, u32)>)
    ensures
        all_syms(leaf_seq(h)) == entry_keys(h),
    decreases h.len(),
{
    if h.len() == 0 {
        assert(leaf_seq(h).map_values(|t: Tree| tree_syms(t)) =~= Seq::<Seq<u8>>::empty());
        assert(all_syms(leaf_seq(h)) =~= entry_keys(h));
    } else {
        lemma_leaf_seq_syms(h.drop_last());
        let m = leaf_seq(h).map_values(|t: Tree| tree_syms(t));
        let md = leaf_seq(h.drop_last()).map_values(|t: Tree| tree_syms(t));
        assert(m =~= md.push(seq![h.last().0]));
        vstd::seq_lib::lemma_flatten_concat(md, seq![seq![h.last().0]]);
        assert(md + seq![seq![h.last().0]] =~= m);
        seq![seq![h.last().0]].lemma_flatten_one_element();
        assert(all_syms(leaf_seq(h)) =~= entry_keys(h));
    }
}

/// The symbols of the tree built from the input's frequency table: each
/// distinct input byte exactly once.
proof fn lemma_pipeline_tree_syms(content: Seq<u8>)
    requires
        content.len() > 0,
        content.len() <= u32::MAX,
    ensures
        spec_huff(sort_desc(leaf_seq(hist_seq(content)))) matches Some(t) && {
            &&& tree_syms(t).no_duplicates()
            &&& tree_syms(t).to_multiset() == entry_keys(hist_seq(content)).to_multiset()
            &&& tree_syms(t).len() == hist_seq(content).len()
        },
{
    broadcast use vstd::seq_lib::group_to_multiset_ensures;

    let h = hist_seq(content);
    let s = sort_desc(leaf_seq(h));
    lemma_tree_weight_is_input_len(content);
    lemma_huff_syms(s);
    lemma_sort_desc_syms(leaf_seq(h));
    lemma_leaf_seq_syms(h);
    lemma_hist_keys(content);
    let t = spec_huff(s)->Some_0;
    assert(tree_syms(t).to_multiset() == entry_keys(h).to_multiset());
    entry_keys(h).lemma_multiset_has_no_duplicates();
    assert forall|x: u8| tree_syms(t).to_multiset().contains(x) implies tree_syms(
        t,
    ).to_multiset().count(x) == 1 by {
        assert(entry_keys(h).to_multiset().count(x) == tree_syms(t).to_multiset().count(x));
    };
    tree_syms(t).lemma_multiset_has_no_duplicates_conv();
    assert(entry_keys(h).len() == h.len());
    assert(tree_syms(t).len() == tree_syms(t).to_multiset().len());
    assert(entry_keys(h).len() == entry_keys(h).to_multiset().len());
}

// ---------------------------------------------------------------------------
// The whole pipeline as one specification: what compressing an input yields.
// ---------------------------------------------------------------------------

/// The Huffman tree of an input (meaningful only for non-empty inputs).
pub open spec fn spec_tree(content: Seq<u8>) -> Tree {
    spec_huff(sort_desc(leaf_seq(hist_seq(content))))->Some_0
}

/// The length table of an input: each distinct byte with its tree depth.
pub open spec fn spec_lens(content: Seq<u8>) -> Seq<(u8, usize)> {
    tree_depths(spec_tree(content), 0).map_values(|p: (u8, int)| (p.0, p.1 as usize))
}

/// The length buckets of an input.
pub open spec fn spec_buckets(content: Seq<u8>) -> Seq<Seq<u8>> {
    buckets_model(forced_lens(spec_lens(content)))
}

/// The canonical code book of an input.
pub open spec fn spec_book(content: Seq<u8>) -> Seq<(u8, Seq<char>)> {
    book_model(spec_buckets(content))
}

// ---------------------------------------------------------------------------
// The buckets of a Huffman tree are valid: Kraft's inequality.
// ---------------------------------------------------------------------------

proof fn lemma_tree_syms_len(t: Tree)
    ensures
        tree_syms(t).len() >= 1,
        tree_ht(t) < tree_syms(t).len(),
    decreases t,
{
    match t {
        Tree::Leaf(_, _) => {},
        Tree::Node(l, r, _) => {
            lemma_tree_syms_len(*l);
            lemma_tree_syms_len(*r);
        },
    }
}

proof fn lemma_insert_asc_multiset(s: Seq<u8>, x: u8)
    ensures
        insert_asc(s, x).to_multiset() == s.to_multiset().insert(x),
        insert_asc(s, x).len() == s.len() + 1,
    decreases s.len(),
{
    broadcast use vstd::seq_lib::group_to_multiset_ensures;

    if s.len() == 0 {
        assert(seq![x] =~= Seq::<u8>::empty().push(x));
        assert(insert_asc(s, x).to_multiset() =~= s.to_multiset().insert(x));
    } else if x < s[0] {
        vstd::seq_lib::lemma_multiset_commutative(seq![x], s);
        assert(seq![x] =~= Seq::<u8>::empty().push(x));
        assert(insert_asc(s, x).to_multiset() =~= s.to_multiset().insert(x));
    } else {
        lemma_insert_asc_multiset(s.drop_first(), x);
        vstd::seq_lib::lemma_multiset_commutative(seq![s[0]], insert_asc(s.drop_first(), x));
        vstd::seq_lib::lemma_multiset_commutative(seq![s[0]], s.drop_first());
        assert(seq![s[0]] + s.drop_first() =~= s);
        assert(seq![s[0]] =~= Seq::<u8>::empty().push(s[0]));
        assert(insert_asc(s, x).to_multiset() =~= s.to_multiset().insert(x));
    }
}

proof fn lemma_sort_asc_multiset(s: Seq<u8>)
    ensures
        sort_asc(s).to_multiset() == s.to_multiset(),
        sort_asc(s).len() == s.len(),
    decreases s.len(),
{
    broadcast use vstd::seq_lib::group_to_multiset_ensures;

    if s.len() > 0 {
        lemma_sort_asc_multiset(s.drop_last());
        lemma_insert_asc_multiset(sort_asc(s.drop_last()), s.last());
        assert(s =~= s.drop_last().push(s.last()));
    }
}

/// Every element of a per-length key list is the key of an entry of that
/// length, and with distinct keys the list has no duplicates.
proof fn lemma_kwl_facts(e: Seq<(u8, usize)>, l: int)
    ensures
        keys_with_len(e, l).len() <= e.len(),
        forall|q: int|
            0 <= q < keys_with_len(e, l).len() ==> exists|j: int|
                0 <= j < e.len() && (#[trigger] e[j]).0 == #[trigger] keys_with_len(e, l)[q]
                    && e[j].1 == l,
        entry_keys(e).no_duplicates() ==> keys_with_len(e, l).no_duplicates(),
        forall|j: int|
            0 <= j < e.len() && (#[trigger] e[j]).1 == l ==> keys_with_len(e, l).contains(e[j].0),
    decreases e.len(),
{
    broadcast use vstd::seq_lib::group_to_multiset_ensures;

    if e.len() > 0 {
        lemma_kwl_facts(e.drop_last(), l);
        let dl = e.drop_last();
        assert(forall|j: int| 0 <= j < dl.len() ==> dl[j] == e[j]);
        assert(entry_keys(e).no_duplicates() ==> entry_keys(dl).no_duplicates()) by {
            assert(forall|j: int|
                0 <= j < dl.len() ==> #[trigger] entry_keys(dl)[j] == entry_keys(e)[j]);
        };
        if e.last().1 == l {
            let k = keys_with_len(dl, l) + seq![e.last().0];
            assert(keys_with_len(e, l) == k);
            assert(forall|q: int|
                0 <= q < keys_with_len(dl, l).len() ==> #[trigger] k[q] == keys_with_len(dl, l)[q]);
            assert(k[k.len() - 1] == e.last().0);
            if entry_keys(e).no_duplicates() {
                assert forall|q: int, q2: int|
                    0 <= q < q2 < k.len() implies #[trigger] k[q] != #[trigger] k[q2] by {
                    if q2 == k.len() - 1 {
                        let j = choose|j: int|
                            0 <= j < dl.len() && (#[trigger] dl[j]).0 == k[q] && dl[j].1 == l;
                        assert(entry_keys(e)[j] == e[j].0);
                        assert(entry_keys(e)[e.len() - 1] == e.last().0);
                    }
                };
            }
        } else {
            assert(keys_with_len(e, l) =~= keys_with_len(dl, l));
        }
        assert forall|j: int|
            0 <= j < e.len() && (#[trigger] e[j]).1 == l implies keys_with_len(e, l).contains(
            e[j].0,
        ) by {
            if j < e.len() - 1 {
                assert(dl[j].1 == l);
                assert(keys_with_len(dl, l).contains(dl[j].0));
                let q = choose|q: int|
                    0 <= q < keys_with_len(dl, l).len() && #[trigger] keys_with_len(dl, l)[q]
                        == dl[j].0;
                assert(keys_with_len(e, l)[q] == dl[j].0);
            } else {
                assert(keys_with_len(e, l)[keys_with_len(e, l).len() - 1] == e.last().0);
            }
        };
    }
}

/// Number of leaves at depth `d` below the root.
pub open spec fn cnt_at(t: Tree, d: int) -> nat
    decreases t,
{
    match t {
        Tree::Leaf(_, _) => if d == 0 {
            1
        } else {
            0
        },
        Tree::Node(l, r, _) => cnt_at(*l, d - 1) + cnt_at(*r, d - 1),
    }
}

/// Number of entries at depth `d` in a depth table.
pub open spec fn depth_count(s: Seq<(u8, int)>, d: int) -> nat
    decreases s.len(),
{
    if s.len() == 0 {
        0
    } else {
        depth_count(s.drop_last(), d) + if s.last().1 == d {
            1nat
        } else {
            0
        }
    }
}

proof fn lemma_depth_count_concat(a: Seq<(u8, int)>, b: Seq<(u8, int)>, d: int)
    ensures
        depth_count(a + b, d) == depth_count(a, d) + depth_count(b, d),
    decreases b.len(),
{
    if b.len() == 0 {
        assert(a + b =~= a);
    } else {
        lemma_depth_count_concat(a, b.drop_last(), d);
        assert((a + b).drop_last() =~= a + b.drop_last());
        assert((a + b).last() == b.last());
    }
}

proof fn lemma_depth_count_tree(t: Tree, base: int, d: int)
    ensures
        depth_count(tree_depths(t, base), d) == cnt_at(t, d - base),
    decreases t,
{
    match t {
        Tree::Leaf(k, _) => {
            assert(tree_depths(t, base) == seq![(k, base)]);
            assert(seq![(k, base)].drop_last() =~= Seq::<(u8, int)>::empty());
            assert(depth_count(Seq::<(u8, int)>::empty(), d) == 0);
            assert(seq![(k, base)].last() == (k, base));
        },
        Tree::Node(l, r, _) => {
            lemma_depth_count_tree(*l, base + 1, d);
            lemma_depth_count_tree(*r, base + 1, d);
            lemma_depth_count_concat(tree_depths(*l, base + 1), tree_depths(*r, base + 1), d);
        },
    }
}

proof fn lemma_kwl_len_depth(e: Seq<(u8, usize)>, l: int)
    ensures
        keys_with_len(e, l).len() == depth_count(lens_as_int(e), l),
    decreases e.len(),
{
    if e.len() > 0 {
        lemma_kwl_len_depth(e.drop_last(), l);
        assert(lens_as_int(e).drop_last() =~= lens_as_int(e.drop_last()));
        assert(lens_as_int(e).last() == (e.last().0, e.last().1 as int));
    }
}

/// Weighted leaf count up to depth `i`: the number of codes the first `i`
/// levels could still admit, scaled to width `i`.
pub open spec fn ksum(t: Tree, i: int) -> nat
    decreases i + 1,
{
    if i < 0 {
        0
    } else {
        2 * ksum(t, i - 1) + cnt_at(t, i)
    }
}

proof fn lemma_ksum_leaf(t: Tree, i: int)
    requires
        t is Leaf,
        i >= 0,
    ensures
        ksum(t, i) == pow2(i as nat),
    decreases i,
{
    if i == 0 {
        assert(pow2(0) == 1) by { vstd::arithmetic::power2::lemma2_to64() };
        assert(ksum(t, -1) == 0);
        assert(cnt_at(t, 0) == 1);
        assert(ksum(t, 0) == 2 * ksum(t, -1) + cnt_at(t, 0));
    } else {
        lemma_ksum_leaf(t, i - 1);
        vstd::arithmetic::power2::lemma_pow2_unfold(i as nat);
        assert(cnt_at(t, i) == 0);
        assert(ksum(t, i) == 2 * ksum(t, i - 1) + cnt_at(t, i));
    }
}

proof fn lemma_cnt_neg(t: Tree, d: int)
    requires
        d < 0,
    ensures
        cnt_at(t, d) == 0,
    decreases t,
{
    match t {
        Tree::Leaf(_, _) => {},
        Tree::Node(l, r, _) => {
            lemma_cnt_neg(*l, d - 1);
            lemma_cnt_neg(*r, d - 1);
        },
    }
}

proof fn lemma_ksum_node(l: Tree, r: Tree, w: u32, i: int)
    requires
        i >= 0,
    ensures
        ksum(Tree::Node(Box::new(l), Box::new(r), w), i) == if i >= 1 {
            ksum(l, i - 1) + ksum(r, i - 1)
        } else {
            0nat
        },
    decreases i,
{
    let t = Tree::Node(Box::new(l), Box::new(r), w);
    if i == 0 {
        lemma_cnt_neg(l, -1);
        lemma_cnt_neg(r, -1);
        assert(cnt_at(t, 0) == cnt_at(l, -1) + cnt_at(r, -1));
        assert(ksum(t, 0) == 2 * ksum(t, -1) + cnt_at(t, 0));
    } else {
        lemma_ksum_node(l, r, w, i - 1);
        assert(cnt_at(t, i) == cnt_at(l, i - 1) + cnt_at(r, i - 1));
        assert(ksum(t, i) == 2 * ksum(t, i - 1) + cnt_at(t, i));
        assert(ksum(l, i - 1) == 2 * ksum(l, i - 2) + cnt_at(l, i - 1));
        assert(ksum(r, i - 1) == 2 * ksum(r, i - 2) + cnt_at(r, i - 1));
    }
}

proof fn lemma_ksum_bound(t: Tree, i: int)
    requires
        i >= 0,
    ensures
        ksum(t, i) <= pow2(i as nat),
    decreases t,
{
    match t {
        Tree::Leaf(_, _) => {
            lemma_ksum_leaf(t, i);
        },
        Tree::Node(l, r, w) => {
            if i == 0 {
                lemma_ksum_node(*l, *r, w, 0);
                assert(pow2(0) == 1) by { vstd::arithmetic::power2::lemma2_to64() };
                assert(Tree::Node(Box::new(*l), Box::new(*r), w) == t);
            } else {
                lemma_ksum_bound(*l, i - 1);
                lemma_ksum_bound(*r, i - 1);
                lemma_ksum_node(*l, *r, w, i);
                assert(Tree::Node(Box::new(*l), Box::new(*r), w) == t);
                vstd::arithmetic::power2::lemma_pow2_unfold(i as nat);
            }
        },
    }
}

proof fn lemma_start_ksum(b: Seq<Seq<u8>>, t: Tree, i: int)
    requires
        0 <= i < b.len(),
        cnt_at(t, 0) == 0,
        forall|j: int| 0 <= j < b.len() ==> (#[trigger] b[j]).len() == cnt_at(t, j + 1),
    ensures
        start_val(b, i) + b[i].len() == ksum(t, i + 1),
    decreases i,
{
    if i == 0 {
        assert(ksum(t, 0) == 2 * ksum(t, -1) + cnt_at(t, 0));
        assert(ksum(t, 1) == 2 * ksum(t, 0) + cnt_at(t, 1));
    } else {
        lemma_start_ksum(b, t, i - 1);
        assert(start_val(b, i) == ((start_val(b, i - 1) + b[i - 1].len()) * 2) as nat);
        assert(ksum(t, i + 1) == 2 * ksum(t, i) + cnt_at(t, i + 1));
    }
}

proof fn lemma_syms_upto_contains(b: Seq<Seq<u8>>, i: int, i2: int, x: u8)
    requires
        0 <= i < i2 <= b.len(),
        b[i].contains(x),
    ensures
        syms_upto(b, i2).contains(x),
    decreases i2,
{
    if i2 == i + 1 {
        let q = choose|q: int| 0 <= q < b[i].len() && b[i][q] == x;
        assert(syms_upto(b, i2) == syms_upto(b, i) + b[i]);
        assert(syms_upto(b, i2)[syms_upto(b, i).len() + q] == x);
    } else {
        lemma_syms_upto_contains(b, i, i2 - 1, x);
        let q = choose|q: int|
            0 <= q < syms_upto(b, i2 - 1).len() && #[trigger] syms_upto(b, i2 - 1)[q] == x;
        assert(syms_upto(b, i2)[q] == x);
    }
}

/// The facts compress needs of the pipeline's buckets: they are valid for
/// canonical assignment, their symbols are distinct, and every input byte
/// owns a code in the resulting book.
proof fn lemma_pipeline_buckets(content: Seq<u8>)
    requires
        0 < content.len() <= u32::MAX,
    ensures
        valid_buckets(spec_buckets(content)),
        bucket_syms(spec_buckets(content)).no_duplicates(),
        forall|i: int|
            0 <= i < content.len() ==> entries_find(
                book_model(spec_buckets(content)),
                #[trigger] content[i],
            ) >= 0,
{
    broadcast use vstd::seq_lib::group_to_multiset_ensures;

    let h = hist_seq(content);
    let t = spec_tree(content);
    let lens = spec_lens(content);
    let f = forced_lens(lens);
    let b = spec_buckets(content);
    lemma_pipeline_tree_syms(content);
    lemma_hist_keys(content);
    lemma_hist_len_bound(content);
    lemma_tree_syms_len(t);
    lemma_tree_depths_syms(t, 0);
    lemma_tree_depths_range(t, 0);
    assert(lens_as_int(lens) =~= tree_depths(t, 0)) by {
        assert forall|j: int| 0 <= j < lens.len() implies #[trigger] lens_as_int(lens)[j]
            == tree_depths(t, 0)[j] by {
            assert(lens[j] == (tree_depths(t, 0)[j].0, tree_depths(t, 0)[j].1 as usize));
            assert(0 <= tree_depths(t, 0)[j].1 <= tree_ht(t));
            assert(tree_ht(t) < tree_syms(t).len());
        };
    };
    assert(entry_keys(lens) =~= tree_syms(t));
    // Each bucket's size is the leaf count at its depth; its elements are
    // keys of the length table.
    assert(b == buckets_model(f));
    if t is Leaf {
        let k = tree_syms(t)[0];
        assert(tree_depths(t, 0) == seq![(k, 0int)]);
        assert(lens =~= seq![(k, 0usize)]);
        assert(f == seq![(k, 1usize)]);
        assert(f.drop_last() =~= Seq::<(u8, usize)>::empty());
        assert(max_len(Seq::<(u8, usize)>::empty()) == 0);
        assert(keys_with_len(Seq::<(u8, usize)>::empty(), 1) =~= Seq::<u8>::empty());
        assert(f.last() == (k, 1usize));
        assert(max_len(f) == 1);
        assert(keys_with_len(f, 1) =~= seq![k]);
        assert(sort_asc(seq![k]) =~= seq![k]) by {
            assert(seq![k].drop_last() =~= Seq::<u8>::empty());
            assert(sort_asc(Seq::<u8>::empty()) == Seq::<u8>::empty());
            assert(insert_asc(Seq::<u8>::empty(), k) == seq![k]);
        };
        assert(b =~= seq![seq![k]]);
        assert forall|i: int|
            0 <= i < b.len() implies start_val(b, i) + (#[trigger] b[i]).len() <= pow2(
            (i + 1) as nat,
        ) by {
            assert(pow2(1) == 2) by { vstd::arithmetic::power2::lemma2_to64() };
            assert(i == 0);
            assert(start_val(b, 0) == 0);
            assert(b[0].len() == 1);
        };
        assert(syms_upto(b, 1) == syms_upto(b, 0) + b[0]);
        assert(bucket_syms(b) =~= seq![k]);
        assert(bucket_syms(b).no_duplicates());
        lemma_book_model_syms(b, b.len() as int);
        assert(book_model(b).len() == 1);
        assert(book_model(b)[0].0 == k);
        assert forall|i: int| 0 <= i < content.len() implies entries_find(
            book_model(b),
            #[trigger] content[i],
        ) >= 0 by {
            let x = content[i];
            assert(entries_find(h, x) >= 0);
            lemma_entries_find(h, x);
            assert(entry_keys(h)[entries_find(h, x)] == x);
            assert(h.len() == 1);
            assert(x == k) by {
                assert(entry_keys(h)[entries_find(h, x)] == x);
                assert(entry_keys(h).contains(x));
                assert(entry_keys(h).to_multiset().contains(x));
                assert(tree_syms(t).to_multiset().contains(x));
                assert(tree_syms(t).contains(x));
                assert(tree_syms(t).len() == 1);
            };
            assert(book_model(b)[0].0 == bucket_syms(b)[0]);
            lemma_entries_find(book_model(b), x);
            if entries_find(book_model(b), x) < 0 {
                assert(book_model(b)[0].0 != x);
                assert(false);
            }
        };
    } else {
        // A proper tree: every depth is at least one, the table is kept as
        // it is, and Kraft's inequality bounds every bucket.
        let lt = match t {
            Tree::Node(l, _, _) => *l,
            _ => t,
        };
        let rt = match t {
            Tree::Node(_, r, _) => *r,
            _ => t,
        };
        lemma_tree_syms_len(lt);
        lemma_tree_syms_len(rt);
        assert(tree_syms(t).len() >= 2);
        assert(lens.len() >= 2);
        assert(f == lens);
        lemma_tree_depths_range(lt, 1);
        lemma_tree_depths_range(rt, 1);
        assert(forall|j: int| 0 <= j < lens.len() ==> (#[trigger] tree_depths(t, 0)[j]).1 >= 1);
        assert(forall|j: int| 0 <= j < lens.len() ==> (#[trigger] lens[j]).1 >= 1);
        lemma_cnt_neg(lt, -1);
        lemma_cnt_neg(rt, -1);
        assert(cnt_at(t, 0) == cnt_at(lt, -1) + cnt_at(rt, -1));
        lemma_max_len_bound(lens);
        let ml = max_len(lens);
        assert(b.len() == ml);
        assert forall|j: int| 0 <= j < b.len() implies (#[trigger] b[j]).len() == cnt_at(
            t,
            j + 1,
        ) by {
            assert(b[j] == sort_asc(keys_with_len(f, j + 1)));
            lemma_sort_asc_multiset(keys_with_len(f, j + 1));
            lemma_kwl_len_depth(f, j + 1);
            lemma_depth_count_tree(t, 0, j + 1);
        };
        assert(cnt_at(t, 0) == 0);
        assert(valid_buckets(b)) by {
            assert forall|i: int| 0 <= i < b.len() implies start_val(b, i) + (#[trigger] b[i]).len()
                <= pow2((i + 1) as nat) by {
                lemma_start_ksum(b, t, i);
                lemma_ksum_bound(t, i + 1);
            };
        };
        // Distinct symbols across the buckets.
        assert forall|i: int| 0 <= i <= b.len() implies syms_upto(b, i).no_duplicates() && (
        forall|q: int|
            0 <= q < syms_upto(b, i).len() ==> exists|j: int|
                0 <= j < f.len() && (#[trigger] f[j]).0 == #[trigger] syms_upto(b, i)[q] && 1
                    <= f[j].1 <= i) by {
            lemma_syms_upto_nodup(b, f, i);
        }
        assert(bucket_syms(b).no_duplicates());
        // Every input byte owns a code.
        lemma_book_model_syms(b, b.len() as int);
        assert forall|i: int| 0 <= i < content.len() implies entries_find(
            book_model(b),
            #[trigger] content[i],
        ) >= 0 by {
            let x = content[i];
            assert(entries_find(h, x) >= 0);
            lemma_entries_find(h, x);
            assert(entry_keys(h)[entries_find(h, x)] == x);
            assert(entry_keys(h).to_multiset().contains(x));
            assert(tree_syms(t).contains(x));
            let j = choose|j: int| 0 <= j < tree_syms(t).len() && tree_syms(t)[j] == x;
            assert(lens[j].0 == x);
            let l = lens[j].1 as int;
            assert(1 <= l <= max_len(lens));
            lemma_kwl_facts(f, l);
            assert(keys_with_len(f, l).contains(x));
            lemma_sort_asc_multiset(keys_with_len(f, l));
            assert(b[l - 1].contains(x)) by {
                assert(b[l - 1] == sort_asc(keys_with_len(f, l)));
                assert(sort_asc(keys_with_len(f, l)).to_multiset().contains(x));
            };
            lemma_syms_upto_contains(b, l - 1, b.len() as int, x);
            let q = choose|q: int|
                0 <= q < bucket_syms(b).len() && #[trigger] bucket_syms(b)[q] == x;
            assert(book_model(b)[q].0 == x);
            lemma_entries_find(book_model(b), x);
            if entries_find(book_model(b), x) < 0 {
                assert(false);
            }
        };
    }
}

/// First `i` buckets: no duplicate symbols, and every symbol is a key of an
/// entry with length between 1 and `i`.
proof fn lemma_syms_upto_nodup(b: Seq<Seq<u8>>, f: Seq<(u8, usize)>, i: int)
    requires
        0 <= i <= b.len(),
        entry_keys(f).no_duplicates(),
        forall|j: int| 0 <= j < b.len() ==> #[trigger] b[j] == sort_asc(keys_with_len(f, j + 1)),
    ensures
        syms_upto(b, i).no_duplicates(),
        forall|q: int|
            0 <= q < syms_upto(b, i).len() ==> exists|j: int|
                0 <= j < f.len() && (#[trigger] f[j]).0 == #[trigger] syms_upto(b, i)[q] && 1
                    <= f[j].1 <= i,
    decreases i,
{
    broadcast use vstd::seq_lib::group_to_multiset_ensures;

    if i > 0 {
        lemma_syms_upto_nodup(b, f, i - 1);
        let prev = syms_upto(b, i - 1);
        let cur = b[i - 1];
        assert(syms_upto(b, i) == prev + cur);
        lemma_sort_asc_multiset(keys_with_len(f, i));
        lemma_kwl_facts(f, i);
        assert(keys_with_len(f, i).no_duplicates());
        keys_with_len(f, i).lemma_multiset_has_no_duplicates();
        assert forall|x: u8| cur.to_multiset().contains(x) implies cur.to_multiset().count(x)
            == 1 by {
            assert(keys_with_len(f, i).to_multiset().count(x) == cur.to_multiset().count(x));
        };
        cur.lemma_multiset_has_no_duplicates_conv();
        // every element of the new bucket is a key with length exactly i
        assert forall|q: int| 0 <= q < cur.len() implies exists|j: int|
            0 <= j < f.len() && (#[trigger] f[j]).0 == #[trigger] cur[q] && f[j].1 == i by {
            assert(cur.to_multiset().contains(cur[q]));
            assert(keys_with_len(f, i).to_multiset().contains(cur[q]));
            assert(keys_with_len(f, i).contains(cur[q]));
            let q2 = choose|q2: int|
                0 <= q2 < keys_with_len(f, i).len() && keys_with_len(f, i)[q2] == cur[q];
            assert(exists|j: int|
                0 <= j < f.len() && (#[trigger] f[j]).0 == keys_with_len(f, i)[q2] && f[j].1 == i);
        };
        // disjoint from the earlier prefix: lengths differ, keys distinct
        assert forall|a: int, c: int| 0 <= a < prev.len() && 0 <= c < cur.len() implies prev[a]
            != cur[c] by {
            if prev[a] == cur[c] {
                let j1 = choose|j: int|
                    0 <= j < f.len() && (#[trigger] f[j]).0 == prev[a] && 1 <= f[j].1 <= i - 1;
                let j2 = choose|j: int| 0 <= j < f.len() && (#[trigger] f[j]).0 == cur[c] && f[j].1
                    == i;
                assert(j1 != j2);
                assert(entry_keys(f)[j1] == f[j1].0);
                assert(entry_keys(f)[j2] == f[j2].0);
            }
        };
        assert forall|a: int, c: int|
            0 <= a < c < syms_upto(b, i).len() implies #[trigger] syms_upto(b, i)[a]
            != #[trigger] syms_upto(b, i)[c] by {
            if c < prev.len() {
                assert(prev[a] != prev[c]);
            } else if a >= prev.len() {
                assert(cur[a - prev.len()] != cur[c - prev.len()]);
            } else {
                assert(prev[a] != cur[c - prev.len()]);
            }
        };
    }
}

// ---------------------------------------------------------------------------
// The canonical property: no code is a prefix of another, and codes of one
// length are consecutive.
// ---------------------------------------------------------------------------

/// `a` is an initial segment of `b`.
pub open spec fn is_prefix(a: Seq<char>, b: Seq<char>) -> bool {
    a.len() <= b.len() && b.take(a.len() as int) == a
}

proof fn lemma_upto_len_monotone(b: Seq<Seq<u8>>, i1: int, i2: int)
    requires
        0 <= i1 <= i2,
    ensures
        book_model_upto(b, i1).len() <= book_model_upto(b, i2).len(),
    decreases i2 - i1,
{
    if i1 < i2 {
        lemma_upto_len_monotone(b, i1, i2 - 1);
    }
}

proof fn lemma_book_decompose(b: Seq<Seq<u8>>, i: int, p: int) -> (r: (int, int))
    requires
        0 <= i <= b.len(),
        0 <= p < book_model_upto(b, i).len(),
    ensures
        ({
            let (bi, j) = r;
            &&& 0 <= bi < i
            &&& 0 <= j < b[bi].len()
            &&& p == book_model_upto(b, bi).len() + j
            &&& book_model_upto(b, i)[p] == (
                b[bi][j],
                bin_str((start_val(b, bi) + j) as nat, (bi + 1) as nat),
            )
        }),
    decreases i,
{
    if p < book_model_upto(b, i - 1).len() {
        let (bi, j) = lemma_book_decompose(b, i - 1, p);
        (bi, j)
    } else {
        let j = p - book_model_upto(b, i - 1).len();
        (i - 1, j)
    }
}

proof fn lemma_start_monotone(b: Seq<Seq<u8>>, i1: int, i2: int)
    requires
        0 <= i1 < i2,
    ensures
        start_val(b, i2) >= (start_val(b, i1) + b[i1].len()) * pow2((i2 - i1) as nat),
    decreases i2 - i1,
{
    vstd::arithmetic::power2::lemma_pow2_pos((i2 - i1) as nat);
    if i2 == i1 + 1 {
        assert(pow2(1) == 2) by { vstd::arithmetic::power2::lemma2_to64() };
    } else {
        lemma_start_monotone(b, i1, i2 - 1);
        vstd::arithmetic::power2::lemma_pow2_unfold((i2 - i1) as nat);
        let s = start_val(b, i1) + b[i1].len();
        let p = pow2((i2 - i1 - 1) as nat) as int;
        assert(start_val(b, i2) >= (start_val(b, i2 - 1) + b[i2 - 1].len()) * 2);
        assert(start_val(b, i2 - 1) + b[i2 - 1].len() >= start_val(b, i2 - 1) >= s * p);
        assert((s * p) * 2 == s * (2 * p)) by (nonlinear_arith);
    }
}

/// Canonical law: in the book assigned to valid length buckets no code is a
/// prefix of another, and two codes of equal length differ, as numbers, by
/// exactly the difference of their ranks within that length's bucket.
pub proof fn lemma_canonical_book(b: Seq<Seq<u8>>)
    requires
        valid_buckets(b),
    ensures
        forall|p: int, q: int|
            0 <= p < book_model(b).len() && 0 <= q < book_model(b).len() && p != q
                ==> !is_prefix(
                (#[trigger] book_model(b)[p]).1,
                (#[trigger] book_model(b)[q]).1,
            ),
        forall|i: int, j1: int, j2: int|
            0 <= i < b.len() && 0 <= j1 <= j2 < b[i].len() ==> char_val(
                #[trigger] bucket_codes(b, i)[j2].1,
            ) - char_val(#[trigger] bucket_codes(b, i)[j1].1) == j2 - j1,
{
    assert forall|i: int, j1: int, j2: int|
        0 <= i < b.len() && 0 <= j1 <= j2 < b[i].len() implies char_val(
        #[trigger] bucket_codes(b, i)[j2].1,
    ) - char_val(#[trigger] bucket_codes(b, i)[j1].1) == j2 - j1 by {
        let w = (i + 1) as nat;
        let v1 = (start_val(b, i) + j1) as nat;
        let v2 = (start_val(b, i) + j2) as nat;
        assert(start_val(b, i) + b[i].len() <= pow2(w));
        lemma_char_val_bin_str(v1, w);
        lemma_char_val_bin_str(v2, w);
    };
    let m = book_model(b);
    assert forall|p: int, q: int|
        0 <= p < m.len() && 0 <= q < m.len() && p != q implies !is_prefix(
        (#[trigger] m[p]).1,
        (#[trigger] m[q]).1,
    ) by {
        let (i1, j1) = lemma_book_decompose(b, b.len() as int, p);
        let (i2, j2) = lemma_book_decompose(b, b.len() as int, q);
        let w1 = (i1 + 1) as nat;
        let w2 = (i2 + 1) as nat;
        let v1 = (start_val(b, i1) + j1) as nat;
        let v2 = (start_val(b, i2) + j2) as nat;
        lemma_bin_str_len(v1, w1);
        lemma_bin_str_len(v2, w2);
        assert(start_val(b, i1) + b[i1].len() <= pow2(w1));
        assert(start_val(b, i2) + b[i2].len() <= pow2(w2));
        if i1 == i2 {
            assert(j1 != j2) by {
                if j1 == j2 {
                    lemma_upto_len_monotone(b, 0, i1);
                }
            };
            lemma_bin_str_injective(v1, v2, w1);
            if is_prefix(m[p].1, m[q].1) {
                assert(m[q].1.take(w1 as int) =~= m[q].1);
                assert(false);
            }
        } else if i1 < i2 {
            if is_prefix(m[p].1, m[q].1) {
                let d = (i2 - i1) as nat;
                lemma_bin_str_prefix(v2, w1, w2);
                vstd::arithmetic::power2::lemma_pow2_pos(d);
                let pd = pow2(d) as int;
                assert(pd * pow2(w1) == pow2(w2)) by {
                    vstd::arithmetic::power2::lemma_pow2_adds(w1, d);
                    assert(pow2(w1) * pow2(d) == pow2(d) * pow2(w1)) by (nonlinear_arith);
                };
                assert(v2 / pow2(d) < pow2(w1)) by {
                    vstd::arithmetic::div_mod::lemma_fundamental_div_mod(v2 as int, pd);
                    if v2 as int / pd >= pow2(w1) {
                        assert(pd * (v2 as int / pd) >= pd * pow2(w1)) by (nonlinear_arith)
                            requires
                                pd > 0,
                                v2 as int / pd >= pow2(w1),
                        ;
                        assert(false);
                    }
                };
                if v1 != v2 / pow2(d) {
                    lemma_bin_str_injective(v1, (v2 / pow2(d)) as nat, w1);
                }
                assert(v1 == v2 as int / pd);
                lemma_start_monotone(b, i1, i2);
                assert(v2 >= (v1 + 1) * pd) by (nonlinear_arith)
                    requires
                        v2 >= start_val(b, i2),
                        start_val(b, i2) >= (start_val(b, i1) + b[i1].len()) * pd,
                        start_val(b, i1) + b[i1].len() >= v1 + 1,
                        pd > 0,
                ;
                vstd::arithmetic::div_mod::lemma_div_is_ordered((v1 as int + 1) * pd, v2 as int, pd);
                vstd::arithmetic::div_mod::lemma_div_multiples_vanish(v1 as int + 1, pd);
                assert(v2 as int / pd >= v1 + 1);
                assert(false);
            }
        } else {
            // a longer code cannot be a prefix of a shorter one unless the
            // widths coincide
            if is_prefix(m[p].1, m[q].1) {
                assert(w1 <= w2);
                assert(false);
            }
        }
    };
}

// ---------------------------------------------------------------------------
// Header serialization.
// ---------------------------------------------------------------------------

/// The length stored for byte `k`, or 0 when `k` owns no code.
pub open spec fn len_or_zero(s: Seq<(u8, usize)>, k: u8) -> int {
    if entries_find(s, k) >= 0 {
        s[entries_find(s, k)].1 as int
    } else {
        0
    }
}

/// The dense table dump: for every byte value, the low eight bits of its
/// code length in one byte.
pub open spec fn dump_all_model(s: Seq<(u8, usize)>) -> Seq<u8> {
    Seq::new(256, |c: int| (len_or_zero(s, c as u8) % 256) as u8)
}

/// Number of codes of length `l` in the book.
pub open spec fn code_count(e: Seq<(u8, Seq<char>)>, l: int) -> int
    decreases e.len(),
{
    if e.len() == 0 {
        0
    } else {
        code_count(e.drop_last(), l) + if e.last().1.len() == l {
            1int
        } else {
            0int
        }
    }
}

/// The longest code length in the book; 0 when the book is empty.
pub open spec fn book_max_len(e: Seq<(u8, Seq<char>)>) -> int
    decreases e.len(),
{
    if e.len() == 0 {
        0
    } else if book_max_len(e.drop_last()) >= e.last().1.len() {
        book_max_len(e.drop_last())
    } else {
        e.last().1.len() as int
    }
}

/// The run-length counts of the sparse dump: one count per length from 1 up
/// to the longest (at least one count byte, even for an empty book).
pub open spec fn counts_model(e: Seq<(u8, Seq<char>)>) -> Seq<u8> {
    Seq::new(
        if book_max_len(e) >= 1 {
            book_max_len(e) as nat
        } else {
            1
        },
        |l: int| code_count(e, l + 1) as u8,
    )
}

/// The keys of the book in its entry order.
pub open spec fn book_keys(e: Seq<(u8, Seq<char>)>) -> Seq<u8> {
    e.map_values(|p: (u8, Seq<char>)| p.0)
}

/// The sparse table dump: run-length counts, then the symbols in book order.
pub open spec fn dump_used_model(e: Seq<(u8, Seq<char>)>) -> Seq<u8> {
    counts_model(e) + book_keys(e)
}

proof fn lemma_code_count_bound(e: Seq<(u8, Seq<char>)>, l: int)
    ensures
        0 <= code_count(e, l) <= e.len(),
    decreases e.len(),
{
    if e.len() > 0 {
        lemma_code_count_bound(e.drop_last(), l);
    }
}

/// Emits, for every byte value 0 to 255 in order, its code length as one
/// byte, 0 for bytes without a code: the dense header table.
pub fn dump_all(len_book: IndexMap<u8, usize>) -> (r: Vec<u8>)
    ensures
        r@ == dump_all_model(len_entries(len_book)),
{
    let ghost e = len_entries(len_book);
    let mut encoding: Vec<u8> = Vec::new();
    for c in 0..256usize
        invariant
            e == len_entries(len_book),
            encoding@.len() == c,
            forall|k: int| 0 <= k < c ==> (#[trigger] encoding@[k]) as int == len_or_zero(
                e,
                k as u8,
            ) % 256,
    {
        proof {
            lemma_entries_find(e, c as u8);
        }
        let enc_len: usize = match lens_get(&len_book, c as u8) {
            Some(l) => l,
            None => 0,
        };
        encoding.push((enc_len % 256) as u8);
    }
    proof {
        assert(encoding@ =~= dump_all_model(e));
    }
    encoding
}

/// Emits the sparse header table: one count byte per code length from 1 up
/// to the longest length present, then every symbol in book order.
pub fn dump_used(book: IndexMap<u8, String>) -> (r: Vec<u8>)
    requires
        book_entries(book).len() <= 255,
    ensures
        r@ == dump_used_model(book_entries(book)),
{
    let ghost e = book_entries(book);
    let n = book_len(&book);
    let mut longest: usize = 1;
    for idx in 0..n
        invariant
            e == book_entries(book),
            n == e.len(),
            longest >= 1,
            longest as int == if book_max_len(e.take(idx as int)) >= 1 {
                book_max_len(e.take(idx as int))
            } else {
                1
            },
    {
        let pair = book_get_index(&book, idx).unwrap();
        let cl = str_chars_vec(pair.1.as_str()).len();
        proof {
            assert(e.take(idx + 1).drop_last() =~= e.take(idx as int));
            assert(e.take(idx + 1).last() == e[idx as int]);
            assert(pair.1@ == e[idx as int].1);
        }
        if cl > longest {
            longest = cl;
        }
    }
    proof {
        assert(e.take(n as int) =~= e);
    }
    let mut encoding: Vec<u8> = Vec::new();
    for l in 0..longest
        invariant
            e == book_entries(book),
            n == e.len(),
            n <= 255,
            longest as int == counts_model(e).len(),
            encoding@.len() == l,
            forall|k: int| 0 <= k < l ==> (#[trigger] encoding@[k]) as int == code_count(e, k + 1),
    {
        let mut cnt: u8 = 0;
        for idx in 0..n
            invariant
                e == book_entries(book),
                n == e.len(),
                n <= 255,
                l < longest,
                cnt as int == code_count(e.take(idx as int), l + 1),
        {
            let pair = book_get_index(&book, idx).unwrap();
            let cl = str_chars_vec(pair.1.as_str()).len();
            proof {
                assert(e.take(idx + 1).drop_last() =~= e.take(idx as int));
                assert(e.take(idx + 1).last() == e[idx as int]);
                assert(pair.1@ == e[idx as int].1);
                lemma_code_count_bound(e.take(idx as int), l + 1);
            }
            if cl == l + 1 {
                cnt = cnt + 1;
            }
        }
        proof {
            assert(e.take(n as int) =~= e);
        }
        encoding.push(cnt);
    }
    for idx in 0..n
        invariant
            e == book_entries(book),
            n == e.len(),
            encoding@.len() == longest + idx,
            longest as int == counts_model(e).len(),
            forall|k: int| 0 <= k < longest ==> (#[trigger] encoding@[k]) as int == code_count(
                e,
                k + 1,
            ),
            forall|k: int| 0 <= k < idx ==> (#[trigger] encoding@[longest + k]) == e[k].0,
    {
        let pair = book_get_index(&book, idx).unwrap();
        encoding.push(pair.0);
    }
    proof {
        assert(encoding@.len() == dump_used_model(e).len());
        assert forall|k: int| 0 <= k < encoding@.len() implies encoding@[k] == dump_used_model(
            e,
        )[k] by {
            if k >= longest {
                let j = k - longest;
                assert(encoding@[longest + j] == e[j].0);
                assert(book_keys(e)[j] == e[j].0);
            }
        };
        assert(encoding@ =~= dump_used_model(e));
    }
    encoding
}

/// What the header serializer needs: the leftover-bit count, the canonical
/// code book, and the length table.
pub struct MetaData {
    pub leftover: u8,
    pub book: IndexMap<u8, String>,
    pub code_lenghts: IndexMap<u8, usize>,
}

/// The header block: a control byte carrying the leftover-bit count and the
/// format flag, followed by the dense table for large alphabets or the
/// sparse one for small ones.
pub open spec fn header_model(
    leftover: u8,
    e: Seq<(u8, Seq<char>)>,
    lens: Seq<(u8, usize)>,
) -> Seq<u8> {
    if e.len() > 127 {
        seq![(leftover * 32 + 16) as u8] + dump_all_model(lens)
    } else {
        seq![(leftover * 32) as u8, e.len() as u8] + dump_used_model(e)
    }
}

/// Serializes the header block per `header_model`.
pub fn create_header(metadata: MetaData) -> (r: Vec<u8>)
    requires
        metadata.leftover < 8,
    ensures
        r@ == header_model(
            metadata.leftover,
            book_entries(metadata.book),
            len_entries(metadata.code_lenghts),
        ),
{
    let lo = metadata.leftover;
    let top_3 = lo << 5u8;
    proof {
        assert(lo < 8 ==> (lo << 5u8) == lo * 32 && ((lo << 5u8) | 0b0001_0000u8) == lo * 32 + 16)
            by (bit_vector);
    }
    let mut header: Vec<u8> = Vec::new();
    let l = book_len(&metadata.book);
    if l > 127 {
        header.push(top_3 | 0b0001_0000);
        let mut table = dump_all(metadata.code_lenghts);
        header.append(&mut table);
        proof {
            assert(header@ =~= header_model(
                metadata.leftover,
                book_entries(metadata.book),
                len_entries(metadata.code_lenghts),
            ));
        }
    } else {
        header.push(top_3);
        header.push(l as u8);
        let mut table = dump_used(metadata.book);
        header.append(&mut table);
        proof {
            assert(header@ =~= header_model(
                metadata.leftover,
                book_entries(metadata.book),
                len_entries(metadata.code_lenghts),
            ));
        }
    }
    header
}

// ---------------------------------------------------------------------------
// Header round-trip.
// ---------------------------------------------------------------------------

/// The length assignments read back from the sparse dump: `counts[l]`
/// symbols of length `l + 1`, in order.
pub open spec fn expand_counts(counts: Seq<u8>) -> Seq<int>
    decreases counts.len(),
{
    if counts.len() == 0 {
        Seq::empty()
    } else {
        expand_counts(counts.drop_last()) + Seq::new(
            counts.last() as nat,
            |x: int| counts.len() as int,
        )
    }
}

proof fn lemma_book_max_is_bound(e: Seq<(u8, Seq<char>)>)
    ensures
        book_max_len(e) >= 0,
        forall|i: int| 0 <= i < e.len() ==> (#[trigger] e[i]).1.len() <= book_max_len(e),
    decreases e.len(),
{
    if e.len() > 0 {
        lemma_book_max_is_bound(e.drop_last());
        assert(forall|i: int| 0 <= i < e.len() - 1 ==> e[i] == e.drop_last()[i]);
    }
}

proof fn lemma_count_above_max(e: Seq<(u8, Seq<char>)>, l: int)
    requires
        l > book_max_len(e),
    ensures
        code_count(e, l) == 0,
    decreases e.len(),
{
    if e.len() > 0 {
        lemma_book_max_is_bound(e);
        lemma_count_above_max(e.drop_last(), l);
    }
}

proof fn lemma_expand_trailing_zeros(counts: Seq<u8>, m0: int)
    requires
        0 <= m0 <= counts.len(),
        forall|l: int| m0 <= l < counts.len() ==> (#[trigger] counts[l]) == 0,
    ensures
        expand_counts(counts) == expand_counts(counts.take(m0)),
    decreases counts.len() - m0,
{
    if m0 < counts.len() {
        assert(counts.drop_last() =~= counts.take(counts.len() - 1));
        lemma_expand_trailing_zeros(counts.take(counts.len() - 1), m0);
        assert(counts.take(counts.len() - 1).take(m0) =~= counts.take(m0));
        assert(expand_counts(counts) =~= expand_counts(counts.take(counts.len() - 1)));
    } else {
        assert(counts.take(m0) =~= counts);
    }
}

/// Expanding the counts of a length-sorted book gives back, in order, the
/// length of every code.
proof fn lemma_expand_book(e: Seq<(u8, Seq<char>)>, m: int)
    requires
        e.len() <= 255,
        m >= book_max_len(e),
        m >= 0,
        forall|i: int| 0 <= i < e.len() ==> (#[trigger] e[i]).1.len() >= 1,
        forall|i: int, j: int|
            0 <= i <= j < e.len() ==> (#[trigger] e[i]).1.len() <= (#[trigger] e[j]).1.len(),
    ensures
        expand_counts(Seq::new(m as nat, |l: int| code_count(e, l + 1) as u8))
            == e.map_values(|p: (u8, Seq<char>)| p.1.len() as int),
    decreases e.len(),
{
    let f = Seq::new(m as nat, |l: int| code_count(e, l + 1) as u8);
    if e.len() == 0 {
        assert(forall|l: int| 0 <= l < m ==> (#[trigger] f[l]) == 0) by {
            assert(forall|l: int| #[trigger] code_count(e, l + 1) == 0);
        };
        lemma_expand_trailing_zeros(f, 0);
        assert(f.take(0) =~= Seq::<u8>::empty());
        assert(expand_counts(Seq::<u8>::empty()) == Seq::<int>::empty());
        assert(e.map_values(|p: (u8, Seq<char>)| p.1.len() as int) =~= Seq::<int>::empty());
    } else {
        let ep = e.drop_last();
        let ll = e.last().1.len() as int;
        lemma_book_max_is_bound(e);
        assert(book_max_len(e) >= ll);
        assert(forall|i: int| 0 <= i < ep.len() ==> ep[i] == e[i]);
        lemma_book_max_is_bound(ep);
        assert(book_max_len(ep) <= book_max_len(e));
        lemma_code_count_bound(ep, ll);
        lemma_expand_book(ep, m);
        let fp = Seq::new(m as nat, |l: int| code_count(ep, l + 1) as u8);
        // counts agree below the last length and above it; at it they
        // differ by the one dropped entry
        assert(forall|l: int|
            #[trigger] code_count(e, l) == code_count(ep, l) + if ll == l {
                1int
            } else {
                0int
            });
        assert(ll <= m);
        assert(book_max_len(e) <= ll) by {
            lemma_book_max_le(e, ll);
        };
        assert(book_max_len(ep) <= ll) by {
            lemma_book_max_le(ep, ll);
        };
        // both count tables are zero at and beyond the last length
        assert forall|l: int| ll <= l < m implies (#[trigger] f[l]) == 0 by {
            lemma_count_above_max(e, l + 1);
        };
        assert forall|l: int| ll <= l < m implies (#[trigger] fp[l]) == 0 by {
            lemma_count_above_max(ep, l + 1);
        };
        lemma_expand_trailing_zeros(f, ll);
        lemma_expand_trailing_zeros(fp, ll);
        let ftl = f.take(ll);
        let fptl = fp.take(ll);
        assert(ftl.drop_last() =~= fptl.drop_last()) by {
            assert(forall|l: int|
                0 <= l < ll - 1 ==> #[trigger] code_count(e, l + 1) == code_count(ep, l + 1));
        };
        assert(ftl.last() as int == code_count(e, ll));
        assert(fptl.last() as int == code_count(ep, ll));
        assert(code_count(e, ll) == code_count(ep, ll) + 1);
        let prefix = expand_counts(ftl.drop_last());
        assert(expand_counts(ftl) == prefix + Seq::new(code_count(e, ll) as nat, |x: int| ll));
        assert(expand_counts(fptl) == prefix + Seq::new(code_count(ep, ll) as nat, |x: int| ll));
        assert(expand_counts(ftl) =~= expand_counts(fptl).push(ll));
        assert(expand_counts(fp) == ep.map_values(|p: (u8, Seq<char>)| p.1.len() as int));
        assert(e.map_values(|p: (u8, Seq<char>)| p.1.len() as int) =~= ep.map_values(
            |p: (u8, Seq<char>)| p.1.len() as int,
        ).push(ll));
        assert(expand_counts(f) == e.map_values(|p: (u8, Seq<char>)| p.1.len() as int));
    }
}

proof fn lemma_book_max_le(e: Seq<(u8, Seq<char>)>, bound: int)
    requires
        bound >= 0,
        forall|i: int| 0 <= i < e.len() ==> (#[trigger] e[i]).1.len() <= bound,
    ensures
        book_max_len(e) <= bound,
    decreases e.len(),
{
    if e.len() > 0 {
        assert(forall|i: int| 0 <= i < e.len() - 1 ==> e.drop_last()[i] == e[i]);
        lemma_book_max_le(e.drop_last(), bound);
    }
}

/// Header round-trip law: either table format determines the length table
/// that produced it.  Dense: entry `c` is byte `c`'s code length, zero for
/// absent bytes.  Sparse: expanding the run-length counts yields, in order,
/// the length of each listed symbol, so the symbol/length pairs come back
/// exactly.
pub proof fn lemma_header_roundtrip(e: Seq<(u8, Seq<char>)>, lens: Seq<(u8, usize)>)
    requires
        e.len() <= 255,
        forall|i: int| 0 <= i < e.len() ==> (#[trigger] e[i]).1.len() >= 1,
        forall|i: int, j: int|
            0 <= i <= j < e.len() ==> (#[trigger] e[i]).1.len() <= (#[trigger] e[j]).1.len(),
        forall|i: int| 0 <= i < lens.len() ==> (#[trigger] lens[i]).1 <= 255,
    ensures
        forall|c: u8| (#[trigger] dump_all_model(lens)[c as int]) as int == len_or_zero(lens, c),
        expand_counts(counts_model(e)).len() == e.len(),
        forall|q: int|
            0 <= q < e.len() ==> #[trigger] expand_counts(counts_model(e))[q] == e[q].1.len(),
        forall|q: int| 0 <= q < e.len() ==> #[trigger] book_keys(e)[q] == e[q].0,
{
    assert forall|c: u8| (#[trigger] dump_all_model(lens)[c as int]) as int == len_or_zero(
        lens,
        c,
    ) by {
        lemma_entries_find(lens, c);
        assert(0 <= len_or_zero(lens, c) <= 255);
    };
    let m = if book_max_len(e) >= 1 {
        book_max_len(e)
    } else {
        1
    };
    lemma_book_max_is_bound(e);
    lemma_expand_book(e, m);
    assert(counts_model(e) =~= Seq::new(m as nat, |l: int| code_count(e, l + 1) as u8));
    assert(expand_counts(counts_model(e)) == e.map_values(|p: (u8, Seq<char>)| p.1.len() as int));
}

// ---------------------------------------------------------------------------
// What an archive's bytes determine.
// ---------------------------------------------------------------------------

/// Some input compresses to this archive.
pub open spec fn some_source(archive: Seq<u8>) -> bool {
    exists|c: Seq<u8>| 0 < c.len() <= u32::MAX && archive == archive_model(c)
}

/// An input this archive is the compression of.
pub open spec fn the_source(archive: Seq<u8>) -> Seq<u8> {
    choose|c: Seq<u8>| 0 < c.len() <= u32::MAX && archive == archive_model(c)
}

/// The bytes different from `v`.
spec fn ne_val(v: u8) -> spec_fn(u8) -> bool {
    |x: u8| x != v
}

/// The bytes equal to `v`.
spec fn eq_val(v: u8) -> spec_fn(u8) -> bool {
    |x: u8| x == v
}

proof fn lemma_filter_value_once(s: Seq<u8>, v: u8)
    requires
        s.no_duplicates(),
    ensures
        s.filter(eq_val(v)).len() <= 1,
    decreases s.len(),
{
    broadcast use vstd::seq_lib::group_filter_ensures;

    if s.len() > 0 {
        let dl = s.drop_last();
        assert(dl.no_duplicates());
        lemma_filter_value_once(dl, v);
        dl.lemma_filter_push(s.last(), eq_val(v));
        assert(dl.push(s.last()) =~= s);
        if s.last() == v && dl.filter(eq_val(v)).len() > 0 {
            let t = dl.filter(eq_val(v));
            assert(t.contains(t[0]));
            dl.lemma_filter_contains_rev(eq_val(v), t[0]);
            assert(dl.contains(t[0]));
            let w = choose|w: int| 0 <= w < dl.len() && dl[w] == t[0];
            assert(eq_val(v)(t[0]));
            assert(s[w] == v && s[s.len() - 1] == v);
        }
    }
}

proof fn lemma_filter_split_len(s: Seq<u8>, v: u8)
    ensures
        s.len() == s.filter(eq_val(v)).len() + s.filter(ne_val(v)).len(),
    decreases s.len(),
{
    if s.len() > 0 {
        let dl = s.drop_last();
        lemma_filter_split_len(dl, v);
        dl.lemma_filter_push(s.last(), eq_val(v));
        dl.lemma_filter_push(s.last(), ne_val(v));
        assert(dl.push(s.last()) =~= s);
        assert(eq_val(v)(s.last()) <==> s.last() == v);
        assert(ne_val(v)(s.last()) <==> s.last() != v);
    }
}

proof fn lemma_filter_nodup(s: Seq<u8>, v: u8)
    requires
        s.no_duplicates(),
    ensures
        s.filter(ne_val(v)).no_duplicates(),
        forall|i: int|
            0 <= i < s.filter(ne_val(v)).len() ==> s.contains(#[trigger] s.filter(ne_val(v))[i]),
    decreases s.len(),
{
    broadcast use vstd::seq_lib::group_filter_ensures;

    if s.len() > 0 {
        let dl = s.drop_last();
        assert(dl.no_duplicates());
        lemma_filter_nodup(dl, v);
        dl.lemma_filter_push(s.last(), ne_val(v));
        assert(dl.push(s.last()) =~= s);
        let t = s.filter(ne_val(v));
        let td = dl.filter(ne_val(v));
        assert(forall|i: int| 0 <= i < dl.len() ==> s.contains(#[trigger] dl[i])) by {
            assert(forall|i: int| 0 <= i < dl.len() ==> dl[i] == s[i]);
        };
        assert forall|i: int|
            0 <= i < td.len() implies s.contains(#[trigger] td[i]) && td[i] != v by {
            assert(td.contains(td[i]));
            dl.lemma_filter_contains_rev(ne_val(v), td[i]);
            assert(dl.contains(td[i]));
            let w = choose|w: int| 0 <= w < dl.len() && dl[w] == td[i];
            assert(s[w] == td[i]);
            assert(ne_val(v)(td[i]));
        };
        if ne_val(v)(s.last()) {
            assert(t == td.push(s.last()));
            assert(s.contains(s.last())) by {
                assert(s[s.len() - 1] == s.last());
            };
            assert forall|i: int, j: int| 0 <= i < j < t.len() implies #[trigger] t[i]
                != #[trigger] t[j] by {
                if j == t.len() - 1 {
                    assert(td.contains(td[i]));
                    dl.lemma_filter_contains_rev(ne_val(v), td[i]);
                    assert(dl.contains(td[i]));
                    let w = choose|w: int| 0 <= w < dl.len() && dl[w] == td[i];
                    assert(s[w] == td[i] && s[s.len() - 1] == s.last());
                }
            };
        } else {
            assert(t == td);
        }
    }
}

/// A sequence of distinct bytes, all below `n`, has at most `n` elements.
proof fn lemma_nodup_u8_bound(s: Seq<u8>, n: int)
    requires
        s.no_duplicates(),
        0 <= n <= 256,
        forall|i: int| 0 <= i < s.len() ==> (#[trigger] s[i]) < n,
    ensures
        s.len() <= n,
    decreases n,
{
    broadcast use vstd::seq_lib::group_filter_ensures;

    if n == 0 {
        if s.len() > 0 {
            assert(s[0] < 0);
        }
    } else {
        let v = (n - 1) as u8;
        let t = s.filter(ne_val(v));
        lemma_filter_value_once(s, v);
        lemma_filter_split_len(s, v);
        lemma_filter_nodup(s, v);
        assert forall|i: int| 0 <= i < t.len() implies (#[trigger] t[i]) < n - 1 by {
            assert(s.contains(t[i]));
            let w = choose|w: int| 0 <= w < s.len() && s[w] == t[i];
            assert(s[w] < n);
            assert(ne_val(v)(t[i]));
        };
        lemma_nodup_u8_bound(t, n - 1);
    }
}

/// The length table of a non-empty input: distinct keys, at most 256
/// entries, every length at most 255; with two or more entries every length
/// is at least one and the table is kept as it is, with one entry the
/// alphabet is degenerate and the book holds exactly one code.
proof fn lemma_spec_lens_facts(c: Seq<u8>)
    requires
        0 < c.len() <= u32::MAX,
    ensures
        entry_keys(spec_lens(c)).no_duplicates(),
        1 <= spec_lens(c).len() <= 256,
        forall|i: int| 0 <= i < spec_lens(c).len() ==> (#[trigger] spec_lens(c)[i]).1 <= 255,
        spec_lens(c).len() >= 2 ==> (forall|i: int|
            0 <= i < spec_lens(c).len() ==> (#[trigger] spec_lens(c)[i]).1 >= 1),
        spec_lens(c).len() >= 2 ==> forced_lens(spec_lens(c)) == spec_lens(c),
        spec_lens(c).len() == 1 ==> spec_book(c).len() == 1 && spec_lens(c)[0].1 == 0,
        spec_book(c).len() == bucket_syms(spec_buckets(c)).len(),
        entry_keys(forced_lens(spec_lens(c))).no_duplicates(),
        forall|i: int|
            0 <= i < forced_lens(spec_lens(c)).len() ==> 1 <= (#[trigger] forced_lens(
                spec_lens(c),
            )[i]).1 <= 255,
{
    let t = spec_tree(c);
    let lens = spec_lens(c);
    let b = spec_buckets(c);
    lemma_pipeline_tree_syms(c);
    lemma_tree_syms_len(t);
    lemma_tree_depths_syms(t, 0);
    lemma_tree_depths_range(t, 0);
    assert(entry_keys(lens) =~= tree_syms(t));
    lemma_nodup_u8_bound(tree_syms(t), 256);
    assert(lens.len() == tree_syms(t).len());
    assert(tree_ht(t) < 256);
    assert forall|i: int| 0 <= i < lens.len() implies (#[trigger] lens[i]).1 <= 255 by {
        assert(lens[i] == (tree_depths(t, 0)[i].0, tree_depths(t, 0)[i].1 as usize));
        assert(0 <= tree_depths(t, 0)[i].1 <= tree_ht(t));
    };
    if lens.len() >= 2 {
        assert(t is Node) by {
            if t is Leaf {
                assert(tree_syms(t).len() == 1);
            }
        };
        let lt = match t {
            Tree::Node(l, _, _) => *l,
            _ => t,
        };
        let rt = match t {
            Tree::Node(_, r, _) => *r,
            _ => t,
        };
        lemma_tree_depths_range(lt, 1);
        lemma_tree_depths_range(rt, 1);
        assert forall|i: int| 0 <= i < lens.len() implies (#[trigger] lens[i]).1 >= 1 by {
            assert(tree_depths(t, 0)[i].1 >= 1);
            assert(lens[i] == (tree_depths(t, 0)[i].0, tree_depths(t, 0)[i].1 as usize));
        };
        assert(lens[0].1 >= 1);
    }
    lemma_book_model_syms(b, b.len() as int);
    if lens.len() == 1 {
        let k = tree_syms(t)[0];
        assert(t is Leaf) by {
            if t is Node {
                let lt = match t {
                    Tree::Node(l, _, _) => *l,
                    _ => t,
                };
                let rt = match t {
                    Tree::Node(_, r, _) => *r,
                    _ => t,
                };
                lemma_tree_syms_len(lt);
                lemma_tree_syms_len(rt);
            }
        };
        assert(tree_depths(t, 0) == seq![(k, 0int)]);
        assert(lens =~= seq![(k, 0usize)]);
        let f = forced_lens(lens);
        assert(f == seq![(k, 1usize)]);
        assert(f.drop_last() =~= Seq::<(u8, usize)>::empty());
        assert(max_len(Seq::<(u8, usize)>::empty()) == 0);
        assert(keys_with_len(Seq::<(u8, usize)>::empty(), 1) =~= Seq::<u8>::empty());
        assert(f.last() == (k, 1usize));
        assert(max_len(f) == 1);
        assert(keys_with_len(f, 1) =~= seq![k]);
        assert(sort_asc(seq![k]) =~= seq![k]) by {
            assert(seq![k].drop_last() =~= Seq::<u8>::empty());
            assert(sort_asc(Seq::<u8>::empty()) == Seq::<u8>::empty());
            assert(insert_asc(Seq::<u8>::empty(), k) == seq![k]);
        };
        assert(b =~= seq![seq![k]]);
        assert(syms_upto(b, 1) == syms_upto(b, 0) + b[0]);
        assert(bucket_syms(b) =~= seq![k]);
        assert(entry_keys(f) =~= seq![k]);
    }
}

/// In a table with distinct keys, lookup finds each entry at its own place.
proof fn lemma_find_self(s: Seq<(u8, usize)>, j: int)
    requires
        entry_keys(s).no_duplicates(),
        0 <= j < s.len(),
    ensures
        entries_find(s, s[j].0) == j,
        len_or_zero(s, s[j].0) == s[j].1,
{
    lemma_entries_find(s, s[j].0);
    let f = entries_find(s, s[j].0);
    if f < 0 {
        assert(s[j].0 != s[j].0);
    }
    if f != j {
        assert(entry_keys(s)[f] == s[f].0);
        assert(entry_keys(s)[j] == s[j].0);
    }
}

/// Ascending order.
pub open spec fn sorted_asc(s: Seq<u8>) -> bool {
    forall|i: int, j: int| 0 <= i <= j < s.len() ==> (#[trigger] s[i]) <= (#[trigger] s[j])
}

proof fn lemma_insert_asc_sorted(s: Seq<u8>, x: u8)
    requires
        sorted_asc(s),
    ensures
        sorted_asc(insert_asc(s, x)),
    decreases s.len(),
{
    if s.len() == 0 {
    } else if x < s[0] {
        assert(forall|j: int| 0 <= j < s.len() ==> s[0] <= (#[trigger] s[j]));
        assert(sorted_asc(seq![x] + s));
    } else {
        assert(sorted_asc(s.drop_first())) by {
            assert(forall|i: int| 0 <= i < s.len() - 1 ==> s.drop_first()[i] == s[i + 1]);
        };
        lemma_insert_asc_sorted(s.drop_first(), x);
        let r = seq![s[0]] + insert_asc(s.drop_first(), x);
        lemma_insert_asc_multiset(s.drop_first(), x);
        broadcast use vstd::seq_lib::group_to_multiset_ensures;

        assert forall|i: int, j: int| 0 <= i <= j < r.len() implies (#[trigger] r[i])
            <= (#[trigger] r[j]) by {
            if i == 0 && j > 0 {
                let y = insert_asc(s.drop_first(), x)[j - 1];
                assert(insert_asc(s.drop_first(), x).to_multiset().contains(y));
                if y == x {
                    assert(s[0] <= x);
                } else {
                    assert(s.drop_first().to_multiset().contains(y));
                    assert(s.drop_first().contains(y));
                    let w = choose|w: int|
                        0 <= w < s.drop_first().len() && s.drop_first()[w] == y;
                    assert(s[w + 1] == y);
                }
            }
        };
    }
}

proof fn lemma_sort_asc_sorted(s: Seq<u8>)
    ensures
        sorted_asc(sort_asc(s)),
    decreases s.len(),
{
    if s.len() > 0 {
        lemma_sort_asc_sorted(s.drop_last());
        lemma_insert_asc_sorted(sort_asc(s.drop_last()), s.last());
    }
}

/// Two ascending duplicate-free sequences with the same members are equal.
proof fn lemma_sorted_nodup_unique(a: Seq<u8>, b: Seq<u8>)
    requires
        sorted_asc(a),
        sorted_asc(b),
        a.no_duplicates(),
        b.no_duplicates(),
        forall|x: u8| a.contains(x) <==> b.contains(x),
    ensures
        a == b,
    decreases a.len(),
{
    if a.len() == 0 {
        if b.len() > 0 {
            assert(b.contains(b[0]));
            assert(a.contains(b[0]));
        }
        assert(a =~= b);
    } else {
        assert(b.len() > 0) by {
            assert(a.contains(a[0]));
            assert(b.contains(a[0]));
        };
        assert(a[0] == b[0]) by {
            assert(a.contains(a[0]) && b.contains(b[0]));
            assert(b.contains(a[0]) && a.contains(b[0]));
            let wa = choose|w: int| 0 <= w < a.len() && a[w] == b[0];
            let wb = choose|w: int| 0 <= w < b.len() && b[w] == a[0];
            assert(a[0] <= a[wa] && b[0] <= b[wb]);
        };
        let at = a.drop_first();
        let bt = b.drop_first();
        assert(forall|i: int| 0 <= i < at.len() ==> (#[trigger] at[i]) == a[i + 1]);
        assert(forall|i: int| 0 <= i < bt.len() ==> (#[trigger] bt[i]) == b[i + 1]);
        assert(sorted_asc(at) && sorted_asc(bt));
        assert(at.no_duplicates() && bt.no_duplicates());
        assert forall|x: u8| at.contains(x) <==> bt.contains(x) by {
            if at.contains(x) {
                let w = choose|w: int| 0 <= w < at.len() && at[w] == x;
                assert(a[w + 1] == x);
                assert(a.contains(x));
                assert(b.contains(x));
                let wb = choose|w2: int| 0 <= w2 < b.len() && b[w2] == x;
                assert(x != a[0]) by {
                    assert(a[0] != a[w + 1]);
                };
                assert(wb != 0);
                assert(bt[wb - 1] == x);
            }
            if bt.contains(x) {
                let w = choose|w: int| 0 <= w < bt.len() && bt[w] == x;
                assert(b[w + 1] == x);
                assert(b.contains(x));
                assert(a.contains(x));
                let wa = choose|w2: int| 0 <= w2 < a.len() && a[w2] == x;
                assert(x != b[0]) by {
                    assert(b[0] != b[w + 1]);
                };
                assert(wa != 0);
                assert(at[wa - 1] == x);
            }
        };
        lemma_sorted_nodup_unique(at, bt);
        assert forall|k: int| 0 <= k < a.len() implies a[k] == b[k] by {
            if k > 0 {
                assert(at[k - 1] == a[k]);
                assert(bt[k - 1] == b[k]);
            }
        };
        assert(a =~= b);
    }
}

proof fn lemma_code_count_concat(a: Seq<(u8, Seq<char>)>, b: Seq<(u8, Seq<char>)>, l: int)
    ensures
        code_count(a + b, l) == code_count(a, l) + code_count(b, l),
    decreases b.len(),
{
    if b.len() == 0 {
        assert(a + b =~= a);
    } else {
        lemma_code_count_concat(a, b.drop_last(), l);
        assert((a + b).drop_last() =~= a + b.drop_last());
        assert((a + b).last() == b.last());
    }
}

proof fn lemma_code_count_uniform(s: Seq<(u8, Seq<char>)>, w: int, l: int)
    requires
        forall|i: int| 0 <= i < s.len() ==> (#[trigger] s[i]).1.len() == w,
    ensures
        code_count(s, l) == if l == w {
            s.len() as int
        } else {
            0
        },
    decreases s.len(),
{
    if s.len() > 0 {
        assert(forall|i: int| 0 <= i < s.len() - 1 ==> s.drop_last()[i] == s[i]);
        lemma_code_count_uniform(s.drop_last(), w, l);
    }
}

/// In the book of a bucket sequence there are exactly as many codes of
/// length `l` as bucket `l - 1` holds symbols.
proof fn lemma_book_counts(b: Seq<Seq<u8>>, i: int, l: int)
    requires
        0 <= i <= b.len(),
    ensures
        code_count(book_model_upto(b, i), l) == if 1 <= l <= i {
            b[l - 1].len() as int
        } else {
            0
        },
    decreases i,
{
    if i > 0 {
        lemma_book_counts(b, i - 1, l);
        lemma_code_count_concat(book_model_upto(b, i - 1), bucket_codes(b, i - 1), l);
        assert forall|q: int|
            0 <= q < bucket_codes(b, i - 1).len() implies (#[trigger] bucket_codes(b, i - 1)[q]).1.len()
            == i by {
            lemma_bin_str_len((start_val(b, i - 1) + q) as nat, i as nat);
        };
        lemma_code_count_uniform(bucket_codes(b, i - 1), i, l);
    }
}

proof fn lemma_max_len_witness(s: Seq<(u8, usize)>)
    requires
        s.len() > 0,
    ensures
        exists|i: int| 0 <= i < s.len() && (#[trigger] s[i]).1 == max_len(s),
    decreases s.len(),
{
    if max_len(s) == s.last().1 {
        assert(s[s.len() - 1].1 == max_len(s));
    } else {
        assert(s.len() > 1) by {
            if s.len() == 1 {
                assert(s.drop_last() =~= Seq::<(u8, usize)>::empty());
                assert(max_len(Seq::<(u8, usize)>::empty()) == 0);
            }
        };
        lemma_max_len_witness(s.drop_last());
        let w = choose|i: int|
            0 <= i < s.drop_last().len() && (#[trigger] s.drop_last()[i]).1 == max_len(
                s.drop_last(),
            );
        assert(s[w].1 == max_len(s));
    }
}

/// A bucket is the corresponding slice of the symbol list.
proof fn lemma_bucket_slice(b: Seq<Seq<u8>>, g: int)
    requires
        0 <= g < b.len(),
    ensures
        b[g] == bucket_syms(b).subrange(
            syms_upto(b, g).len() as int,
            syms_upto(b, g).len() + b[g].len() as int,
        ),
{
    lemma_syms_extends(b, g + 1, b.len() as int);
    assert(syms_upto(b, g + 1) == syms_upto(b, g) + b[g]);
    assert(b[g] =~= bucket_syms(b).subrange(
        syms_upto(b, g).len() as int,
        syms_upto(b, g).len() + b[g].len() as int,
    )) by {
        assert(forall|q: int|
            0 <= q < b[g].len() ==> #[trigger] syms_upto(b, g + 1)[syms_upto(b, g).len() + q]
                == b[g][q]);
        assert(forall|q: int|
            0 <= q < b[g].len() ==> #[trigger] bucket_syms(b)[syms_upto(b, g).len() + q]
                == syms_upto(b, g + 1)[syms_upto(b, g).len() + q]);
    };
}

proof fn lemma_syms_len_equal(b1: Seq<Seq<u8>>, b2: Seq<Seq<u8>>, i: int)
    requires
        0 <= i <= b1.len(),
        b1.len() == b2.len(),
        forall|g: int| 0 <= g < b1.len() ==> (#[trigger] b1[g]).len() == b2[g].len(),
    ensures
        syms_upto(b1, i).len() == syms_upto(b2, i).len(),
    decreases i,
{
    if i > 0 {
        lemma_syms_len_equal(b1, b2, i - 1);
    }
}

/// Buckets are determined by their sizes and their symbols in order.
proof fn lemma_counts_keys_buckets(b1: Seq<Seq<u8>>, b2: Seq<Seq<u8>>)
    requires
        b1.len() == b2.len(),
        forall|g: int| 0 <= g < b1.len() ==> (#[trigger] b1[g]).len() == b2[g].len(),
        bucket_syms(b1) == bucket_syms(b2),
    ensures
        b1 == b2,
{
    assert forall|g: int| 0 <= g < b1.len() implies #[trigger] b1[g] == b2[g] by {
        lemma_bucket_slice(b1, g);
        lemma_bucket_slice(b2, g);
        lemma_syms_len_equal(b1, b2, g);
    };
    assert(b1 =~= b2);
}

/// The shape of a pipeline's buckets: at least one bucket, at most 255,
/// the last one inhabited; for small alphabets the sparse counts are the
/// bucket sizes.
proof fn lemma_spec_buckets_shape(c: Seq<u8>)
    requires
        0 < c.len() <= u32::MAX,
    ensures
        1 <= spec_buckets(c).len() <= 255,
        spec_buckets(c)[spec_buckets(c).len() - 1].len() >= 1,
        book_max_len(spec_book(c)) == spec_buckets(c).len(),
        spec_book(c).len() <= 255 ==> counts_model(spec_book(c)).len() == spec_buckets(c).len(),
        spec_book(c).len() <= 255 ==> forall|g: int|
            0 <= g < spec_buckets(c).len() ==> (#[trigger] counts_model(spec_book(c))[g]) as int
                == spec_buckets(c)[g].len(),
        book_keys(spec_book(c)) == bucket_syms(spec_buckets(c)),
        forall|g: int| 0 <= g < spec_buckets(c).len() ==> (#[trigger] spec_buckets(c)[g]).len()
            <= spec_book(c).len(),
{
    broadcast use vstd::seq_lib::group_to_multiset_ensures;

    let lens = spec_lens(c);
    let f = forced_lens(lens);
    let b = spec_buckets(c);
    let e = spec_book(c);
    lemma_spec_lens_facts(c);
    lemma_max_len_bound(f);
    assert(f.len() >= 1);
    lemma_max_len_witness(f);
    let w = choose|i: int| 0 <= i < f.len() && (#[trigger] f[i]).1 == max_len(f);
    assert(1 <= max_len(f) <= 255) by {
        assert(f[w].1 >= 1 && f[w].1 <= 255);
    };
    assert(b.len() == max_len(f));
    // the last bucket holds the symbol of maximal length
    lemma_kwl_facts(f, max_len(f));
    assert(keys_with_len(f, max_len(f)).contains(f[w].0));
    lemma_sort_asc_multiset(keys_with_len(f, max_len(f)));
    assert(b[b.len() - 1] == sort_asc(keys_with_len(f, max_len(f))));
    assert(b[b.len() - 1].len() >= 1);
    // the book's length census is the bucket sizes
    lemma_book_model_syms(b, b.len() as int);
    assert(book_keys(e) =~= bucket_syms(b));
    lemma_book_counts(b, b.len() as int, b.len() as int);
    assert(code_count(e, b.len() as int) >= 1);
    assert(book_max_len(e) >= b.len()) by {
        if book_max_len(e) < b.len() {
            lemma_count_above_max(e, b.len() as int);
        }
    };
    assert(book_max_len(e) <= b.len()) by {
        assert forall|p: int| 0 <= p < e.len() implies (#[trigger] e[p]).1.len() <= b.len() by {
            let (bi, j) = lemma_book_decompose(b, b.len() as int, p);
            lemma_bin_str_len((start_val(b, bi) + j) as nat, (bi + 1) as nat);
        };
        lemma_book_max_le(e, b.len() as int);
    };
    assert forall|g: int| 0 <= g < b.len() implies (#[trigger] b[g]).len() <= e.len() by {
        lemma_book_counts(b, b.len() as int, g + 1);
        lemma_code_count_bound(e, g + 1);
    };
    if e.len() <= 255 {
        assert(counts_model(e).len() == b.len());
        assert forall|g: int| 0 <= g < b.len() implies (#[trigger] counts_model(e)[g]) as int
            == b[g].len() by {
            lemma_book_counts(b, b.len() as int, g + 1);
            lemma_code_count_bound(e, g + 1);
        };
    }
}

/// The dense table determines the buckets: two length tables with distinct
/// keys and lengths from 1 to 255 that dump to the same 256-byte table have
/// the same buckets.
proof fn lemma_table_buckets(lens1: Seq<(u8, usize)>, lens2: Seq<(u8, usize)>)
    requires
        entry_keys(lens1).no_duplicates(),
        entry_keys(lens2).no_duplicates(),
        forall|i: int| 0 <= i < lens1.len() ==> 1 <= (#[trigger] lens1[i]).1 <= 255,
        forall|i: int| 0 <= i < lens2.len() ==> 1 <= (#[trigger] lens2[i]).1 <= 255,
        dump_all_model(lens1) == dump_all_model(lens2),
    ensures
        buckets_model(lens1) == buckets_model(lens2),
{
    broadcast use vstd::seq_lib::group_to_multiset_ensures;

    assert forall|k: u8| #[trigger] len_or_zero(lens1, k) == len_or_zero(lens2, k) by {
        lemma_entries_find(lens1, k);
        lemma_entries_find(lens2, k);
        assert(0 <= len_or_zero(lens1, k) <= 255);
        assert(0 <= len_or_zero(lens2, k) <= 255);
        vstd::arithmetic::div_mod::lemma_small_mod(len_or_zero(lens1, k) as nat, 256);
        vstd::arithmetic::div_mod::lemma_small_mod(len_or_zero(lens2, k) as nat, 256);
        assert((k as int) as u8 == k);
        assert(dump_all_model(lens1)[k as int] == (len_or_zero(lens1, k) % 256) as u8);
        assert(dump_all_model(lens2)[k as int] == (len_or_zero(lens2, k) % 256) as u8);
        assert(dump_all_model(lens1)[k as int] == dump_all_model(lens2)[k as int]);
        assert(len_or_zero(lens1, k) % 256 == len_or_zero(lens1, k));
        assert(len_or_zero(lens2, k) % 256 == len_or_zero(lens2, k));
        assert((len_or_zero(lens1, k)) as u8 == (len_or_zero(lens2, k)) as u8);
    };
    // membership in a bucket is a fact about the table
    assert forall|k: u8, l: int|
        1 <= l implies (#[trigger] keys_with_len(lens1, l).contains(k) <==> #[trigger] keys_with_len(
        lens2,
        l,
    ).contains(k)) by {
        lemma_kwl_member(lens1, l, k);
        lemma_kwl_member(lens2, l, k);
    };
    if lens1.len() == 0 || lens2.len() == 0 {
        assert(lens1.len() == 0 && lens2.len() == 0) by {
            if lens1.len() > 0 {
                lemma_find_self(lens1, 0);
                assert(len_or_zero(lens1, lens1[0].0) >= 1);
                lemma_entries_find(lens2, lens1[0].0);
                if lens2.len() == 0 {
                    assert(len_or_zero(lens2, lens1[0].0) == 0);
                }
            }
            if lens2.len() > 0 {
                lemma_find_self(lens2, 0);
                assert(len_or_zero(lens2, lens2[0].0) >= 1);
                lemma_entries_find(lens1, lens2[0].0);
                if lens1.len() == 0 {
                    assert(len_or_zero(lens1, lens2[0].0) == 0);
                }
            }
        };
        assert(max_len(lens1) == 0 && max_len(lens2) == 0);
        assert(buckets_model(lens1) =~= buckets_model(lens2));
    } else {
        assert(max_len(lens1) == max_len(lens2)) by {
            lemma_max_len_witness(lens1);
            lemma_max_len_witness(lens2);
            lemma_max_len_bound(lens1);
            lemma_max_len_bound(lens2);
            let w1 = choose|i: int| 0 <= i < lens1.len() && (#[trigger] lens1[i]).1 == max_len(
                lens1,
            );
            let w2 = choose|i: int| 0 <= i < lens2.len() && (#[trigger] lens2[i]).1 == max_len(
                lens2,
            );
            lemma_find_self(lens1, w1);
            lemma_find_self(lens2, w2);
            assert(len_or_zero(lens2, lens1[w1].0) == max_len(lens1));
            assert(len_or_zero(lens1, lens2[w2].0) == max_len(lens2));
            lemma_entries_find(lens2, lens1[w1].0);
            lemma_entries_find(lens1, lens2[w2].0);
            if len_or_zero(lens2, lens1[w1].0) >= 1 {
                let ff = entries_find(lens2, lens1[w1].0);
                assert(lens2[ff].1 <= max_len(lens2));
            }
            if len_or_zero(lens1, lens2[w2].0) >= 1 {
                let ff = entries_find(lens1, lens2[w2].0);
                assert(lens1[ff].1 <= max_len(lens1));
            }
        };
        assert forall|l: int| 1 <= l implies #[trigger] sort_asc(keys_with_len(lens1, l))
            == sort_asc(keys_with_len(lens2, l)) by {
            lemma_kwl_facts(lens1, l);
            lemma_kwl_facts(lens2, l);
            lemma_sort_asc_multiset(keys_with_len(lens1, l));
            lemma_sort_asc_multiset(keys_with_len(lens2, l));
            lemma_sort_asc_sorted(keys_with_len(lens1, l));
            lemma_sort_asc_sorted(keys_with_len(lens2, l));
            let s1 = sort_asc(keys_with_len(lens1, l));
            let s2 = sort_asc(keys_with_len(lens2, l));
            keys_with_len(lens1, l).lemma_multiset_has_no_duplicates();
            keys_with_len(lens2, l).lemma_multiset_has_no_duplicates();
            assert forall|x: u8| s1.to_multiset().contains(x) implies s1.to_multiset().count(x)
                == 1 by {
                assert(keys_with_len(lens1, l).to_multiset().count(x) == s1.to_multiset().count(
                    x,
                ));
            };
            assert forall|x: u8| s2.to_multiset().contains(x) implies s2.to_multiset().count(x)
                == 1 by {
                assert(keys_with_len(lens2, l).to_multiset().count(x) == s2.to_multiset().count(
                    x,
                ));
            };
            s1.lemma_multiset_has_no_duplicates_conv();
            s2.lemma_multiset_has_no_duplicates_conv();
            assert forall|x: u8| s1.contains(x) <==> s2.contains(x) by {
                assert(s1.to_multiset().count(x) == keys_with_len(lens1, l).to_multiset().count(
                    x,
                ));
                assert(s2.to_multiset().count(x) == keys_with_len(lens2, l).to_multiset().count(
                    x,
                ));
                assert(s1.contains(x) <==> keys_with_len(lens1, l).contains(x));
                assert(s2.contains(x) <==> keys_with_len(lens2, l).contains(x));
            };
            lemma_sorted_nodup_unique(s1, s2);
        };
        assert(buckets_model(lens1) =~= buckets_model(lens2));
    }
}

/// A key belongs to the bucket of length `l` exactly when the table stores
/// `l` for it.
proof fn lemma_kwl_member(lens: Seq<(u8, usize)>, l: int, k: u8)
    requires
        entry_keys(lens).no_duplicates(),
        l >= 1,
    ensures
        keys_with_len(lens, l).contains(k) <==> len_or_zero(lens, k) == l,
{
    broadcast use vstd::seq_lib::group_to_multiset_ensures;

    lemma_kwl_facts(lens, l);
    lemma_entries_find(lens, k);
    if keys_with_len(lens, l).contains(k) {
        let q = choose|q: int|
            0 <= q < keys_with_len(lens, l).len() && #[trigger] keys_with_len(lens, l)[q] == k;
        let j = choose|j: int|
            0 <= j < lens.len() && (#[trigger] lens[j]).0 == k && lens[j].1 == l;
        lemma_find_self(lens, j);
    }
    if len_or_zero(lens, k) == l {
        let ff = entries_find(lens, k);
        assert(ff >= 0);
        assert(lens[ff].0 == k && lens[ff].1 == l);
        assert(keys_with_len(lens, l).contains(lens[ff].0));
    }
}

/// Sum of the first `i` count bytes.
pub open spec fn sum_u8_upto(s: Seq<u8>, i: int) -> int
    decreases i,
{
    if i <= 0 {
        0
    } else {
        sum_u8_upto(s, i - 1) + s[i - 1]
    }
}

proof fn lemma_sum_sizes(b: Seq<Seq<u8>>, counts: Seq<u8>, i: int)
    requires
        counts.len() == b.len(),
        forall|g: int| 0 <= g < b.len() ==> (#[trigger] counts[g]) as int == b[g].len(),
        0 <= i <= b.len(),
    ensures
        sum_u8_upto(counts, i) == syms_upto(b, i).len(),
    decreases i,
{
    if i > 0 {
        lemma_sum_sizes(b, counts, i - 1);
    }
}

proof fn lemma_sum_upto_pointwise(s1: Seq<u8>, s2: Seq<u8>, i: int)
    requires
        0 <= i <= s1.len(),
        i <= s2.len(),
        forall|j: int| 0 <= j < i ==> (#[trigger] s1[j]) == s2[j],
    ensures
        sum_u8_upto(s1, i) == sum_u8_upto(s2, i),
    decreases i,
{
    if i > 0 {
        lemma_sum_upto_pointwise(s1, s2, i - 1);
    }
}

/// The code stream of an input consists of binary digits.
proof fn lemma_spec_stream_binary(c: Seq<u8>)
    requires
        0 < c.len() <= u32::MAX,
    ensures
        binary_chars(spec_stream(c)),
        forall|p: int|
            0 <= p < spec_book(c).len() ==> (#[trigger] spec_book(c)[p]).1.len() >= 1
                && binary_chars(spec_book(c)[p].1),
{
    let b = spec_buckets(c);
    let e = spec_book(c);
    assert forall|p: int| 0 <= p < e.len() implies (#[trigger] e[p]).1.len() >= 1 && binary_chars(
        e[p].1,
    ) by {
        let (bi, j) = lemma_book_decompose(b, b.len() as int, p);
        lemma_bin_str_len((start_val(b, bi) + j) as nat, (bi + 1) as nat);
        lemma_bin_str_binary((start_val(b, bi) + j) as nat, (bi + 1) as nat);
    };
    lemma_stream_binary(e, c);
}

/// The archive determines the input: no two inputs compress to the same
/// byte sequence, so an archive can always be decoded back to the one input
/// it came from.
/// Dense archives with equal bytes come from equal buckets and payloads.
proof fn lemma_archive_parts_dense(c1: Seq<u8>, c2: Seq<u8>)
    requires
        0 < c1.len() <= u32::MAX,
        0 < c2.len() <= u32::MAX,
        archive_model(c1) == archive_model(c2),
        spec_book(c1).len() > 127,
        spec_book(c2).len() > 127,
    ensures
        spec_buckets(c1) == spec_buckets(c2),
        pack_stream(spec_stream(c1)) == pack_stream(spec_stream(c2)),
{
    let a = archive_model(c1);
    let e1 = spec_book(c1);
    let e2 = spec_book(c2);
    let lens1 = spec_lens(c1);
    let lens2 = spec_lens(c2);
    let lo1 = (spec_stream(c1).len() % 8) as u8;
    let lo2 = (spec_stream(c2).len() % 8) as u8;
    let h1 = header_model(lo1, e1, lens1);
    let h2 = header_model(lo2, e2, lens2);
    lemma_spec_lens_facts(c1);
    lemma_spec_lens_facts(c2);
    assert(lens1.len() >= 2 && lens2.len() >= 2) by {
        if lens1.len() <= 1 {
            assert(e1.len() <= 1);
        }
        if lens2.len() <= 1 {
            assert(e2.len() <= 1);
        }
    };
    assert(forced_lens(lens1) == lens1 && forced_lens(lens2) == lens2);
    assert(a == h1 + pack_stream(spec_stream(c1)));
    assert(a == h2 + pack_stream(spec_stream(c2)));
    assert(h1 == seq![h1[0]] + dump_all_model(lens1));
    assert(h2 == seq![h2[0]] + dump_all_model(lens2));
    assert(h1.len() == 257 && h2.len() == 257);
    assert(dump_all_model(lens1) =~= dump_all_model(lens2)) by {
        assert forall|t: int| 0 <= t < 256 implies #[trigger] dump_all_model(lens1)[t]
            == dump_all_model(lens2)[t] by {
            assert(h1[1 + t] == dump_all_model(lens1)[t]);
            assert(h2[1 + t] == dump_all_model(lens2)[t]);
            assert(a[1 + t] == h1[1 + t]);
            assert(a[1 + t] == h2[1 + t]);
        };
    };
    lemma_table_buckets(lens1, lens2);
    assert(pack_stream(spec_stream(c1)).len() == a.len() - 257);
    assert(pack_stream(spec_stream(c2)).len() == a.len() - 257);
    assert(pack_stream(spec_stream(c1)) =~= pack_stream(spec_stream(c2))) by {
        assert forall|t: int|
            0 <= t < a.len() - 257 implies #[trigger] pack_stream(spec_stream(c1))[t]
            == pack_stream(spec_stream(c2))[t] by {
            assert(a[257 + t] == pack_stream(spec_stream(c1))[t]);
            assert(a[257 + t] == pack_stream(spec_stream(c2))[t]);
        };
    };
}

/// Sparse archives with equal bytes come from equal buckets and payloads.
proof fn lemma_archive_parts_sparse(c1: Seq<u8>, c2: Seq<u8>)
    requires
        0 < c1.len() <= u32::MAX,
        0 < c2.len() <= u32::MAX,
        archive_model(c1) == archive_model(c2),
        spec_book(c1).len() <= 127,
        spec_book(c2).len() <= 127,
    ensures
        spec_buckets(c1) == spec_buckets(c2),
        pack_stream(spec_stream(c1)) == pack_stream(spec_stream(c2)),
{
    let a = archive_model(c1);
    let e1 = spec_book(c1);
    let e2 = spec_book(c2);
    let b1 = spec_buckets(c1);
    let b2 = spec_buckets(c2);
    let lens1 = spec_lens(c1);
    let lens2 = spec_lens(c2);
    let lo1 = (spec_stream(c1).len() % 8) as u8;
    let lo2 = (spec_stream(c2).len() % 8) as u8;
    let h1 = header_model(lo1, e1, lens1);
    let h2 = header_model(lo2, e2, lens2);
    lemma_spec_buckets_shape(c1);
    lemma_spec_buckets_shape(c2);
    let cm1 = counts_model(e1);
    let cm2 = counts_model(e2);
    let nc1 = cm1.len();
    let nc2 = cm2.len();
    assert(a == h1 + pack_stream(spec_stream(c1)));
    assert(a == h2 + pack_stream(spec_stream(c2)));
    assert(h1 == seq![h1[0], e1.len() as u8] + (cm1 + book_keys(e1)));
    assert(h2 == seq![h2[0], e2.len() as u8] + (cm2 + book_keys(e2)));
    lemma_book_model_syms(b1, b1.len() as int);
    lemma_book_model_syms(b2, b2.len() as int);
    assert(book_keys(e1).len() == e1.len() && book_keys(e2).len() == e2.len());
    assert(h1.len() == 2 + nc1 + e1.len());
    assert(h2.len() == 2 + nc2 + e2.len());
    assert(a[1] == e1.len() as u8 && a[1] == e2.len() as u8);
    let l = e1.len() as int;
    assert(e2.len() == l);
    assert(forall|j: int| 0 <= j < nc1 ==> #[trigger] cm1[j] == a[2 + j]) by {
        assert(forall|j: int| 0 <= j < nc1 ==> #[trigger] h1[2 + j] == cm1[j]);
        assert(forall|j: int| 0 <= j < nc1 ==> #[trigger] a[2 + j] == h1[2 + j]);
    };
    assert(forall|j: int| 0 <= j < nc2 ==> #[trigger] cm2[j] == a[2 + j]) by {
        assert(forall|j: int| 0 <= j < nc2 ==> #[trigger] h2[2 + j] == cm2[j]);
        assert(forall|j: int| 0 <= j < nc2 ==> #[trigger] a[2 + j] == h2[2 + j]);
    };
    lemma_sum_sizes(b1, cm1, nc1 as int);
    lemma_sum_sizes(b2, cm2, nc2 as int);
    assert(sum_u8_upto(cm1, nc1 as int) == l);
    assert(sum_u8_upto(cm2, nc2 as int) == l);
    assert(nc1 == nc2) by {
        if nc1 < nc2 {
            lemma_sum_upto_pointwise(cm2, cm1, nc1 as int);
            lemma_sum_sizes(b2, cm2, nc1 as int);
            lemma_syms_extends(b2, nc1 as int, nc2 - 1);
            assert(syms_upto(b2, nc2 as int) == syms_upto(b2, nc2 - 1) + b2[nc2 - 1]);
            assert(b2[nc2 - 1].len() >= 1);
            assert(syms_upto(b2, nc1 as int).len() <= syms_upto(b2, nc2 - 1).len());
        }
        if nc2 < nc1 {
            lemma_sum_upto_pointwise(cm1, cm2, nc2 as int);
            lemma_sum_sizes(b1, cm1, nc2 as int);
            lemma_syms_extends(b1, nc2 as int, nc1 - 1);
            assert(syms_upto(b1, nc1 as int) == syms_upto(b1, nc1 - 1) + b1[nc1 - 1]);
            assert(b1[nc1 - 1].len() >= 1);
            assert(syms_upto(b1, nc2 as int).len() <= syms_upto(b1, nc1 - 1).len());
        }
    };
    assert(cm1 =~= cm2);
    assert(bucket_syms(b1) =~= bucket_syms(b2)) by {
        assert forall|j: int| 0 <= j < l implies #[trigger] book_keys(e1)[j] == book_keys(
            e2,
        )[j] by {
            assert(h1[2 + nc1 + j] == book_keys(e1)[j]);
            assert(h2[2 + nc1 + j] == book_keys(e2)[j]);
            assert(a[2 + nc1 + j] == h1[2 + nc1 + j]);
            assert(a[2 + nc1 + j] == h2[2 + nc1 + j]);
        };
        assert(forall|j: int| 0 <= j < l ==> #[trigger] book_keys(e1)[j] == bucket_syms(b1)[j]);
        assert(forall|j: int| 0 <= j < l ==> #[trigger] book_keys(e2)[j] == bucket_syms(b2)[j]);
    };
    assert(b1.len() == b2.len());
    assert forall|g: int| 0 <= g < b1.len() implies (#[trigger] b1[g]).len() == b2[g].len() by {
        assert(cm1[g] as int == b1[g].len());
        assert(cm2[g] as int == b2[g].len());
    };
    lemma_counts_keys_buckets(b1, b2);
    assert(h1.len() == h2.len());
    assert(pack_stream(spec_stream(c1)).len() == a.len() - h1.len());
    assert(pack_stream(spec_stream(c2)).len() == a.len() - h1.len());
    assert(pack_stream(spec_stream(c1)) =~= pack_stream(spec_stream(c2))) by {
        assert forall|t: int|
            0 <= t < a.len() - h1.len() implies #[trigger] pack_stream(spec_stream(c1))[t]
            == pack_stream(spec_stream(c2))[t] by {
            assert(a[h1.len() + t] == pack_stream(spec_stream(c1))[t]);
            assert(a[h1.len() + t] == pack_stream(spec_stream(c2))[t]);
        };
    };
}

/// The archive determines the input: no two inputs compress to the same
/// byte sequence, so an archive can always be decoded back to the one input
/// it came from.
pub proof fn lemma_archive_injective(c1: Seq<u8>, c2: Seq<u8>)
    requires
        0 < c1.len() <= u32::MAX,
        0 < c2.len() <= u32::MAX,
        archive_model(c1) == archive_model(c2),
    ensures
        c1 == c2,
{
    let a = archive_model(c1);
    let e1 = spec_book(c1);
    let e2 = spec_book(c2);
    let lens1 = spec_lens(c1);
    let lens2 = spec_lens(c2);
    let lo1 = (spec_stream(c1).len() % 8) as u8;
    let lo2 = (spec_stream(c2).len() % 8) as u8;
    let h1 = header_model(lo1, e1, lens1);
    let h2 = header_model(lo2, e2, lens2);
    assert(lo1 < 8 && lo2 < 8);
    assert(a[0] == h1[0] && a[0] == h2[0]) by {
        assert(a == h1 + pack_stream(spec_stream(c1)));
        assert(a == h2 + pack_stream(spec_stream(c2)));
        assert(h1.len() >= 1 && h2.len() >= 1);
    };
    // the control byte fixes the format flag and the leftover count
    let f1: int = if e1.len() > 127 {
        1
    } else {
        0
    };
    let f2: int = if e2.len() > 127 {
        1
    } else {
        0
    };
    assert(h1[0] == (lo1 * 32 + f1 * 16) as u8);
    assert(h2[0] == (lo2 * 32 + f2 * 16) as u8);
    assert(lo1 * 32 + f1 * 16 == lo2 * 32 + f2 * 16);
    assert(f1 == f2 && lo1 == lo2) by {
        if f1 != f2 {
            assert(2 * (lo1 as int) + f1 == 2 * (lo2 as int) + f2);
        }
    };
    if e1.len() > 127 {
        lemma_archive_parts_dense(c1, c2);
    } else {
        lemma_archive_parts_sparse(c1, c2);
    }
    // same buckets, same book; same payload and leftover, same stream
    assert(e1 == e2);
    lemma_spec_stream_binary(c1);
    lemma_spec_stream_binary(c2);
    lemma_pack_roundtrip(spec_stream(c1));
    lemma_pack_roundtrip(spec_stream(c2));
    assert(spec_stream(c1).len() % 8 == spec_stream(c2).len() % 8);
    assert(spec_stream(c1) == spec_stream(c2));
    assert(encode_stream(spec_book(c1), c2) == spec_stream(c1));
    lemma_pipeline_buckets(c2);
    lemma_round_trip(c1, c2);
}

/// The largest value among the first `i` cells of a table.
pub open spec fn cells_max(a: Seq<u8>, i: int) -> int
    decreases i,
{
    if i <= 0 {
        0
    } else if a[i - 1] > cells_max(a, i - 1) {
        a[i - 1] as int
    } else {
        cells_max(a, i - 1)
    }
}

/// The indices, in ascending order, of the first `i` cells holding `v`.
pub open spec fn cells_with(a: Seq<u8>, v: int, i: int) -> Seq<u8>
    decreases i,
{
    if i <= 0 {
        Seq::empty()
    } else {
        cells_with(a, v, i - 1) + if a[i - 1] == v {
            seq![(i - 1) as u8]
        } else {
            Seq::empty()
        }
    }
}

proof fn lemma_cells_with_member(a: Seq<u8>, v: int, i: int)
    requires
        0 <= i <= 256,
        i <= a.len(),
    ensures
        forall|q: int|
            0 <= q < cells_with(a, v, i).len() ==> (#[trigger] cells_with(a, v, i)[q]) < i && a[cells_with(
                a,
                v,
                i,
            )[q] as int] == v,
        forall|k: u8| k < i && a[k as int] == v ==> cells_with(a, v, i).contains(k),
        forall|q1: int, q2: int|
            0 <= q1 < q2 < cells_with(a, v, i).len() ==> (#[trigger] cells_with(a, v, i)[q1])
                < (#[trigger] cells_with(a, v, i)[q2]),
    decreases i,
{
    if i > 0 {
        lemma_cells_with_member(a, v, i - 1);
        let prev = cells_with(a, v, i - 1);
        let cur = cells_with(a, v, i);
        if a[i - 1] == v {
            assert(cur == prev + seq![(i - 1) as u8]);
            assert(forall|q: int| 0 <= q < prev.len() ==> cur[q] == prev[q]);
            assert(cur[cur.len() - 1] == (i - 1) as u8);
            assert forall|k: u8| k < i && a[k as int] == v implies cur.contains(k) by {
                if k < i - 1 {
                    assert(prev.contains(k));
                    let q = choose|q: int| 0 <= q < prev.len() && prev[q] == k;
                    assert(cur[q] == k);
                } else {
                    assert(cur[cur.len() - 1] == k);
                }
            };
        } else {
            assert(cur =~= prev);
            assert forall|k: u8| k < i && a[k as int] == v implies cur.contains(k) by {
                if k < i - 1 {
                    assert(prev.contains(k));
                } else {
                    assert(a[i - 1] != v);
                }
            };
        }
    }
}

proof fn lemma_cells_max_bound(a: Seq<u8>, i: int, m: int)
    requires
        0 <= i <= a.len(),
        forall|j: int| 0 <= j < i ==> (#[trigger] a[j]) <= m,
        m >= 0,
    ensures
        cells_max(a, i) <= m,
        forall|j: int| 0 <= j < i ==> (#[trigger] a[j]) <= cells_max(a, i),
    decreases i,
{
    if i > 0 {
        lemma_cells_max_bound(a, i - 1, m);
    }
}

/// The table of a length table with distinct keys and lengths 1 to 255:
/// its largest cell is the largest length, and the cells holding `l` are
/// exactly the bucket of length `l`, already in ascending order.
proof fn lemma_table_cells(lens: Seq<(u8, usize)>, l: int)
    requires
        entry_keys(lens).no_duplicates(),
        lens.len() >= 1,
        forall|i: int| 0 <= i < lens.len() ==> 1 <= (#[trigger] lens[i]).1 <= 255,
        l >= 1,
    ensures
        cells_max(dump_all_model(lens), 256) == max_len(lens),
        cells_with(dump_all_model(lens), l, 256) == sort_asc(keys_with_len(lens, l)),
{
    broadcast use vstd::seq_lib::group_to_multiset_ensures;

    let a = dump_all_model(lens);
    assert forall|k: u8| #[trigger] a[k as int] as int == len_or_zero(lens, k) by {
        lemma_entries_find(lens, k);
        assert(0 <= len_or_zero(lens, k) <= 255);
        vstd::arithmetic::div_mod::lemma_small_mod(len_or_zero(lens, k) as nat, 256);
        assert((k as int) as u8 == k);
    };
    lemma_max_len_bound(lens);
    lemma_max_len_witness(lens);
    let w = choose|i: int| 0 <= i < lens.len() && (#[trigger] lens[i]).1 == max_len(lens);
    lemma_find_self(lens, w);
    assert(a[lens[w].0 as int] as int == max_len(lens));
    assert forall|j: int| 0 <= j < 256 implies (#[trigger] a[j]) <= max_len(lens) by {
        lemma_entries_find(lens, j as u8);
        assert(a[(j as u8) as int] as int == len_or_zero(lens, j as u8));
    };
    lemma_cells_max_bound(a, 256, max_len(lens));
    assert(cells_max(a, 256) == max_len(lens)) by {
        assert(a[lens[w].0 as int] <= cells_max(a, 256));
    };
    // the cells holding l are the bucket of length l
    lemma_cells_with_member(a, l, 256);
    let cw = cells_with(a, l, 256);
    lemma_kwl_facts(lens, l);
    lemma_sort_asc_multiset(keys_with_len(lens, l));
    lemma_sort_asc_sorted(keys_with_len(lens, l));
    let sk = sort_asc(keys_with_len(lens, l));
    keys_with_len(lens, l).lemma_multiset_has_no_duplicates();
    assert forall|x: u8| sk.to_multiset().contains(x) implies sk.to_multiset().count(x) == 1 by {
        assert(keys_with_len(lens, l).to_multiset().count(x) == sk.to_multiset().count(x));
    };
    sk.lemma_multiset_has_no_duplicates_conv();
    assert(cw.no_duplicates());
    assert(sorted_asc(cw));
    assert forall|x: u8| cw.contains(x) <==> sk.contains(x) by {
        lemma_kwl_member(lens, l, x);
        assert(sk.to_multiset().count(x) == keys_with_len(lens, l).to_multiset().count(x));
        assert(sk.contains(x) <==> keys_with_len(lens, l).contains(x));
        if cw.contains(x) {
            let q = choose|q: int| 0 <= q < cw.len() && cw[q] == x;
            assert(a[x as int] as int == l);
        }
        if len_or_zero(lens, x) == l {
            assert(a[x as int] as int == l);
        }
    };
    lemma_sorted_nodup_unique(cw, sk);
}

// ---------------------------------------------------------------------------
// Decoding.
// ---------------------------------------------------------------------------

/// Runs the canonical numbering over arbitrary buckets: like
/// `canonical_book`, but total, for table data read from an archive whose
/// buckets nothing has validated.  Overfull buckets get wrapped counter
/// values; the decoder treats such archives as malformed by failing to
/// match their payload.
fn assign_codes(buckets: &Vec<Vec<u8>>) -> (r: IndexMap<u8, String>)
    ensures
        valid_buckets(buckets.deep_view()) && bucket_syms(buckets.deep_view()).no_duplicates()
            ==> book_entries(r) == book_model(buckets.deep_view()),
{
    let ghost b = buckets.deep_view();
    let ghost ok = valid_buckets(b) && bucket_syms(b).no_duplicates();
    let mut code_book = book_new();
    let mut counter: Vec<u8> = Vec::new();
    let ghost mut live: bool = true;
    let nb = buckets.len();
    proof {
        assert(book_entries(code_book) =~= book_model_upto(b, 0));
    }
    for i in 0..nb
        invariant
            b == buckets.deep_view(),
            ok == (valid_buckets(b) && bucket_syms(b).no_duplicates()),
            nb == b.len(),
            bits_wf(counter@),
            counter@.len() == i,
            ok ==> book_entries(code_book) == book_model_upto(b, i as int),
            ok && live ==> 2 * bits_val(counter@) == start_val(b, i as int),
            ok && !live ==> forall|k: int| i <= k < nb ==> (#[trigger] b[k]).len() == 0,
    {
        let ghost pre = counter@;
        counter.push(0);
        proof {
            assert(counter@.drop_last() =~= pre);
            assert(counter@.last() == 0u8);
            assert(bits_val(counter@) == 2 * bits_val(pre));
        }
        let bucket = &buckets[i];
        proof {
            assert(bucket@ =~= b[i as int]);
        }
        let cnt = bucket.len();
        proof {
            if ok && live {
                lemma_bits_val_bound(pre);
                vstd::arithmetic::power2::lemma_pow2_unfold((i + 1) as nat);
            }
        }
        for j in 0..cnt
            invariant
                b == buckets.deep_view(),
                ok == (valid_buckets(b) && bucket_syms(b).no_duplicates()),
                nb == b.len(),
                i < nb,
                bucket@ == b[i as int],
                cnt == b[i as int].len(),
                bits_wf(counter@),
                counter@.len() == i + 1,
                ok ==> book_entries(code_book) == book_model_upto(b, i as int) + bucket_codes(
                    b,
                    i as int,
                ).take(j as int),
                ok && live ==> bits_val(counter@) == start_val(b, i as int) + j,
                ok && !live ==> j == cnt && (forall|k: int|
                    i < k < nb ==> (#[trigger] b[k]).len() == 0),
        {
            let sym = bucket[j];
            proof {
                if ok {
                    assert(b[i as int][j as int] == sym);
                    assert(live) by {
                        if !live {
                            assert(j == cnt);
                        }
                    };
                    assert(start_val(b, i as int) + cnt <= pow2((i + 1) as nat));
                }
            }
            let code = bits_to_string(&counter);
            proof {
                if ok {
                    let li = syms_upto(b, i as int).len();
                    lemma_book_model_syms(b, i as int);
                    lemma_syms_extends(b, i as int, nb as int);
                    lemma_syms_extends(b, i + 1, nb as int);
                    assert(syms_upto(b, i + 1) == syms_upto(b, i as int) + b[i as int]);
                    assert(forall|q: int|
                        0 <= q < cnt ==> #[trigger] syms_upto(b, i + 1)[li + q] == b[i as int][q]);
                    lemma_entries_find(book_entries(code_book), sym);
                    let be = book_entries(code_book);
                    if entries_find(be, sym) >= 0 {
                        let f = entries_find(be, sym);
                        assert(bucket_syms(b)[li + j] == syms_upto(b, i + 1)[li + j]);
                        if f < li {
                            assert(be[f].0 == syms_upto(b, i as int)[f]);
                            assert(bucket_syms(b)[f] == syms_upto(b, i as int)[f]);
                            assert(bucket_syms(b)[f] == bucket_syms(b)[li + j]);
                        } else {
                            let q = f - li;
                            assert(be[li + q].0 == bucket_codes(b, i as int).take(j as int)[q].0);
                            assert(be[li + q].0 == b[i as int][q]);
                            assert(bucket_syms(b)[li + q] == syms_upto(b, i + 1)[li + q]);
                            assert(bucket_syms(b)[li + q] == bucket_syms(b)[li + j]);
                        }
                        assert(false);
                    }
                }
            }
            book_insert(&mut code_book, sym, code);
            proof {
                if ok {
                    assert(book_entries(code_book) =~= book_model_upto(b, i as int)
                        + bucket_codes(b, i as int).take(j + 1));
                }
            }
            incr_bits(&mut counter);
            proof {
                if ok {
                    let sv = start_val(b, i as int);
                    if sv + j + 1 < pow2((i + 1) as nat) {
                        assert(bits_val(counter@) == sv + j + 1);
                    } else {
                        assert(sv + j + 1 == pow2((i + 1) as nat));
                        assert(j + 1 == cnt);
                        live = false;
                        assert forall|k: int| i < k < nb implies (#[trigger] b[k]).len() == 0 by {
                            lemma_full_capacity(b, i as int, k);
                        };
                    }
                }
            }
        }
        proof {
            if ok {
                assert(bucket_codes(b, i as int).take(cnt as int) =~= bucket_codes(b, i as int));
                assert(book_model_upto(b, i + 1) == book_model_upto(b, i as int) + bucket_codes(
                    b,
                    i as int,
                ));
                if live {
                    assert(start_val(b, i + 1) == ((start_val(b, i as int) + b[i as int].len())
                        * 2) as nat);
                }
            }
        }
    }
    code_book
}

/// Everything the sparse-header parse needs of an archive that `compress`
/// produced with the sparse table.
proof fn lemma_sparse_header_facts(cs: Seq<u8>)
    requires
        0 < cs.len() <= u32::MAX,
        spec_book(cs).len() <= 127,
    ensures
        ({
            let e = spec_book(cs);
            let bks = spec_buckets(cs);
            let cm = counts_model(e);
            let a = archive_model(cs);
            let hl = 2 + cm.len() + e.len();
            &&& 1 <= e.len() <= 127
            &&& cm.len() == bks.len()
            &&& 1 <= bks.len() <= 255
            &&& (forall|g: int|
                0 <= g < bks.len() ==> (#[trigger] cm[g]) as int == bks[g].len())
            &&& a.len() == hl + pack_stream(spec_stream(cs)).len()
            &&& a[1] == e.len() as u8
            &&& (forall|j: int| 0 <= j < cm.len() ==> (#[trigger] a[2 + j]) == cm[j])
            &&& (forall|j: int|
                0 <= j < e.len() ==> (#[trigger] a[2 + cm.len() + j]) == book_keys(e)[j])
            &&& book_keys(e) == bucket_syms(bks)
            &&& book_keys(e).len() == e.len()
            &&& sum_u8_upto(cm, cm.len() as int) == e.len()
            &&& (forall|j: int| 0 <= j < cm.len() ==> (#[trigger] sum_u8_upto(cm, j)) < e.len())
            &&& a.skip(hl as int) == pack_stream(spec_stream(cs))
            &&& (forall|g: int|
                0 <= g <= bks.len() ==> (#[trigger] syms_upto(bks, g)).len() <= e.len())
        }),
{
    let e = spec_book(cs);
    let bks = spec_buckets(cs);
    let cm = counts_model(e);
    let lens = spec_lens(cs);
    let lo = (spec_stream(cs).len() % 8) as u8;
    let h = header_model(lo, e, lens);
    let a = archive_model(cs);
    let pay = pack_stream(spec_stream(cs));
    lemma_spec_lens_facts(cs);
    lemma_spec_buckets_shape(cs);
    lemma_book_model_syms(bks, bks.len() as int);
    assert(e.len() >= 1) by {
        assert(bks[bks.len() - 1].len() >= 1);
        lemma_syms_upto_contains(bks, bks.len() - 1, bks.len() as int, bks[bks.len() - 1][0]);
        assert(bucket_syms(bks).len() >= 1);
    };
    assert(book_keys(e) =~= bucket_syms(bks));
    assert(a == h + pay);
    assert(h == seq![h[0], e.len() as u8] + (cm + book_keys(e)));
    assert(h.len() == 2 + cm.len() + e.len());
    assert(forall|j: int| 0 <= j < cm.len() ==> #[trigger] a[2 + j] == cm[j]) by {
        assert(forall|j: int| 0 <= j < cm.len() ==> #[trigger] h[2 + j] == cm[j]);
    };
    assert(forall|j: int|
        0 <= j < e.len() ==> #[trigger] a[2 + cm.len() + j] == book_keys(e)[j]) by {
        assert(forall|j: int|
            0 <= j < e.len() ==> #[trigger] h[2 + cm.len() + j] == book_keys(e)[j]);
    };
    lemma_sum_sizes(bks, cm, cm.len() as int);
    assert forall|j: int| 0 <= j < cm.len() implies #[trigger] sum_u8_upto(cm, j) < e.len() by {
        lemma_sum_sizes(bks, cm, j);
        let nc = cm.len() as int;
        lemma_syms_extends(bks, j, nc - 1);
        assert(syms_upto(bks, nc) == syms_upto(bks, nc - 1) + bks[nc - 1]);
        assert(bks[nc - 1].len() >= 1);
        assert(syms_upto(bks, j).len() <= syms_upto(bks, nc - 1).len());
    };
    assert forall|g: int|
        0 <= g <= bks.len() implies #[trigger] syms_upto(bks, g).len() <= e.len() by {
        lemma_syms_extends(bks, g, bks.len() as int);
        lemma_sum_sizes(bks, cm, g);
        lemma_sum_sizes(bks, cm, bks.len() as int);
    };
    assert(a.skip(h.len() as int) =~= pay);
}

/// Rebuilds the per-length symbol buckets of an archive header; nothing
/// when the table is malformed.  The second result is the offset where the
/// payload begins.  On an archive that `compress` produced, the parse
/// succeeds and returns that archive's own leftover count, buckets and
/// payload offset.
fn parse_header(archive: &[u8]) -> (r: Option<(u8, Vec<Vec<u8>>, usize)>)
    ensures
        archive@.len() == 0 ==> r is None,
        some_source(archive@) ==> (r matches Some(p) && {
            let cs = the_source(archive@);
            &&& p.0 as int == spec_stream(cs).len() % 8
            &&& p.1.deep_view() == spec_buckets(cs)
            &&& p.2 <= archive@.len()
            &&& archive@.skip(p.2 as int) == pack_stream(spec_stream(cs))
        }),
{
    let ghost ok = some_source(archive@);
    let ghost cs: Seq<u8> = if ok {
        the_source(archive@)
    } else {
        Seq::empty()
    };
    let ghost lens = spec_lens(cs);
    let ghost f = forced_lens(lens);
    let ghost bks = spec_buckets(cs);
    let ghost e = spec_book(cs);
    let ghost lo = (spec_stream(cs).len() % 8) as u8;
    let ghost h = header_model(lo, e, lens);
    let ghost pay = pack_stream(spec_stream(cs));
    proof {
        if ok {
            assert(0 < cs.len() <= u32::MAX && archive@ == archive_model(cs));
            lemma_spec_lens_facts(cs);
            lemma_spec_buckets_shape(cs);
            lemma_book_model_syms(bks, bks.len() as int);
            assert(archive@ == h + pay);
            assert(lo < 8);
        }
    }
    if archive.len() == 0 {
        proof {
            if ok {
                assert(h.len() >= 1);
                assert(archive@.len() >= 1);
            }
        }
        return None;
    }
    let b0 = archive[0];
    let leftover = b0 >> 5u8;
    let dense = b0 & 0b0001_0000 != 0;
    proof {
        if ok {
            assert(archive@[0] == h[0]);
            if e.len() > 127 {
                assert(b0 == (lo * 32 + 16) as u8);
                assert(lo < 8 ==> ((lo * 32 + 16) as u8) >> 5u8 == lo && (((lo * 32
                    + 16) as u8) & 0b0001_0000u8) != 0) by (bit_vector);
            } else {
                assert(b0 == (lo * 32) as u8);
                assert(lo < 8 ==> ((lo * 32) as u8) >> 5u8 == lo && (((lo * 32) as u8)
                    & 0b0001_0000u8) == 0) by (bit_vector);
            }
            assert(leftover == lo);
            assert(dense <==> e.len() > 127);
        }
    }
    let mut buckets: Vec<Vec<u8>> = Vec::new();
    if dense {
        if archive.len() < 257 {
            proof {
                if ok {
                    assert(h.len() == 257);
                    assert(archive@.len() >= 257);
                }
            }
            return None;
        }
        let ghost table = archive@.subrange(1, 257);
        proof {
            if ok {
                assert(lens.len() >= 2) by {
                    if lens.len() <= 1 {
                        assert(e.len() <= 1);
                    }
                };
                assert(f == lens);
                assert(h == seq![h[0]] + dump_all_model(lens));
                assert(table =~= dump_all_model(lens)) by {
                    assert(forall|t: int|
                        0 <= t < 256 ==> #[trigger] archive@[1 + t] == dump_all_model(lens)[t]);
                };
            }
        }
        let mut longest: usize = 0;
        for c in 0..256usize
            invariant
                archive@.len() >= 257,
                table == archive@.subrange(1, 257),
                longest as int == cells_max(table, c as int),
                longest <= 255,
        {
            let l = archive[1 + c];
            proof {
                assert(table[c as int] == archive@[1 + c]);
            }
            if l as usize > longest {
                longest = l as usize;
            }
        }
        proof {
            if ok {
                lemma_table_cells(lens, 1);
                assert(longest as int == max_len(lens));
                assert(bks.len() == longest);
            }
        }
        for b in 0..longest
            invariant
                archive@.len() >= 257,
                table == archive@.subrange(1, 257),
                b <= longest <= 255,
                buckets@.len() == b,
                forall|g: int|
                    0 <= g < b ==> (#[trigger] buckets@[g])@ == cells_with(table, g + 1, 256),
        {
            let mut bucket: Vec<u8> = Vec::new();
            for c in 0..256usize
                invariant
                    archive@.len() >= 257,
                    table == archive@.subrange(1, 257),
                    b < longest <= 255,
                    bucket@ == cells_with(table, b + 1, c as int),
            {
                proof {
                    assert(table[c as int] == archive@[1 + c]);
                }
                if archive[1 + c] as usize == b + 1 {
                    bucket.push(c as u8);
                    proof {
                        assert(bucket@ =~= cells_with(table, b + 1, c + 1));
                    }
                } else {
                    proof {
                        assert(bucket@ =~= cells_with(table, b + 1, c + 1));
                    }
                }
            }
            buckets.push(bucket);
        }
        proof {
            if ok {
                assert forall|g: int| 0 <= g < bks.len() implies #[trigger] buckets@[g]@
                    == bks[g] by {
                    lemma_table_cells(lens, g + 1);
                    assert(bks[g] == sort_asc(keys_with_len(f, g + 1)));
                };
                assert forall|g: int|
                    0 <= g < buckets@.len() implies #[trigger] buckets.deep_view()[g]
                    == buckets@[g]@ by {
                    assert(buckets@[g].deep_view() =~= buckets@[g]@);
                };
                assert(buckets.deep_view() =~= bks);
                assert(archive@.skip(257) =~= pay);
            }
        }
        Some((leftover, buckets, 257))
    } else {
        if archive.len() < 2 {
            proof {
                if ok {
                    assert(h.len() >= 2);
                    assert(archive@.len() >= 2);
                }
            }
            return None;
        }
        let ghost cm = counts_model(e);
        let ghost nc = cm.len() as int;
        proof {
            if ok {
                assert(e.len() <= 127);
                lemma_sparse_header_facts(cs);
                assert(archive@[1] == e.len() as u8);
            }
        }
        let l = archive[1] as usize;
        proof {
            if ok {
                assert(l == e.len());
            }
        }
        let mut idx: usize = 2;
        let mut counts: Vec<u8> = Vec::new();
        let mut total: usize = 0;
        loop
            invariant_except_break
                ok ==> counts@.len() < nc,
            invariant
                2 <= idx <= archive@.len(),
                idx == 2 + counts@.len(),
                total <= l <= 255,
                ok ==> {
                    &&& some_source(archive@)
                    &&& cs == the_source(archive@)
                    &&& cm == counts_model(spec_book(cs))
                    &&& nc == cm.len()
                    &&& e == spec_book(cs)
                    &&& l == e.len()
                    &&& e.len() <= 127
                    &&& counts@ == cm.take(counts@.len() as int)
                    &&& total == sum_u8_upto(cm, counts@.len() as int)
                },
                !ok ==> !some_source(archive@),
            ensures
                idx == 2 + counts@.len(),
                idx <= archive@.len(),
                ok ==> counts@ == cm && idx == 2 + nc && total == l,
                !ok ==> !some_source(archive@),
            decreases archive@.len() - idx,
        {
            proof {
                if ok {
                    assert(0 < cs.len() <= u32::MAX && archive@ == archive_model(cs));
                    lemma_sparse_header_facts(cs);
                }
            }
            if idx >= archive.len() {
                proof {
                    if ok {
                        assert(idx == 2 + counts@.len() < 2 + nc);
                        assert(archive_model(cs).len() >= 2 + counts_model(spec_book(cs)).len()
                            + spec_book(cs).len());
                        assert(archive@.len() >= 2 + cm.len() + e.len());
                    }
                }
                return None;
            }
            let c = archive[idx];
            proof {
                if ok {
                    assert(archive_model(cs)[2 + counts@.len() as int] == counts_model(
                        spec_book(cs),
                    )[counts@.len() as int]);
                    assert(c == archive@[idx as int]);
                    assert(c == cm[counts@.len() as int]);
                    assert(sum_u8_upto(cm, counts@.len() as int + 1) == total + c);
                    assert(sum_u8_upto(cm, counts@.len() as int + 1) <= e.len()) by {
                        if counts@.len() as int + 1 < nc {
                            assert(sum_u8_upto(cm, counts@.len() as int + 1) < e.len());
                        }
                    };
                }
            }
            idx = idx + 1;
            if c as usize > l - total {
                proof {
                    if ok {
                        assert(total + c <= l);
                    }
                }
                return None;
            }
            counts.push(c);
            total = total + c as usize;
            proof {
                if ok {
                    assert(counts@ =~= cm.take(counts@.len() as int));
                }
            }
            if total == l {
                proof {
                    if ok {
                        assert(counts@.len() == nc) by {
                            if counts@.len() < nc {
                                assert(sum_u8_upto(cm, counts@.len() as int) < e.len());
                            }
                        };
                        assert(counts@ =~= cm);
                    }
                }
                break ;
            }
            proof {
                if ok {
                    assert(counts@.len() < nc) by {
                        if counts@.len() == nc {
                            assert(sum_u8_upto(cm, nc) == e.len());
                        }
                    };
                }
            }
        }
        let nc_read = counts.len();
        for g in 0..nc_read
            invariant
                nc_read == counts@.len(),
                idx <= archive@.len(),
                buckets@.len() == g,
                ok ==> {
                    &&& some_source(archive@)
                    &&& cs == the_source(archive@)
                    &&& cm == counts_model(spec_book(cs))
                    &&& nc == cm.len()
                    &&& e == spec_book(cs)
                    &&& bks == spec_buckets(cs)
                    &&& l == e.len()
                    &&& e.len() <= 127
                    &&& counts@ == cm
                    &&& nc_read == nc
                    &&& idx == 2 + nc + syms_upto(bks, g as int).len()
                    &&& forall|g2: int| 0 <= g2 < g ==> (#[trigger] buckets@[g2])@ == bks[g2]
                },
                !ok ==> !some_source(archive@),
        {
            proof {
                if ok {
                    assert(0 < cs.len() <= u32::MAX && archive@ == archive_model(cs));
                    lemma_sparse_header_facts(cs);
                }
            }
            let c = counts[g] as usize;
            proof {
                if ok {
                    assert(cm[g as int] as int == bks[g as int].len());
                    assert(syms_upto(bks, g + 1) == syms_upto(bks, g as int) + bks[g as int]);
                    assert(syms_upto(bks, g + 1).len() <= e.len());
                    assert(idx + c <= 2 + nc + e.len());
                    assert(archive@.len() >= 2 + cm.len() + e.len());
                }
            }
            if c > archive.len() - idx {
                proof {
                    if ok {
                        assert(false);
                    }
                }
                return None;
            }
            let mut bucket: Vec<u8> = Vec::new();
            let mut taken: usize = 0;
            while taken < c
                invariant
                    taken <= c,
                    archive@.len() <= usize::MAX,
                    idx <= archive@.len(),
                    c <= archive@.len() - idx,
                    idx + taken <= archive@.len(),
                    bucket@ == archive@.subrange(idx as int, idx + taken),
                decreases c - taken,
            {
                bucket.push(archive[idx + taken]);
                taken = taken + 1;
                proof {
                    assert(bucket@ =~= archive@.subrange(idx as int, idx + taken));
                }
            }
            proof {
                if ok {
                    lemma_sparse_header_facts(cs);
                    assert(bucket@ =~= bks[g as int]) by {
                        lemma_bucket_slice(bks, g as int);
                        assert(forall|q: int|
                            0 <= q < c ==> #[trigger] archive@[idx + q] == archive@[2 + nc
                                + (syms_upto(bks, g as int).len() + q)]);
                        assert(forall|q: int|
                            0 <= q < c ==> #[trigger] archive@[2 + nc + (syms_upto(
                                bks,
                                g as int,
                            ).len() + q)] == book_keys(e)[syms_upto(bks, g as int).len() + q]);
                        assert(forall|q: int|
                            0 <= q < c ==> #[trigger] book_keys(e)[syms_upto(bks, g as int).len()
                                + q] == bucket_syms(bks)[syms_upto(bks, g as int).len() + q]);
                    };
                }
            }
            idx = idx + c;
            buckets.push(bucket);
        }
        proof {
            if ok {
                lemma_sparse_header_facts(cs);
                lemma_sum_sizes(bks, cm, nc);
                lemma_book_model_syms(bks, bks.len() as int);
                assert(syms_upto(bks, nc).len() == e.len());
                assert(idx == 2 + nc + e.len());
                assert forall|g: int|
                    0 <= g < buckets@.len() implies #[trigger] buckets.deep_view()[g]
                    == buckets@[g]@ by {
                    assert(buckets@[g].deep_view() =~= buckets@[g]@);
                };
                assert(buckets.deep_view() =~= bks);
                assert(archive@.skip(idx as int) =~= pay) by {
                    assert(archive@.skip((2 + cm.len() + e.len()) as int) == pay);
                };
            }
        }
        Some((leftover, buckets, idx))
    }
}

proof fn lemma_encode_concat(e: Seq<(u8, Seq<char>)>, a: Seq<u8>, b: Seq<u8>)
    ensures
        encode_stream(e, a + b) == encode_stream(e, a) + encode_stream(e, b),
    decreases b.len(),
{
    if b.len() == 0 {
        assert(a + b =~= a);
        assert(encode_stream(e, a) + encode_stream(e, b) =~= encode_stream(e, a));
    } else {
        lemma_encode_concat(e, a, b.drop_last());
        assert((a + b).drop_last() =~= a + b.drop_last());
        assert((a + b).last() == b.last());
        assert(encode_stream(e, a + b) =~= encode_stream(e, a) + encode_stream(e, b));
    }
}

proof fn lemma_pack_len(s: Seq<char>)
    ensures
        s.len() % 8 == 0 ==> 8 * pack_stream(s).len() == s.len(),
        s.len() % 8 != 0 ==> 8 * (pack_stream(s).len() - 1) + s.len() % 8 == s.len(),
    decreases s.len(),
{
    if s.len() == 0 {
    } else if s.len() < 8 {
        vstd::arithmetic::div_mod::lemma_small_mod(s.len() as nat, 8);
    } else {
        lemma_pack_len(s.skip(8));
        let q = (s.len() - 8) as int / 8;
        vstd::arithmetic::div_mod::lemma_fundamental_div_mod((s.len() - 8) as int, 8);
        vstd::arithmetic::div_mod::lemma_fundamental_div_mod_converse(
            s.len() as int,
            8,
            q + 1,
            (s.len() - 8) as int % 8,
        );
        assert(s.len() % 8 == (s.len() - 8) % 8);
    }
}

/// The eight bits of a byte, most significant first.
fn byte_bits(b: u8) -> (r: Vec<u8>)
    ensures
        bits_wf(r@),
        r@.len() == 8,
        bits_val(r@) == b,
{
    let mut bits: Vec<u8> = Vec::new();
    let mut v: u8 = b;
    proof {
        vstd::arithmetic::power2::lemma2_to64();
    }
    for it in 0..8usize
        invariant
            bits@.len() == it,
            bits_wf(bits@),
            bits_val(bits@) + (v as int) * pow2(it as nat) == b,
    {
        let ghost old_bits = bits@;
        let ghost old_v = v;
        bits.insert(0, v % 2);
        v = v / 2;
        proof {
            assert(bits@ =~= seq![old_v % 2] + old_bits);
            crate::binary::lemma_bits_val_split(bits@, 1);
            assert(bits@.take(1) =~= seq![old_v % 2]);
            assert(bits@.skip(1) =~= old_bits);
            assert(bits_val(seq![old_v % 2]) == (old_v % 2) as int) by {
                assert(seq![old_v % 2].drop_last() =~= Seq::<u8>::empty());
                assert(bits_val(Seq::<u8>::empty()) == 0);
            };
            vstd::arithmetic::power2::lemma_pow2_unfold((it + 1) as nat);
            assert((old_v / 2) as int * pow2((it + 1) as nat) == 2 * ((old_v / 2) as int * pow2(
                it as nat,
            ))) by (nonlinear_arith)
                requires
                    pow2((it + 1) as nat) == 2 * pow2(it as nat),
            ;
            assert((old_v as int) * pow2(it as nat) == ((old_v % 2) as int) * pow2(it as nat) + 2
                * ((old_v / 2) as int * pow2(it as nat))) by (nonlinear_arith)
                requires
                    old_v as int == 2 * (old_v / 2) as int + (old_v % 2) as int,
            ;
            assert(bits_val(bits@) == ((old_v % 2) as int) * pow2(it as nat) + bits_val(old_bits));
        }
    }
    proof {
        assert(pow2(8) == 256) by { vstd::arithmetic::power2::lemma2_to64() };
        assert(v == 0) by (nonlinear_arith)
            requires
                (v as int) * 256 <= 255,
                v >= 0,
        ;
    }
    bits
}

/// The symbol whose code is exactly `cur`, when the book has one.
fn find_code(book: &IndexMap<u8, String>, cur: &String) -> (r: Option<u8>)
    ensures
        r matches Some(sym) ==> exists|q: int|
            0 <= q < book_entries(*book).len() && (#[trigger] book_entries(*book)[q]).1 == cur@
                && book_entries(*book)[q].0 == sym,
        r is None ==> forall|q: int|
            0 <= q < book_entries(*book).len() ==> (#[trigger] book_entries(*book)[q]).1 != cur@,
{
    let n = book_len(book);
    let mut q: usize = 0;
    while q < n
        invariant
            n == book_entries(*book).len(),
            q <= n,
            forall|q2: int| 0 <= q2 < q ==> (#[trigger] book_entries(*book)[q2]).1 != cur@,
        decreases n - q,
    {
        let pair = book_get_index(book, q).unwrap();
        if pair.1 == *cur {
            proof {
                assert(book_entries(*book)[q as int].1 == cur@);
            }
            return Some(pair.0);
        }
        q = q + 1;
    }
    None
}

/// Decodes an archive back to bytes: reads the table, rebuilds the
/// canonical codes, and matches the payload bits code by code; nothing when
/// the archive is malformed.  On any archive that `compress` produced, the
/// result is exactly the input that was compressed: the round-trip law.
pub fn decompress(archive: &[u8]) -> (r: Option<Vec<u8>>)
    ensures
        archive@.len() == 0 ==> r is None,
        forall|c: Seq<u8>|
            0 < c.len() <= u32::MAX && archive@ == archive_model(c) ==> (r matches Some(o) && o@
                == c),
{
    let ghost ok = some_source(archive@);
    let ghost cs: Seq<u8> = if ok {
        the_source(archive@)
    } else {
        Seq::empty()
    };
    let ghost e = spec_book(cs);
    let ghost bks = spec_buckets(cs);
    let ghost stream = spec_stream(cs);
    proof {
        if ok {
            assert(0 < cs.len() <= u32::MAX && archive@ == archive_model(cs));
            lemma_pipeline_buckets(cs);
            lemma_canonical_book(bks);
            lemma_spec_stream_binary(cs);
            lemma_pack_roundtrip(stream);
            lemma_pack_len(stream);
        }
    }
    let parsed = parse_header(archive);
    let (leftover, buckets, start) = match parsed {
        Some(p) => p,
        None => {
            proof {
                if ok {
                    assert(false);
                }
            }
            return None;
        },
    };
    proof {
        if ok {
            assert(leftover as int == stream.len() % 8);
            assert(buckets.deep_view() == bks);
            assert(archive@.skip(start as int) == pack_stream(stream));
        }
    }
    if leftover > 7 || start > archive.len() {
        proof {
            if ok {
                assert(false);
            }
        }
        return None;
    }
    let book = assign_codes(&buckets);
    proof {
        if ok {
            assert(book_entries(book) == book_model(bks));
        }
    }
    let n = book_len(&book);
    let payload_len = archive.len() - start;
    proof {
        if ok {
            lemma_encode_front(e, cs);
            lemma_entries_find(e, cs[0]);
            assert(code_of(e, cs[0]).len() >= 1);
            assert(encode_stream(e, cs.drop_first()).len() >= 0);
            assert(stream.len() >= 1);
            assert(pack_stream(stream).len() >= 1);
            assert(pack_stream(stream).len() == archive@.skip(start as int).len());
            assert(payload_len == pack_stream(stream).len());
        }
    }
    if leftover != 0 && payload_len == 0 {
        proof {
            if ok {
                assert(false);
            }
        }
        return None;
    }
    let mut out: Vec<u8> = Vec::new();
    let mut cur = String::new();
    let ghost mut processed: int = 0;
    proof {
        if ok {
            assert(stream.skip(0) =~= stream);
            assert(pack_stream(stream).skip(0) =~= pack_stream(stream));
            assert(cs.take(0) =~= Seq::<u8>::empty());
            assert(encode_stream(e, Seq::<u8>::empty()) == Seq::<char>::empty());
            assert(out@ =~= cs.take(0));
            assert(stream.take(0) =~= encode_stream(e, cs.take(0)) + cur@);
            if cs.len() > 0 {
                assert(cur@ =~= code_of(e, cs[0]).take(0));
            }
        }
    }
    for p in 0..payload_len
        invariant
            start + payload_len == archive@.len(),
            archive@.len() <= usize::MAX,
            leftover <= 7,
            n == book_entries(book).len(),
            ok ==> {
                &&& some_source(archive@)
                &&& cs == the_source(archive@)
                &&& 0 < cs.len() <= u32::MAX
                &&& archive@ == archive_model(cs)
                &&& e == spec_book(cs)
                &&& bks == spec_buckets(cs)
                &&& stream == spec_stream(cs)
                &&& book_entries(book) == e
                &&& leftover as int == stream.len() % 8
                &&& pack_stream(stream).len() == payload_len
                &&& archive@.skip(start as int) == pack_stream(stream)
                &&& (p < payload_len ==> processed == 8 * p)
                &&& (p == payload_len ==> processed == stream.len())
                &&& processed <= stream.len()
                &&& stream.skip(processed) == unpack_stream(
                    pack_stream(stream).skip(p as int),
                    leftover as int,
                )
                &&& out@.len() <= cs.len()
                &&& out@ == cs.take(out@.len() as int)
                &&& stream.take(processed) == encode_stream(e, cs.take(out@.len() as int)) + cur@
                &&& (out@.len() < cs.len() ==> cur@.len() < code_of(
                    e,
                    cs[out@.len() as int],
                ).len() && cur@ == code_of(e, cs[out@.len() as int]).take(cur@.len() as int))
                &&& (out@.len() == cs.len() ==> cur@.len() == 0)
            },
            !ok ==> !some_source(archive@),
    {
        let byte = archive[start + p];
        let bits_here: u8 = if leftover != 0 && p == payload_len - 1 {
            leftover
        } else {
            8
        };
        let bbits = byte_bits(byte);
        proof {
            if ok {
                assert(byte == pack_stream(stream)[p as int]);
                crate::binary::lemma_bit_chars_bin_str(bbits@);
                lemma_bin_str_len(byte as nat, 8);
                lemma_pack_len(stream);
                let sfx = pack_stream(stream).skip(p as int);
                assert(sfx[0] == byte);
                assert(sfx.len() == payload_len - p);
                if leftover != 0 && p == payload_len - 1 {
                    assert(sfx.len() == 1);
                    assert(unpack_stream(sfx, leftover as int) == bin_str(byte as nat, 8).take(
                        leftover as int,
                    ));
                    assert(stream.len() == 8 * p + leftover);
                } else {
                    assert(sfx.drop_first() =~= pack_stream(stream).skip(p + 1));
                    assert(unpack_stream(sfx, leftover as int) == bin_str(byte as nat, 8)
                        + unpack_stream(sfx.drop_first(), leftover as int));
                    assert(8 * p + 8 <= stream.len());
                }
                assert forall|kk: int| 0 <= kk < bits_here implies stream[8 * p + kk] == bin_str(
                    byte as nat,
                    8,
                )[kk] by {
                    assert(stream.skip(processed)[kk] == stream[8 * p + kk]);
                };
            }
        }
        let mut k: u8 = 0;
        while k < bits_here
            invariant
                bits_here <= 8,
                n == book_entries(book).len(),
                bbits@.len() == 8,
                bits_wf(bbits@),
                k <= bits_here,
                ok ==> {
                    &&& some_source(archive@)
                    &&& cs == the_source(archive@)
                    &&& 0 < cs.len() <= u32::MAX
                    &&& archive@ == archive_model(cs)
                    &&& e == spec_book(cs)
                    &&& bks == spec_buckets(cs)
                    &&& stream == spec_stream(cs)
                    &&& book_entries(book) == e
                    &&& bit_chars(bbits@) == bin_str(byte as nat, 8)
                    &&& processed == 8 * p + k
                    &&& 8 * p + bits_here <= stream.len()
                    &&& (forall|kk: int|
                        0 <= kk < bits_here ==> #[trigger] stream[8 * p + kk] == bin_str(
                            byte as nat,
                            8,
                        )[kk])
                    &&& out@.len() <= cs.len()
                    &&& out@ == cs.take(out@.len() as int)
                    &&& stream.take(processed) == encode_stream(e, cs.take(out@.len() as int))
                        + cur@
                    &&& (out@.len() < cs.len() ==> cur@.len() < code_of(
                        e,
                        cs[out@.len() as int],
                    ).len() && cur@ == code_of(e, cs[out@.len() as int]).take(cur@.len() as int))
                    &&& (out@.len() == cs.len() ==> cur@.len() == 0)
                },
                !ok ==> !some_source(archive@),
            decreases bits_here - k,
        {
            let bit = bbits[k as usize];
            let ghost prev_cur = cur@;
            let ghost m = out@.len() as int;
            if bit == 1 {
                cur.append("1");
            } else {
                cur.append("0");
            }
            proof {
                reveal_strlit("1");
                reveal_strlit("0");
                if ok {
                    lemma_pipeline_buckets(cs);
                    lemma_canonical_book(bks);
                    lemma_spec_stream_binary(cs);
                    let ch = stream[8 * p + k];
                    assert(bit_chars(bbits@)[k as int] == (if bbits@[k as int] == 1 {
                        '1'
                    } else {
                        '0'
                    }));
                    assert(ch == bin_str(byte as nat, 8)[k as int]);
                    assert(cur@ =~= prev_cur.push(ch));
                    processed = processed + 1;
                    assert(stream.take(processed) =~= stream.take(processed - 1).push(ch));
                    assert(m < cs.len()) by {
                        if m == cs.len() {
                            assert(cs.take(m) =~= cs);
                            assert(prev_cur.len() == 0);
                            assert(stream.take(processed - 1).len() == stream.len());
                        }
                    };
                    let code_next = code_of(e, cs[m]);
                    lemma_entries_find(e, cs[m]);
                    lemma_encode_concat(e, cs.take(m), cs.skip(m));
                    assert(cs.take(m) + cs.skip(m) =~= cs);
                    lemma_encode_front(e, cs.skip(m));
                    assert(cs.skip(m)[0] == cs[m]);
                    assert(cs.skip(m).drop_first() =~= cs.skip(m + 1));
                    let enc_m = encode_stream(e, cs.take(m));
                    assert(stream == enc_m + (code_next + encode_stream(e, cs.skip(m + 1))));
                    assert(enc_m.len() + prev_cur.len() == processed - 1);
                    assert(ch == code_next[prev_cur.len() as int]) by {
                        assert(stream[enc_m.len() + prev_cur.len() as int] == (code_next
                            + encode_stream(e, cs.skip(m + 1)))[prev_cur.len() as int]);
                    };
                    assert(cur@ =~= code_next.take(cur@.len() as int)) by {
                        assert(forall|j: int|
                            0 <= j < prev_cur.len() ==> #[trigger] prev_cur[j] == code_next.take(
                                prev_cur.len() as int,
                            )[j]);
                    };
                }
            }
            let found = find_code(&book, &cur);
            match found {
                Some(sym) => {
                    proof {
                        if ok {
                            let code_next = code_of(e, cs[m]);
                            let f = entries_find(e, cs[m]);
                            lemma_entries_find(e, cs[m]);
                            let q = choose|q: int|
                                0 <= q < e.len() && (#[trigger] e[q]).1 == cur@ && e[q].0 == sym;
                            if cur@.len() < code_next.len() {
                                assert(is_prefix(e[q].1, e[f].1)) by {
                                    assert(e[f].1.take(cur@.len() as int) == cur@);
                                };
                                assert(q != f) by {
                                    assert(e[f].1.len() == code_next.len());
                                };
                                assert(false);
                            }
                            assert(cur@.len() == code_next.len());
                            assert(cur@ =~= code_next.take(cur@.len() as int));
                            assert(code_next.take(code_next.len() as int) =~= code_next);
                            assert(cur@ == code_next);
                            assert(q == f) by {
                                if q != f {
                                    assert(is_prefix(e[q].1, e[f].1)) by {
                                        assert(e[f].1.take(e[q].1.len() as int) =~= e[q].1);
                                    };
                                }
                            };
                            assert(sym == cs[m]);
                        }
                    }
                    out.push(sym);
                    cur = String::new();
                    proof {
                        if ok {
                            assert(out@ =~= cs.take(out@.len() as int)) by {
                                assert(cs.take(m + 1) =~= cs.take(m).push(cs[m]));
                            };
                            assert(cs.take(m + 1).drop_last() =~= cs.take(m));
                            assert(cs.take(m + 1).last() == cs[m]);
                            assert(encode_stream(e, cs.take(m + 1)) == encode_stream(
                                e,
                                cs.take(m),
                            ) + code_of(e, cs[m]));
                            assert(stream.take(processed) =~= encode_stream(
                                e,
                                cs.take(out@.len() as int),
                            ) + cur@);
                            if out@.len() < cs.len() {
                                lemma_entries_find(e, cs[out@.len() as int]);
                                assert(code_of(e, cs[out@.len() as int]).len() >= 1);
                                assert(cur@ =~= code_of(e, cs[out@.len() as int]).take(0));
                            }
                        }
                    }
                },
                None => {
                    proof {
                        if ok {
                            let code_next = code_of(e, cs[m]);
                            let f = entries_find(e, cs[m]);
                            assert(e[f].1 != cur@);
                            assert(cur@.len() < code_next.len()) by {
                                if cur@.len() == code_next.len() {
                                    assert(cur@ =~= code_next.take(cur@.len() as int));
                                    assert(code_next.take(code_next.len() as int) =~= code_next);
                                }
                            };
                        }
                    }
                },
            }
            k = k + 1;
        }
        proof {
            if ok {
                lemma_pack_len(stream);
                if p + 1 < payload_len || leftover == 0 {
                    assert(processed == 8 * (p + 1));
                    let sfx = pack_stream(stream).skip(p as int);
                    assert(sfx.drop_first() =~= pack_stream(stream).skip(p + 1));
                    assert(unpack_stream(sfx, leftover as int) == bin_str(byte as nat, 8)
                        + unpack_stream(sfx.drop_first(), leftover as int)) by {
                        assert(sfx[0] == byte);
                        if sfx.len() == 1 {
                            assert(leftover == 0);
                        }
                    };
                    lemma_bin_str_len(byte as nat, 8);
                    assert(stream.skip(processed) =~= unpack_stream(
                        pack_stream(stream).skip(p + 1),
                        leftover as int,
                    )) by {
                        assert(forall|j: int|
                            0 <= j < stream.len() - processed ==> #[trigger] stream.skip(processed)[j]
                                == stream.skip(8 * p)[8 + j]);
                    };
                    if p + 1 == payload_len {
                        assert(processed == stream.len());
                    }
                } else {
                    assert(p + 1 == payload_len && leftover != 0);
                    assert(processed == 8 * p + leftover);
                    assert(processed == stream.len());
                    assert(stream.skip(processed) =~= Seq::<char>::empty());
                    assert(pack_stream(stream).skip(payload_len as int) =~= Seq::<u8>::empty());
                    assert(unpack_stream(Seq::<u8>::empty(), leftover as int)
                        == Seq::<char>::empty());
                }
            }
        }
    }
    proof {
        if ok {
            assert(processed == stream.len());
            assert(out@.len() == cs.len()) by {
                if out@.len() < cs.len() {
                    let m = out@.len() as int;
                    lemma_encode_concat(e, cs.take(m), cs.skip(m));
                    assert(cs.take(m) + cs.skip(m) =~= cs);
                    lemma_encode_front(e, cs.skip(m));
                    assert(cs.skip(m)[0] == cs[m]);
                    lemma_entries_find(e, cs[m]);
                    assert(stream.take(processed) =~= stream);
                    assert(stream == encode_stream(e, cs.take(m)) + (code_of(e, cs[m])
                        + encode_stream(e, cs.skip(m + 1))));
                    assert(cur@.len() >= code_of(e, cs[m]).len());
                }
            };
            assert(cur@.len() == 0);
            assert(out@ =~= cs);
        }
    }
    if cur.as_str().is_empty() {
        proof {
            assert forall|c: Seq<u8>|
                0 < c.len() <= u32::MAX && archive@ == archive_model(c) implies out@ == c by {
                assert(some_source(archive@));
                lemma_archive_injective(c, cs);
            };
        }
        Some(out)
    } else {
        proof {
            if ok {
                assert(false);
            }
        }
        None
    }
}

/// Relies on str::chars: it yields exactly the characters of the string.
#[verifier::external_body]
fn str_chars_vec(s: &str) -> (r: Vec<char>)
    ensures
        r@ == s@,
{
    s.chars().collect()
}

// ---------------------------------------------------------------------------
// Bit packing and the whole archive.
// ---------------------------------------------------------------------------

fn opt_result<'a, T>(opt: Option<T>, err: &'a str) -> (r: Result<T, &'a str>)
    ensures
        opt matches Some(t) ==> (r matches Ok(t2) && t2 == t),
        opt is None ==> (r matches Err(e) && e@ == err@),
{
    match opt {
        Some(res) => Ok(res),
        None => Err(err),
    }
}

/// The code of byte `k` in the book; empty when the book has none.
pub open spec fn code_of(e: Seq<(u8, Seq<char>)>, k: u8) -> Seq<char> {
    if entries_find(e, k) >= 0 {
        e[entries_find(e, k)].1
    } else {
        Seq::empty()
    }
}

/// The concatenation of the codes of the input bytes, in input order.
pub open spec fn encode_stream(e: Seq<(u8, Seq<char>)>, content: Seq<u8>) -> Seq<char>
    decreases content.len(),
{
    if content.len() == 0 {
        Seq::empty()
    } else {
        encode_stream(e, content.drop_last()) + code_of(e, content.last())
    }
}

/// The bytes of the full 8-bit chunks of a bit stream.
pub open spec fn full_bytes(s: Seq<char>) -> Seq<u8>
    decreases s.len(),
{
    if s.len() < 8 {
        Seq::empty()
    } else {
        seq![char_val(s.take(8)) as u8] + full_bytes(s.skip(8))
    }
}

/// A partial byte, right-padded with '1' bits to eight.
pub open spec fn pad_ones(s: Seq<char>) -> Seq<char> {
    s + Seq::new((8 - s.len()) as nat, |i: int| '1')
}

/// The packed payload: full bytes, then the padded final byte if any bits
/// remain.
pub open spec fn pack_stream(s: Seq<char>) -> Seq<u8>
    decreases s.len(),
{
    if s.len() == 0 {
        Seq::empty()
    } else if s.len() < 8 {
        seq![char_val(pad_ones(s)) as u8]
    } else {
        seq![char_val(s.take(8)) as u8] + pack_stream(s.skip(8))
    }
}

/// The bit stream of an input under its own canonical book.
pub open spec fn spec_stream(content: Seq<u8>) -> Seq<char> {
    encode_stream(spec_book(content), content)
}

/// The full archive of a non-empty input: header, then packed payload.
pub open spec fn archive_model(content: Seq<u8>) -> Seq<u8> {
    header_model(
        (spec_stream(content).len() % 8) as u8,
        spec_book(content),
        spec_lens(content),
    ) + pack_stream(spec_stream(content))
}

proof fn lemma_char_val_bound(s: Seq<char>)
    ensures
        char_val(s) < pow2(s.len() as nat),
    decreases s.len(),
{
    if s.len() == 0 {
        assert(pow2(0) == 1) by { vstd::arithmetic::power2::lemma2_to64() };
    } else {
        lemma_char_val_bound(s.drop_last());
        vstd::arithmetic::power2::lemma_pow2_unfold(s.len() as nat);
    }
}

proof fn lemma_full_bytes_append(a: Seq<char>, chunk: Seq<char>)
    requires
        a.len() % 8 == 0,
        chunk.len() == 8,
    ensures
        full_bytes(a + chunk) == full_bytes(a).push(char_val(chunk) as u8),
    decreases a.len(),
{
    if a.len() == 0 {
        assert(a + chunk =~= chunk);
        assert(chunk.take(8) =~= chunk);
        assert(chunk.skip(8) =~= Seq::<char>::empty());
        assert(full_bytes(Seq::<char>::empty()) == Seq::<u8>::empty());
        assert(full_bytes(a) == Seq::<u8>::empty());
        assert(full_bytes(chunk) =~= Seq::<u8>::empty().push(char_val(chunk) as u8));
    } else {
        assert(a.len() >= 8) by {
            if a.len() < 8 {
                vstd::arithmetic::div_mod::lemma_small_mod(a.len() as nat, 8);
            }
        };
        assert((a + chunk).take(8) =~= a.take(8));
        assert((a + chunk).skip(8) =~= a.skip(8) + chunk);
        assert(a.skip(8).len() % 8 == 0) by {
            let q = a.len() as int / 8;
            vstd::arithmetic::div_mod::lemma_fundamental_div_mod(a.len() as int, 8);
            vstd::arithmetic::div_mod::lemma_fundamental_div_mod_converse(
                a.len() - 8,
                8,
                q - 1,
                0,
            );
        };
        lemma_full_bytes_append(a.skip(8), chunk);
        assert(full_bytes(a + chunk) =~= full_bytes(a).push(char_val(chunk) as u8));
    }
}

proof fn lemma_pack_decompose(a: Seq<char>, tail: Seq<char>)
    requires
        a.len() % 8 == 0,
        tail.len() < 8,
    ensures
        pack_stream(a + tail) == full_bytes(a) + if tail.len() == 0 {
            Seq::<u8>::empty()
        } else {
            seq![char_val(pad_ones(tail)) as u8]
        },
    decreases a.len(),
{
    if a.len() == 0 {
        assert(a + tail =~= tail);
        if tail.len() == 0 {
            assert(pack_stream(a + tail) =~= full_bytes(a));
        } else {
            assert(full_bytes(a) == Seq::<u8>::empty());
            assert(pack_stream(a + tail) =~= full_bytes(a) + seq![char_val(pad_ones(tail)) as u8]);
        }
    } else {
        assert(a.len() >= 8) by {
            if a.len() < 8 {
                vstd::arithmetic::div_mod::lemma_small_mod(a.len() as nat, 8);
            }
        };
        assert((a + tail).take(8) =~= a.take(8));
        assert((a + tail).skip(8) =~= a.skip(8) + tail);
        assert(a.skip(8).len() % 8 == 0) by {
            let q = a.len() as int / 8;
            vstd::arithmetic::div_mod::lemma_fundamental_div_mod(a.len() as int, 8);
            vstd::arithmetic::div_mod::lemma_fundamental_div_mod_converse(
                a.len() - 8,
                8,
                q - 1,
                0,
            );
        };
        lemma_pack_decompose(a.skip(8), tail);
        assert(full_bytes(a) == seq![char_val(a.take(8)) as u8] + full_bytes(a.skip(8)));
        assert(pack_stream(a + tail) =~= full_bytes(a) + if tail.len() == 0 {
            Seq::<u8>::empty()
        } else {
            seq![char_val(pad_ones(tail)) as u8]
        });
    }
}

/// The bit stream read back from a packed payload: eight bits per byte,
/// only the first `leftover` bits of the final byte when `leftover` is not
/// zero.
pub open spec fn unpack_stream(bytes: Seq<u8>, leftover: int) -> Seq<char>
    decreases bytes.len(),
{
    if bytes.len() == 0 {
        Seq::empty()
    } else if bytes.len() == 1 && leftover != 0 {
        bin_str(bytes[0] as nat, 8).take(leftover)
    } else {
        bin_str(bytes[0] as nat, 8) + unpack_stream(bytes.drop_first(), leftover)
    }
}

/// Whether a character sequence consists of binary digits only.
pub open spec fn binary_chars(s: Seq<char>) -> bool {
    forall|i: int| 0 <= i < s.len() ==> (#[trigger] s[i]) == '0' || s[i] == '1'
}

proof fn lemma_bin_char_roundtrip(s: Seq<char>)
    requires
        binary_chars(s),
    ensures
        bin_str(char_val(s), s.len() as nat) == s,
    decreases s.len(),
{
    if s.len() > 0 {
        assert(binary_chars(s.drop_last()));
        lemma_bin_char_roundtrip(s.drop_last());
        let a = char_val(s.drop_last());
        let b: nat = if s.last() == '1' {
            1
        } else {
            0
        };
        crate::binary::lemma_halving(a, b);
        assert(s[s.len() - 1] == '0' || s[s.len() - 1] == '1');
        assert(bin_str(char_val(s), s.len() as nat) =~= s);
    }
}

/// Payload round-trip law: unpacking a packed bit stream, using the
/// leftover-bit count the packer reports, restores the stream exactly.
pub proof fn lemma_pack_roundtrip(s: Seq<char>)
    requires
        binary_chars(s),
    ensures
        unpack_stream(pack_stream(s), (s.len() % 8) as int) == s,
    decreases s.len(),
{
    vstd::arithmetic::power2::lemma2_to64();
    if s.len() == 0 {
        assert(unpack_stream(pack_stream(s), 0) =~= s);
    } else if s.len() < 8 {
        vstd::arithmetic::div_mod::lemma_small_mod(s.len() as nat, 8);
        let p = pad_ones(s);
        assert(binary_chars(p));
        assert(p.len() == 8);
        lemma_char_val_bound(p);
        lemma_bin_char_roundtrip(p);
        let byte = char_val(p) as u8;
        assert(pack_stream(s) == seq![byte]);
        assert(seq![byte][0] == byte);
        assert(bin_str(byte as nat, 8) == p);
        assert(p.take(s.len() as int) =~= s);
        assert(unpack_stream(pack_stream(s), s.len() as int) == s);
    } else {
        let head = s.take(8);
        let rest = s.skip(8);
        assert(binary_chars(head)) by {
            assert(forall|i: int| 0 <= i < 8 ==> head[i] == s[i]);
        };
        assert(binary_chars(rest)) by {
            assert(forall|i: int| 0 <= i < rest.len() ==> rest[i] == s[8 + i]);
        };
        lemma_char_val_bound(head);
        lemma_bin_char_roundtrip(head);
        lemma_pack_roundtrip(rest);
        assert(rest.len() % 8 == s.len() % 8) by {
            let q = rest.len() as int / 8;
            vstd::arithmetic::div_mod::lemma_fundamental_div_mod(rest.len() as int, 8);
            vstd::arithmetic::div_mod::lemma_fundamental_div_mod_converse(
                s.len() as int,
                8,
                q + 1,
                rest.len() as int % 8,
            );
        };
        let byte = char_val(head) as u8;
        let packed = pack_stream(s);
        assert(packed == seq![byte] + pack_stream(rest));
        assert(packed[0] == byte);
        assert(packed.drop_first() =~= pack_stream(rest));
        if packed.len() == 1 && s.len() % 8 != 0 {
            // a single packed byte with a leftover means the whole stream
            // is shorter than eight bits, contradicting this branch
            assert(pack_stream(rest).len() == 0);
            assert(rest.len() == 0) by {
                if rest.len() > 0 {
                    assert(pack_stream(rest).len() > 0);
                }
            };
            vstd::arithmetic::div_mod::lemma_mod_self_0(8);
            assert(false);
        }
        if rest.len() == 0 {
            assert(unpack_stream(packed, 0) =~= bin_str(byte as nat, 8) + unpack_stream(
                packed.drop_first(),
                0,
            ));
            assert(unpack_stream(Seq::<u8>::empty(), 0) == Seq::<char>::empty());
            assert(unpack_stream(packed, (s.len() % 8) as int) =~= s);
        } else {
            assert(unpack_stream(packed, (s.len() % 8) as int) == bin_str(byte as nat, 8)
                + unpack_stream(packed.drop_first(), (s.len() % 8) as int));
            assert(unpack_stream(packed, (s.len() % 8) as int) =~= s);
        }
    }
}

proof fn lemma_encode_front(e: Seq<(u8, Seq<char>)>, c: Seq<u8>)
    requires
        c.len() > 0,
    ensures
        encode_stream(e, c) == code_of(e, c[0]) + encode_stream(e, c.drop_first()),
    decreases c.len(),
{
    if c.len() == 1 {
        assert(c.drop_last() =~= Seq::<u8>::empty());
        assert(c.drop_first() =~= Seq::<u8>::empty());
        assert(encode_stream(e, Seq::<u8>::empty()) == Seq::<char>::empty());
        assert(encode_stream(e, c) =~= code_of(e, c[0]) + encode_stream(e, c.drop_first()));
    } else {
        lemma_encode_front(e, c.drop_last());
        assert(c.drop_last()[0] == c[0]);
        assert(c.drop_last().drop_first() =~= c.drop_first().drop_last());
        assert(c.drop_first().last() == c.last());
        assert(encode_stream(e, c) == encode_stream(e, c.drop_last()) + code_of(e, c.last()));
        assert(encode_stream(e, c.drop_first()) == encode_stream(e, c.drop_first().drop_last())
            + code_of(e, c.last()));
        assert(encode_stream(e, c) =~= code_of(e, c[0]) + encode_stream(e, c.drop_first()));
    }
}

/// Round-trip core: under a prefix-free book with one non-empty code per
/// distinct byte, the encoded bit stream determines the input: no two
/// inputs share a stream, so decoding the payload of an archive recovers
/// the original byte sequence.
pub proof fn lemma_stream_unique(e: Seq<(u8, Seq<char>)>, c1: Seq<u8>, c2: Seq<u8>)
    requires
        forall|p: int, q: int|
            0 <= p < e.len() && 0 <= q < e.len() && p != q ==> !is_prefix(
                (#[trigger] e[p]).1,
                (#[trigger] e[q]).1,
            ),
        forall|p: int| 0 <= p < e.len() ==> (#[trigger] e[p]).1.len() >= 1,
        forall|i: int| 0 <= i < c1.len() ==> entries_find(e, #[trigger] c1[i]) >= 0,
        forall|i: int| 0 <= i < c2.len() ==> entries_find(e, #[trigger] c2[i]) >= 0,
        encode_stream(e, c1) == encode_stream(e, c2),
    ensures
        c1 == c2,
    decreases c1.len(),
{
    if c1.len() == 0 || c2.len() == 0 {
        if c1.len() > 0 {
            lemma_encode_front(e, c1);
            lemma_entries_find(e, c1[0]);
            assert(code_of(e, c1[0]).len() >= 1);
            assert(encode_stream(e, c1).len() >= 1);
            assert(encode_stream(e, Seq::<u8>::empty()) == Seq::<char>::empty());
            assert(false);
        }
        if c2.len() > 0 {
            lemma_encode_front(e, c2);
            lemma_entries_find(e, c2[0]);
            assert(code_of(e, c2[0]).len() >= 1);
            assert(encode_stream(e, c2).len() >= 1);
            assert(encode_stream(e, Seq::<u8>::empty()) == Seq::<char>::empty());
            assert(false);
        }
        assert(c1 =~= c2);
    } else {
        lemma_encode_front(e, c1);
        lemma_encode_front(e, c2);
        lemma_entries_find(e, c1[0]);
        lemma_entries_find(e, c2[0]);
        let f1 = entries_find(e, c1[0]);
        let f2 = entries_find(e, c2[0]);
        let code1 = e[f1].1;
        let code2 = e[f2].1;
        let s = encode_stream(e, c1);
        assert(s == code1 + encode_stream(e, c1.drop_first()));
        assert(s == code2 + encode_stream(e, c2.drop_first()));
        if code1.len() <= code2.len() {
            assert(code2.take(code1.len() as int) =~= code1) by {
                assert(forall|k: int| 0 <= k < code2.len() ==> code2[k] == s[k]);
                assert(forall|k: int| 0 <= k < code1.len() ==> code1[k] == s[k]);
            };
            assert(is_prefix(code1, code2));
        } else {
            assert(code1.take(code2.len() as int) =~= code2) by {
                assert(forall|k: int| 0 <= k < code2.len() ==> code2[k] == s[k]);
                assert(forall|k: int| 0 <= k < code1.len() ==> code1[k] == s[k]);
            };
            assert(is_prefix(code2, code1));
        }
        assert(f1 == f2);
        assert(c1[0] == c2[0]);
        assert(code1 == code2);
        assert(encode_stream(e, c1.drop_first()) =~= encode_stream(e, c2.drop_first())) by {
            let r1 = encode_stream(e, c1.drop_first());
            let r2 = encode_stream(e, c2.drop_first());
            assert(forall|k: int| 0 <= k < r1.len() ==> r1[k] == s[code1.len() + k]);
            assert(forall|k: int| 0 <= k < r2.len() ==> r2[k] == s[code1.len() + k]);
        };
        assert(forall|i: int|
            0 <= i < c1.drop_first().len() ==> entries_find(e, #[trigger] c1.drop_first()[i])
                >= 0);
        assert(forall|i: int|
            0 <= i < c2.drop_first().len() ==> entries_find(e, #[trigger] c2.drop_first()[i])
                >= 0);
        lemma_stream_unique(e, c1.drop_first(), c2.drop_first());
        assert(forall|k: int|
            1 <= k < c1.len() ==> #[trigger] c1[k] == c1.drop_first()[k - 1]);
        assert(forall|k: int|
            1 <= k < c2.len() ==> #[trigger] c2[k] == c2.drop_first()[k - 1]);
        assert(c1 =~= c2);
    }
}

proof fn lemma_bin_str_binary(v: nat, w: nat)
    ensures
        binary_chars(bin_str(v, w)),
    decreases w,
{
    if w > 0 {
        lemma_bin_str_binary(v / 2, (w - 1) as nat);
    }
}

proof fn lemma_stream_binary(e: Seq<(u8, Seq<char>)>, c: Seq<u8>)
    requires
        forall|p: int| 0 <= p < e.len() ==> binary_chars((#[trigger] e[p]).1),
    ensures
        binary_chars(encode_stream(e, c)),
    decreases c.len(),
{
    if c.len() > 0 {
        lemma_stream_binary(e, c.drop_last());
        lemma_entries_find(e, c.last());
        assert(binary_chars(code_of(e, c.last())));
    }
}

/// Round-trip law: the archive of a non-empty input determines that input.
/// Unpacking the packed payload with the stored leftover count restores the
/// code stream exactly, and no other byte sequence encodes to that stream
/// under the archive's own code book, so decoding reproduces the original.
pub proof fn lemma_round_trip(content: Seq<u8>, other: Seq<u8>)
    requires
        0 < content.len() <= u32::MAX,
        forall|i: int|
            0 <= i < other.len() ==> entries_find(spec_book(content), #[trigger] other[i]) >= 0,
        encode_stream(spec_book(content), other) == spec_stream(content),
    ensures
        other == content,
        unpack_stream(pack_stream(spec_stream(content)), (spec_stream(content).len() % 8) as int)
            == spec_stream(content),
{
    let b = spec_buckets(content);
    let e = spec_book(content);
    lemma_pipeline_buckets(content);
    lemma_canonical_book(b);
    assert forall|p: int| 0 <= p < e.len() implies (#[trigger] e[p]).1.len() >= 1 && binary_chars(
        e[p].1,
    ) by {
        let (bi, j) = lemma_book_decompose(b, b.len() as int, p);
        lemma_bin_str_len((start_val(b, bi) + j) as nat, (bi + 1) as nat);
        lemma_bin_str_binary((start_val(b, bi) + j) as nat, (bi + 1) as nat);
    };
    lemma_stream_binary(e, content);
    lemma_stream_unique(e, other, content);
    lemma_pack_roundtrip(spec_stream(content));
}

/// Compresses a byte sequence into a self-describing archive: the header
/// that encodes the canonical code table, then the bit-packed payload.
/// Every non-empty input compresses; the empty input has no tree and fails.
pub fn compress(content: &[u8]) -> (r: Result<Vec<u8>, &'static str>)
    requires
        content@.len() <= u32::MAX,
    ensures
        r is Ok <==> content@.len() > 0,
        r matches Ok(archive) ==> archive@ == archive_model(content@),
        r matches Err(m) ==> m@ == "Could not build a tree"@,
{
    let hist = histogram(content);
    proof {
        lemma_histogram_sum(content@);
        lemma_sum_weights_leaf_seq(hist_seq(content@));
        lemma_sum_weights_sort_desc(leaf_seq(hist_seq(content@)));
        lemma_tree_weight_is_input_len(content@);
    }
    let mut lvs = leaves(hist);
    let tree = huff_tree(&mut lvs);
    let tree = opt_result(tree, "Could not build a tree")?;
    proof {
        lemma_pipeline_tree_syms(content@);
        lemma_tree_syms_len(tree);
        lemma_hist_len_bound(content@);
        assert(tree == spec_tree(content@));
    }
    let len_book = code_lengths(tree);
    proof {
        lemma_pipeline_buckets(content@);
        assert(len_entries(len_book) =~= spec_lens(content@)) by {
            lemma_tree_depths_range(spec_tree(content@), 0);
            lemma_tree_syms_len(spec_tree(content@));
            assert(forall|j: int|
                0 <= j < len_entries(len_book).len() ==> #[trigger] lens_as_int(
                    len_entries(len_book),
                )[j] == (len_entries(len_book)[j].0, len_entries(len_book)[j].1 as int));
        };
        if has_zero_len(len_entries(len_book)) && len_entries(len_book).len() > 1 {
            let z = choose|i: int|
                0 <= i < spec_lens(content@).len() && (#[trigger] spec_lens(content@)[i]).1 == 0;
            lemma_tree_depths_range(spec_tree(content@), 0);
            let t = spec_tree(content@);
            if t is Node {
                let lt = match t {
                    Tree::Node(l, _, _) => *l,
                    _ => t,
                };
                let rt = match t {
                    Tree::Node(_, r, _) => *r,
                    _ => t,
                };
                lemma_tree_depths_range(lt, 1);
                lemma_tree_depths_range(rt, 1);
                assert(tree_depths(t, 0)[z].1 >= 1);
                assert(spec_lens(content@)[z] == (
                    tree_depths(t, 0)[z].0,
                    tree_depths(t, 0)[z].1 as usize,
                ));
                assert(false);
            } else {
                lemma_tree_depths_syms(t, 0);
                lemma_tree_syms_len(t);
                assert(tree_depths(t, 0).len() == 1);
                assert(false);
            }
        }
    }
    let encode_vector = opt_result(enc_vector(&len_book), "Failed to create a canonical code book");
    let encode_vector = match encode_vector {
        Ok(v) => v,
        Err(_) => {
            proof {
                assert(false);
            }
            return Err("Could not build a tree");
        },
    };
    let book = canonical_book(encode_vector);
    let ghost e = spec_book(content@);
    proof {
        assert(book_entries(book) == e);
    }
    let mut encoding: Vec<u8> = Vec::new();
    let mut cur: u8 = 0;
    let mut nbits: usize = 0;
    let ghost mut done: Seq<char> = Seq::empty();
    let ghost mut tail: Seq<char> = Seq::empty();
    let n = content.len();
    proof {
        assert(done + tail =~= encode_stream(e, content@.take(0)));
        assert(full_bytes(Seq::<char>::empty()) == Seq::<u8>::empty());
        vstd::arithmetic::power2::lemma2_to64();
    }
    for i in 0..n
        invariant
            n == content@.len(),
            e == spec_book(content@),
            e == book_entries(book),
            forall|j: int| 0 <= j < n ==> entries_find(e, #[trigger] content@[j]) >= 0,
            done.len() % 8 == 0,
            tail.len() == nbits,
            nbits < 8,
            cur as nat == char_val(tail),
            encoding@ == full_bytes(done),
            done + tail == encode_stream(e, content@.take(i as int)),
    {
        let b = content[i];
        let code = match book_get(&book, b) {
            Some(c) => c,
            None => {
                proof {
                    assert(false);
                }
                return Err("Could not build a tree");
            },
        };
        proof {
            assert(code@ == code_of(e, b));
            assert(content@.take(i + 1).drop_last() =~= content@.take(i as int));
            assert(content@.take(i + 1).last() == b);
        }
        let chars = str_chars_vec(code.as_str());
        let m = chars.len();
        let ghost cseq = code@;
        for j in 0..m
            invariant
                m == cseq.len(),
                chars@ == cseq,
                done.len() % 8 == 0,
                tail.len() == nbits,
                nbits < 8,
                cur as nat == char_val(tail),
                encoding@ == full_bytes(done),
                done + tail == encode_stream(e, content@.take(i as int)) + cseq.take(j as int),
        {
            let c = chars[j];
            let bit: u8 = if c == '1' {
                1
            } else {
                0
            };
            proof {
                lemma_char_val_bound(tail);
                vstd::arithmetic::power2::lemma2_to64();
                assert(tail.push(c).drop_last() =~= tail);
                assert(char_val(tail.push(c)) == 2 * char_val(tail) + if c == '1' {
                    1int
                } else {
                    0int
                });
            }
            cur = cur * 2 + bit;
            proof {
                tail = tail.push(c);
                assert(c == cseq[j as int]);
                assert(cseq.take(j + 1) =~= cseq.take(j as int).push(c));
                assert(done + tail =~= (encode_stream(e, content@.take(i as int)) + cseq.take(
                    j as int,
                )).push(c));
                assert(done + tail =~= encode_stream(e, content@.take(i as int)) + cseq.take(
                    j + 1,
                ));
            }
            nbits = nbits + 1;
            if nbits == 8 {
                encoding.push(cur);
                proof {
                    lemma_full_bytes_append(done, tail);
                    done = done + tail;
                    tail = Seq::empty();
                    assert(done.len() % 8 == 0) by {
                        let q = (done.len() - 8) as int / 8;
                        vstd::arithmetic::div_mod::lemma_fundamental_div_mod(
                            (done.len() - 8) as int,
                            8,
                        );
                        vstd::arithmetic::div_mod::lemma_fundamental_div_mod_converse(
                            done.len() as int,
                            8,
                            q + 1,
                            0,
                        );
                    };
                    assert(char_val(Seq::<char>::empty()) == 0);
                }
                cur = 0;
                nbits = 0;
            }
        }
        proof {
            assert(cseq.take(m as int) =~= cseq);
            assert(done + tail =~= encode_stream(e, content@.take(i + 1)));
        }
    }
    let ghost stream = spec_stream(content@);
    proof {
        assert(content@.take(n as int) =~= content@);
        assert(done + tail == stream);
        let q = done.len() as int / 8;
        vstd::arithmetic::div_mod::lemma_fundamental_div_mod(done.len() as int, 8);
        vstd::arithmetic::div_mod::lemma_fundamental_div_mod_converse(
            stream.len() as int,
            8,
            q,
            tail.len() as int,
        );
        assert(stream.len() % 8 == nbits);
        lemma_pack_decompose(done, tail);
    }
    let leftover = nbits as u8;
    if nbits != 0 {
        let ghost t0 = tail;
        while nbits < 8
            invariant
                t0.len() > 0,
                t0.len() <= tail.len() == nbits <= 8,
                cur as nat == char_val(tail),
                tail =~= t0 + Seq::new((nbits - t0.len()) as nat, |x: int| '1'),
            decreases 8 - nbits,
        {
            proof {
                lemma_char_val_bound(tail);
                vstd::arithmetic::power2::lemma2_to64();
                assert(tail.push('1').drop_last() =~= tail);
            }
            cur = cur * 2 + 1;
            proof {
                tail = tail.push('1');
                assert(tail =~= t0 + Seq::new((nbits + 1 - t0.len()) as nat, |x: int| '1'));
            }
            nbits = nbits + 1;
        }
        proof {
            assert(tail =~= pad_ones(t0));
            lemma_char_val_bound(tail);
            vstd::arithmetic::power2::lemma2_to64();
        }
        encoding.push(cur);
        proof {
            assert(encoding@ =~= pack_stream(stream));
        }
    } else {
        proof {
            assert(encoding@ =~= pack_stream(stream));
        }
    }
    let mut header = create_header(
        MetaData { leftover, book, code_lenghts: len_book },
    );
    header.append(&mut encoding);
    proof {
        assert(header@ =~= archive_model(content@));
    }
    Ok(header)
}

proof fn lemma_insert_asc_at(s: Seq<u8>, x: u8, p: int)
    requires
        0 <= p <= s.len(),
        forall|j: int| 0 <= j < p ==> s[j] <= x,
        p < s.len() ==> s[p] > x,
    ensures
        insert_asc(s, x) == s.insert(p, x),
    decreases s.len(),
{
    if p == 0 {
        if s.len() == 0 {
            assert(insert_asc(s, x) =~= s.insert(0, x));
        } else {
            assert(seq![x] + s =~= s.insert(0, x));
        }
    } else {
        assert(s[0] <= x);
        assert(forall|j: int| 1 <= j < s.len() ==> s[j] == s.drop_first()[j - 1]);
        lemma_insert_asc_at(s.drop_first(), x, p - 1);
        assert(seq![s[0]] + s.drop_first().insert(p - 1, x) =~= s.insert(p, x));
    }
}

} // verus!
