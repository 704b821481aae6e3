//! Huffman coding of a byte stream: the tree built from symbol frequencies,
//! the code table, the packed bit stream, and the flat `i8` table the decoder
//! walks.
use vstd::prelude::*;
use crate::bits::{bit_of, packs, stream_bit, value_bits, BitWriter};

verus! {

/// A Huffman tree: a branch's first child is taken on a 0 bit, the second on a 1 bit.
#[derive(Debug, PartialEq, Eq)]
pub enum Node {
    Branch((Box<Node>, Box<Node>)),
    Leaf(u8),
}

/// How often `b` occurs in `s`.
pub open spec fn occurrences(s: Seq<u8>, b: u8) -> nat
    decreases s.len(),
{
    if s.len() == 0 {
        0
    } else {
        occurrences(s.drop_last(), b) + if s.last() == b {
            1nat
        } else {
            0nat
        }
    }
}

/// The symbols of a tree's leaves.
pub open spec fn leaf_set(n: Node) -> Set<u8>
    decreases n,
{
    match n {
        Node::Leaf(v) => set![v],
        Node::Branch((a, b)) => leaf_set(*a).union(leaf_set(*b)),
    }
}

/// No symbol sits at two leaves.
pub open spec fn distinct_leaves(n: Node) -> bool
    decreases n,
{
    match n {
        Node::Leaf(_) => true,
        Node::Branch((a, b)) => distinct_leaves(*a) && distinct_leaves(*b) && leaf_set(*a).disjoint(
            leaf_set(*b),
        ),
    }
}

/// The length of the longest path from the root to a leaf.
pub open spec fn height(n: Node) -> nat
    decreases n,
{
    match n {
        Node::Leaf(_) => 0,
        Node::Branch((a, b)) => {
            let ha = height(*a);
            let hb = height(*b);
            1 + if ha < hb {
                hb
            } else {
                ha
            }
        },
    }
}

/// The bits that lead from the root of `n` to the leaf `s` (the first such
/// leaf, 0-side first), if there is one.
pub open spec fn code_of(n: Node, s: u8) -> Option<Seq<bool>>
    decreases n,
{
    match n {
        Node::Leaf(v) => if v == s {
            Some(Seq::empty())
        } else {
            None
        },
        Node::Branch((a, b)) => match code_of(*a, s) {
            Some(p) => Some(seq![false] + p),
            None => match code_of(*b, s) {
                Some(p) => Some(seq![true] + p),
                None => None,
            },
        },
    }
}

pub proof fn lemma_code_of_some(n: Node, s: u8)
    ensures
        code_of(n, s) is Some <==> leaf_set(n).contains(s),
        code_of(n, s) is Some ==> code_of(n, s).unwrap().len() <= height(n),
    decreases n,
{
    match n {
        Node::Leaf(v) => {},
        Node::Branch((a, b)) => {
            lemma_code_of_some(*a, s);
            lemma_code_of_some(*b, s);
        },
    }
}

/// First position of `list` whose count is below `c` (the end if none).
pub open spec fn insert_pos(list: Seq<(Node, usize)>, c: usize) -> int
    decreases list.len(),
{
    if list.len() == 0 {
        0
    } else if list[0].1 < c {
        0
    } else {
        1 + insert_pos(list.drop_first(), c)
    }
}

/// First position of `list` whose count is at most `c` (the end if none).
pub open spec fn merge_pos(list: Seq<(Node, usize)>, c: usize) -> int
    decreases list.len(),
{
    if list.len() == 0 {
        0
    } else if list[0].1 <= c {
        0
    } else {
        1 + merge_pos(list.drop_first(), c)
    }
}

/// The leaves for symbols `0..k` with a nonzero count, ordered by count from
/// highest to lowest, equal counts in symbol order.
pub open spec fn leaf_pairs(counts: Seq<usize>, k: int) -> Seq<(Node, usize)>
    decreases k,
{
    if k <= 0 {
        Seq::empty()
    } else {
        let l = leaf_pairs(counts, k - 1);
        let c = counts[k - 1];
        if c == 0 {
            l
        } else {
            l.insert(insert_pos(l, c), (Node::Leaf((k - 1) as u8), c))
        }
    }
}

/// One merge: the two entries of lowest count become one branch (the second
/// to last entry on the 0 side), placed before every entry whose count is at
/// most their sum.
pub open spec fn merge_step(list: Seq<(Node, usize)>) -> Seq<(Node, usize)> {
    let n = list.len() as int;
    let a = list[n - 2];
    let b = list[n - 1];
    let rest = list.take(n - 2);
    let f = (a.1 + b.1) as usize;
    rest.insert(merge_pos(rest, f), (Node::Branch((Box::new(a.0), Box::new(b.0))), f))
}

/// Merges until at most one entry is left.
pub open spec fn merge_all(list: Seq<(Node, usize)>) -> Seq<(Node, usize)>
    decreases list.len(),
{
    if list.len() <= 1 {
        list
    } else {
        proof {
            let n = list.len() as int;
            lemma_merge_pos_bounds(list.take(n - 2), (list[n - 2].1 + list[n - 1].1) as usize);
        }
        merge_all(merge_step(list))
    }
}

/// The count of each byte value in `s`.
pub open spec fn counts_of(s: Seq<u8>) -> Seq<usize> {
    Seq::new(256, |b: int| occurrences(s, b as u8) as usize)
}

/// The Huffman tree of a non-empty byte stream.
pub open spec fn huffman_tree_of(s: Seq<u8>) -> Node {
    merge_all(leaf_pairs(counts_of(s), 256))[0].0
}

/// Sum of the counts of a list.
pub open spec fn pair_sum(list: Seq<(Node, usize)>) -> nat
    decreases list.len(),
{
    if list.len() == 0 {
        0
    } else {
        pair_sum(list.drop_last()) + list.last().1 as nat
    }
}

/// Sum of the first `k` counts.
pub open spec fn count_sum(counts: Seq<usize>, k: int) -> nat
    decreases k,
{
    if k <= 0 {
        0
    } else {
        count_sum(counts, k - 1) + counts[k - 1] as nat
    }
}

pub proof fn lemma_pair_sum_insert(list: Seq<(Node, usize)>, i: int, x: (Node, usize))
    requires
        0 <= i <= list.len(),
    ensures
        pair_sum(list.insert(i, x)) == pair_sum(list) + x.1,
    decreases list.len(),
{
    if i == list.len() {
        assert(list.insert(i, x).drop_last() =~= list);
    } else {
        assert(list.insert(i, x).drop_last() =~= list.drop_last().insert(i, x));
        lemma_pair_sum_insert(list.drop_last(), i, x);
    }
}

pub proof fn lemma_pair_sum_take2(list: Seq<(Node, usize)>)
    requires
        list.len() >= 2,
    ensures
        pair_sum(list) == pair_sum(list.take(list.len() - 2)) + list[list.len() - 2].1
            + list[list.len() - 1].1,
{
    let d = list.drop_last();
    assert(d.drop_last() =~= list.take(list.len() - 2));
    assert(pair_sum(list) == pair_sum(d) + list.last().1);
    assert(pair_sum(d) == pair_sum(d.drop_last()) + d.last().1);
}

pub proof fn lemma_leaf_pairs_sum(counts: Seq<usize>, k: int)
    requires
        0 <= k <= counts.len(),
    ensures
        pair_sum(leaf_pairs(counts, k)) == count_sum(counts, k),
    decreases k,
{
    if k > 0 {
        lemma_leaf_pairs_sum(counts, k - 1);
        let l = leaf_pairs(counts, k - 1);
        let c = counts[k - 1];
        if c != 0 {
            lemma_insert_pos_bounds(l, c);
            lemma_pair_sum_insert(l, insert_pos(l, c), (Node::Leaf((k - 1) as u8), c));
        }
    }
}

pub proof fn lemma_insert_pos_bounds(list: Seq<(Node, usize)>, c: usize)
    ensures
        0 <= insert_pos(list, c) <= list.len(),
    decreases list.len(),
{
    if list.len() > 0 {
        lemma_insert_pos_bounds(list.drop_first(), c);
    }
}

pub proof fn lemma_merge_pos_bounds(list: Seq<(Node, usize)>, c: usize)
    ensures
        0 <= merge_pos(list, c) <= list.len(),
    decreases list.len(),
{
    if list.len() > 0 {
        lemma_merge_pos_bounds(list.drop_first(), c);
    }
}

/// A forward scan for the first count below `c` finds `insert_pos`.
pub proof fn lemma_insert_pos_is(list: Seq<(Node, usize)>, c: usize, j: int)
    requires
        0 <= j <= list.len(),
        forall|k: int| 0 <= k < j ==> #[trigger] list[k].1 >= c,
        j < list.len() ==> list[j].1 < c,
    ensures
        insert_pos(list, c) == j,
    decreases list.len(),
{
    if j > 0 {
        assert(list[0].1 >= c);
        assert forall|k: int| 0 <= k < j - 1 implies #[trigger] list.drop_first()[k].1 >= c by {
            assert(list[k + 1].1 >= c);
        }
        lemma_insert_pos_is(list.drop_first(), c, j - 1);
    }
}

/// A forward scan for the first count at most `c` finds `merge_pos`.
pub proof fn lemma_merge_pos_is(list: Seq<(Node, usize)>, c: usize, j: int)
    requires
        0 <= j <= list.len(),
        forall|k: int| 0 <= k < j ==> #[trigger] list[k].1 > c,
        j < list.len() ==> list[j].1 <= c,
    ensures
        merge_pos(list, c) == j,
    decreases list.len(),
{
    if j > 0 {
        assert(list[0].1 > c);
        assert forall|k: int| 0 <= k < j - 1 implies #[trigger] list.drop_first()[k].1 > c by {
            assert(list[k + 1].1 > c);
        }
        lemma_merge_pos_is(list.drop_first(), c, j - 1);
    }
}

/// The count of every byte value of `src`.
pub fn symbol_counts(src: &Vec<u8>) -> (counts: Vec<usize>)
    ensures
        counts@ == counts_of(src@),
        count_sum(counts@, 256) == src.len(),
{
    let mut counts: Vec<usize> = Vec::new();
    let mut b: usize = 0;
    while b < 256
        invariant
            b <= 256,
            counts.len() == b,
            forall|k: int| 0 <= k < b ==> counts@[k] == 0,
        decreases 256 - b,
    {
        counts.push(0);
        b = b + 1;
    }
    proof {
        assert forall|k: int| 0 <= k <= 256 implies count_sum(counts@, k) == 0 by {
            lemma_count_sum_zero(counts@, k);
        }
    }
    let mut i: usize = 0;
    while i < src.len()
        invariant
            i <= src.len(),
            counts.len() == 256,
            forall|k: int| 0 <= k < 256 ==> #[trigger] counts@[k] == occurrences(
                src@.take(i as int),
                k as u8,
            ),
            count_sum(counts@, 256) == i,
        decreases src.len() - i,
    {
        let v = src[i];
        proof {
            assert(src@.take(i + 1).drop_last() =~= src@.take(i as int));
            assert(src@.take(i + 1).last() == v);
            lemma_occurrences_le(src@.take(i as int), v);
            assert(src@.take(i as int).len() == i);
        }
        let ghost before = counts@;
        let c = counts[v as usize];
        counts.set(v as usize, c + 1);
        proof {
            lemma_count_sum_update(before, 256, v as int, (c + 1) as usize);
            assert forall|k: int| 0 <= k < 256 implies #[trigger] counts@[k] == occurrences(
                src@.take(i + 1),
                k as u8,
            ) by {
                if k == v as int {
                } else {
                    assert(k as u8 != v);
                }
            }
        }
        i = i + 1;
    }
    proof {
        assert(src@.take(src.len() as int) =~= src@);
        assert(counts@ =~= counts_of(src@));
    }
    counts
}

pub proof fn lemma_occurrences_le(s: Seq<u8>, b: u8)
    ensures
        occurrences(s, b) <= s.len(),
    decreases s.len(),
{
    if s.len() > 0 {
        lemma_occurrences_le(s.drop_last(), b);
    }
}

pub proof fn lemma_count_sum_zero(counts: Seq<usize>, k: int)
    requires
        k <= counts.len(),
        forall|j: int| 0 <= j < counts.len() ==> counts[j] == 0,
    ensures
        count_sum(counts, k) == 0,
    decreases k,
{
    if k > 0 {
        lemma_count_sum_zero(counts, k - 1);
    }
}

pub proof fn lemma_count_sum_update(counts: Seq<usize>, k: int, j: int, x: usize)
    requires
        0 <= j < counts.len(),
        k <= counts.len(),
    ensures
        count_sum(counts.update(j, x), k) == count_sum(counts, k) + (if j < k {
            x - counts[j]
        } else {
            0
        }),
    decreases k,
{
    if k > 0 {
        lemma_count_sum_update(counts, k - 1, j, x);
    }
}

pub proof fn lemma_count_sum_le(counts: Seq<usize>, k: int, j: int)
    requires
        0 <= j < k <= counts.len(),
    ensures
        counts[j] <= count_sum(counts, k),
    decreases k,
{
    if j < k - 1 {
        lemma_count_sum_le(counts, k - 1, j);
    }
}

/// The leaves of the nonzero counts, highest count first, equal counts in
/// symbol order.
pub fn initial_pairs(counts: &Vec<usize>) -> (list: Vec<(Node, usize)>)
    requires
        counts.len() == 256,
    ensures
        list@ == leaf_pairs(counts@, 256),
{
    let mut list: Vec<(Node, usize)> = Vec::new();
    let mut b: usize = 0;
    while b < 256
        invariant
            b <= 256,
            counts.len() == 256,
            list@ == leaf_pairs(counts@, b as int),
        decreases 256 - b,
    {
        let c = counts[b];
        if c != 0 {
            let mut j: usize = 0;
            while j < list.len() && list[j].1 >= c
                invariant
                    j <= list.len(),
                    forall|k: int| 0 <= k < j ==> #[trigger] list@[k].1 >= c,
                decreases list.len() - j,
            {
                j = j + 1;
            }
            proof {
                lemma_insert_pos_is(list@, c, j as int);
            }
            list.insert(j, (Node::Leaf(b as u8), c));
        }
        b = b + 1;
    }
    list
}

/// Merges the two lowest-count entries until one tree is left.  Where the
/// merged entry's count equals others, it goes before all of them (the
/// position a binary search for it may return).
pub fn merge_pairs(list: Vec<(Node, usize)>) -> (res: Vec<(Node, usize)>)
    requires
        pair_sum(list@) <= usize::MAX,
    ensures
        res@ == merge_all(list@),
{
    let mut list = list;
    let ghost orig = list@;
    while list.len() > 1
        invariant
            pair_sum(list@) <= usize::MAX,
            merge_all(list@) == merge_all(orig),
        decreases list.len(),
    {
        let ghost before = list@;
        proof {
            lemma_pair_sum_take2(before);
        }
        let (bn, bc) = list.pop().unwrap();
        let (an, ac) = list.pop().unwrap();
        proof {
            assert(list@ =~= before.take(before.len() - 2));
        }
        let f = ac + bc;
        let mut j: usize = 0;
        while j < list.len() && list[j].1 > f
            invariant
                j <= list.len(),
                forall|k: int| 0 <= k < j ==> #[trigger] list@[k].1 > f,
            decreases list.len() - j,
        {
            j = j + 1;
        }
        proof {
            lemma_merge_pos_is(list@, f, j as int);
            lemma_pair_sum_insert(list@, j as int, (Node::Branch((Box::new(an), Box::new(bn))), f));
        }
        list.insert(j, (Node::Branch((Box::new(an), Box::new(bn))), f));
        proof {
            assert(list@ == merge_step(before));
        }
    }
    list
}

/// The symbols at the leaves of all trees of a list.
pub open spec fn list_union(list: Seq<(Node, usize)>) -> Set<u8> {
    Set::new(|v: u8| exists|i: int| 0 <= i < list.len() && #[trigger] leaf_set(list[i].0).contains(v))
}

/// Every tree of the list has distinct leaves and no symbol sits in two trees.
pub open spec fn forest_ok(list: Seq<(Node, usize)>) -> bool {
    &&& forall|i: int| 0 <= i < list.len() ==> #[trigger] distinct_leaves(list[i].0)
    &&& forall|i: int, j: int|
        0 <= i < list.len() && 0 <= j < list.len() && i != j ==> #[trigger] leaf_set(
            list[i].0,
        ).disjoint(#[trigger] leaf_set(list[j].0))
}

pub proof fn lemma_forest_insert(list: Seq<(Node, usize)>, p: int, x: (Node, usize))
    requires
        0 <= p <= list.len(),
        forest_ok(list),
        distinct_leaves(x.0),
        leaf_set(x.0).disjoint(list_union(list)),
    ensures
        forest_ok(list.insert(p, x)),
        list_union(list.insert(p, x)) == list_union(list).union(leaf_set(x.0)),
{
    let l2 = list.insert(p, x);
    assert forall|i: int| 0 <= i < l2.len() implies #[trigger] distinct_leaves(l2[i].0) by {
        if i < p {
            assert(l2[i] == list[i]);
            assert(distinct_leaves(list[i].0));
        } else if i > p {
            assert(l2[i] == list[i - 1]);
            assert(distinct_leaves(list[i - 1].0));
        } else {
            assert(l2[i] == x);
        }
    }
    assert forall|i: int, j: int|
        0 <= i < l2.len() && 0 <= j < l2.len() && i != j implies #[trigger] leaf_set(
            l2[i].0,
        ).disjoint(#[trigger] leaf_set(l2[j].0)) by {
        let ii = if i < p {
            i
        } else {
            i - 1
        };
        let jj = if j < p {
            j
        } else {
            j - 1
        };
        if i == p {
            assert forall|v: u8| leaf_set(l2[j].0).contains(v) implies !leaf_set(x.0).contains(v) by {
                assert(leaf_set(list[jj].0).contains(v));
                assert(list_union(list).contains(v));
            }
        } else if j == p {
            assert forall|v: u8| leaf_set(l2[i].0).contains(v) implies !leaf_set(x.0).contains(v) by {
                assert(leaf_set(list[ii].0).contains(v));
                assert(list_union(list).contains(v));
            }
        } else {
            assert(l2[i] == list[ii]);
            assert(l2[j] == list[jj]);
        }
    }
    assert forall|v: u8| list_union(l2).contains(v) <==> list_union(list).union(leaf_set(x.0)).contains(v) by {
        if list_union(l2).contains(v) {
            let i = choose|i: int| 0 <= i < l2.len() && #[trigger] leaf_set(l2[i].0).contains(v);
            if i < p {
                assert(leaf_set(list[i].0).contains(v));
            } else if i > p {
                assert(leaf_set(list[i - 1].0).contains(v));
            }
        }
        if list_union(list).contains(v) {
            let i = choose|i: int| 0 <= i < list.len() && #[trigger] leaf_set(list[i].0).contains(v);
            if i < p {
                assert(leaf_set(l2[i].0).contains(v));
            } else {
                assert(leaf_set(l2[i + 1].0).contains(v));
            }
        }
        if leaf_set(x.0).contains(v) {
            assert(leaf_set(l2[p].0).contains(v));
        }
    }
    assert(list_union(l2) =~= list_union(list).union(leaf_set(x.0)));
}

pub proof fn lemma_forest_merge(list: Seq<(Node, usize)>)
    requires
        list.len() >= 2,
        forest_ok(list),
    ensures
        forest_ok(merge_step(list)),
        list_union(merge_step(list)) == list_union(list),
        merge_step(list).len() == list.len() - 1,
{
    let n = list.len() as int;
    let a = list[n - 2];
    let b = list[n - 1];
    let rest = list.take(n - 2);
    let f = (a.1 + b.1) as usize;
    let x = (Node::Branch((Box::new(a.0), Box::new(b.0))), f);
    assert(leaf_set(a.0).disjoint(leaf_set(b.0)));
    assert(distinct_leaves(a.0));
    assert(distinct_leaves(b.0));
    assert(distinct_leaves(x.0));
    assert(forest_ok(rest)) by {
        assert forall|i: int| 0 <= i < rest.len() implies #[trigger] distinct_leaves(rest[i].0) by {
            assert(rest[i] == list[i]);
            assert(distinct_leaves(list[i].0));
        }
        assert forall|i: int, j: int|
            0 <= i < rest.len() && 0 <= j < rest.len() && i != j implies #[trigger] leaf_set(
                rest[i].0,
            ).disjoint(#[trigger] leaf_set(rest[j].0)) by {
            assert(rest[i] == list[i]);
            assert(rest[j] == list[j]);
            assert(leaf_set(list[i].0).disjoint(leaf_set(list[j].0)));
        }
    }
    assert forall|v: u8| leaf_set(x.0).contains(v) implies !list_union(rest).contains(v) by {
        if list_union(rest).contains(v) {
            let i = choose|i: int| 0 <= i < rest.len() && #[trigger] leaf_set(rest[i].0).contains(v);
            assert(leaf_set(list[i].0).contains(v));
            if leaf_set(a.0).contains(v) {
                assert(leaf_set(list[i].0).disjoint(leaf_set(list[n - 2].0)));
            } else {
                assert(leaf_set(list[i].0).disjoint(leaf_set(list[n - 1].0)));
            }
        }
    }
    lemma_merge_pos_bounds(rest, f);
    lemma_forest_insert(rest, merge_pos(rest, f), x);
    assert forall|v: u8| list_union(list).contains(v) <==> list_union(rest).union(leaf_set(x.0)).contains(v) by {
        if list_union(list).contains(v) {
            let i = choose|i: int| 0 <= i < list.len() && #[trigger] leaf_set(list[i].0).contains(v);
            if i < n - 2 {
                assert(leaf_set(rest[i].0).contains(v));
            }
        }
        if list_union(rest).contains(v) {
            let i = choose|i: int| 0 <= i < rest.len() && #[trigger] leaf_set(rest[i].0).contains(v);
            assert(leaf_set(list[i].0).contains(v));
        }
        if leaf_set(a.0).contains(v) {
            assert(leaf_set(list[n - 2].0).contains(v));
        }
        if leaf_set(b.0).contains(v) {
            assert(leaf_set(list[n - 1].0).contains(v));
        }
    }
    assert(list_union(list) =~= list_union(rest).union(leaf_set(x.0)));
}

pub proof fn lemma_forest_merge_all(list: Seq<(Node, usize)>)
    requires
        list.len() >= 1,
        forest_ok(list),
    ensures
        merge_all(list).len() == 1,
        forest_ok(merge_all(list)),
        list_union(merge_all(list)) == list_union(list),
    decreases list.len(),
{
    if list.len() > 1 {
        lemma_forest_merge(list);
        lemma_forest_merge_all(merge_step(list));
    }
}

/// The symbols below `k` with a nonzero count.
pub open spec fn present_below(counts: Seq<usize>, k: int) -> Set<u8> {
    Set::new(|v: u8| v < k && counts[v as int] != 0)
}

pub proof fn lemma_leaf_pairs_forest(counts: Seq<usize>, k: int)
    requires
        0 <= k <= 256,
        counts.len() == 256,
    ensures
        forest_ok(leaf_pairs(counts, k)),
        list_union(leaf_pairs(counts, k)) == present_below(counts, k),
        leaf_pairs(counts, k).len() == 0 ==> count_sum(counts, k) == 0,
    decreases k,
{
    if k > 0 {
        lemma_leaf_pairs_forest(counts, k - 1);
        let l = leaf_pairs(counts, k - 1);
        let c = counts[k - 1];
        if c == 0 {
            assert(present_below(counts, k) =~= present_below(counts, k - 1));
        } else {
            let x = (Node::Leaf((k - 1) as u8), c);
            assert(leaf_set(x.0) == set![(k - 1) as u8]);
            assert forall|v: u8| leaf_set(x.0).contains(v) implies !list_union(l).contains(v) by {
                assert(v == (k - 1) as u8);
            }
            lemma_insert_pos_bounds(l, c);
            lemma_forest_insert(l, insert_pos(l, c), x);
            assert(present_below(counts, k) =~= present_below(counts, k - 1).union(set![(k - 1) as u8]));
        }
    } else {
        assert(present_below(counts, k) =~= Set::<u8>::empty());
        assert(list_union(leaf_pairs(counts, k)) =~= Set::<u8>::empty());
    }
}

/// The symbols that occur in `s`.
pub open spec fn symbols_of(s: Seq<u8>) -> Set<u8> {
    Set::new(|v: u8| occurrences(s, v) > 0)
}

/// The Huffman tree of a non-empty stream has exactly the stream's symbols at
/// its leaves, each once.
pub proof fn lemma_huffman_tree_leaves(s: Seq<u8>)
    requires
        s.len() > 0,
        s.len() <= usize::MAX,
        count_sum(counts_of(s), 256) == s.len(),
    ensures
        merge_all(leaf_pairs(counts_of(s), 256)).len() == 1,
        distinct_leaves(huffman_tree_of(s)),
        leaf_set(huffman_tree_of(s)) == symbols_of(s),
{
    let counts = counts_of(s);
    lemma_leaf_pairs_forest(counts, 256);
    let l = leaf_pairs(counts, 256);
    lemma_forest_merge_all(l);
    let m = merge_all(l);
    assert(distinct_leaves(m[0].0));
    assert forall|v: u8| leaf_set(m[0].0).contains(v) <==> symbols_of(s).contains(v) by {
        if leaf_set(m[0].0).contains(v) {
            assert(list_union(m).contains(v));
        }
        if symbols_of(s).contains(v) {
            lemma_occurrences_le(s, v);
            assert(counts[v as int] == occurrences(s, v) as usize);
            assert(present_below(counts, 256).contains(v));
            assert(list_union(m).contains(v));
            let i = choose|i: int| 0 <= i < m.len() && #[trigger] leaf_set(m[i].0).contains(v);
        }
    }
    assert(leaf_set(m[0].0) =~= symbols_of(s));
}

/// The Huffman tree of `src`: symbols counted, leaves ordered by count, the
/// two lowest repeatedly merged.
pub fn huffman_tree(src: &Vec<u8>) -> (t: Node)
    requires
        src.len() > 0,
    ensures
        t == huffman_tree_of(src@),
        distinct_leaves(t),
        leaf_set(t) == symbols_of(src@),
{
    let counts = symbol_counts(src);
    let list = initial_pairs(&counts);
    proof {
        lemma_leaf_pairs_sum(counts@, 256);
        lemma_huffman_tree_leaves(src@);
    }
    let mut merged = merge_pairs(list);
    let (t, _) = merged.pop().unwrap();
    t
}

/// A code-table entry matches a path: the path's bits as a number (nothing above
/// them) and the path length; no entry for no path.
pub open spec fn code_entry_ok(e: Option<(u64, u64)>, p: Option<Seq<bool>>) -> bool {
    match (e, p) {
        (None, None) => true,
        (Some((c, d)), Some(q)) => d == q.len() && value_bits(c, d as nat) == q && (d < 64 ==> c
            >> d == 0),
        _ => false,
    }
}

pub proof fn lemma_code_push(code: u64, d: u64)
    requires
        d < 64,
        code >> d == 0,
    ensures
        value_bits(code | (1u64 << d), (d + 1) as nat) == value_bits(code, d as nat).push(true),
        value_bits(code, (d + 1) as nat) == value_bits(code, d as nat).push(false),
        d + 1 < 64 ==> (code | (1u64 << d)) >> ((d + 1) as u64) == 0,
        d + 1 < 64 ==> code >> ((d + 1) as u64) == 0,
{
    let c1 = code | (1u64 << d);
    assert forall|t: u64| t < 64 implies #[trigger] bit_of(c1, t) == (if t == d {
        true
    } else {
        bit_of(code, t)
    }) by {
        assert(((((code | (1u64 << d)) >> t) & 1) == 1) == (if t == d {
            true
        } else {
            ((code >> t) & 1) == 1
        })) by (bit_vector)
            requires
                d < 64,
                t < 64,
        ;
    }
    assert(!bit_of(code, d)) by {
        assert(((code >> d) & 1 == 1) == false) by (bit_vector)
            requires
                code >> d == 0,
        ;
    }
    assert(value_bits(c1, (d + 1) as nat) =~= value_bits(code, d as nat).push(true));
    assert(value_bits(code, (d + 1) as nat) =~= value_bits(code, d as nat).push(false));
    if d + 1 < 64 {
        let d1 = (d + 1) as u64;
        assert((code | (1u64 << d)) >> d1 == 0) by (bit_vector)
            requires
                code >> d == 0,
                d1 == d + 1,
                d1 < 64,
        ;
        assert(code >> d1 == 0) by (bit_vector)
            requires
                code >> d == 0,
                d1 == d + 1,
                d1 < 64,
        ;
    }
}

/// A code-table entry holds the path `prefix ++ q` (a path of `depth` bits
/// given by `code`, then `q`).
pub open spec fn entry_extends(e: Option<(u64, u64)>, code: u64, depth: u64, q: Seq<bool>) -> bool {
    &&& e is Some
    &&& e.unwrap().1 == depth + q.len()
    &&& value_bits(e.unwrap().0, e.unwrap().1 as nat) == value_bits(code, depth as nat) + q
    &&& e.unwrap().1 < 64 ==> e.unwrap().0 >> e.unwrap().1 == 0
}

fn fill_codes(node: &Node, code: u64, depth: u64, table: &mut Vec<Option<(u64, u64)>>)
    requires
        old(table).len() == 256,
        depth + height(*node) <= 64,
        depth < 64 ==> code >> depth == 0,
        distinct_leaves(*node),
    ensures
        final(table).len() == 256,
        forall|b: int|
            0 <= b < 256 && !leaf_set(*node).contains(b as u8) ==> #[trigger] final(table)@[b]
                == old(table)@[b],
        forall|b: int|
            0 <= b < 256 && leaf_set(*node).contains(b as u8) ==> entry_extends(
                #[trigger] final(table)@[b],
                code,
                depth,
                code_of(*node, b as u8).unwrap(),
            ),
    decreases node,
{
    match node {
        Node::Leaf(v) => {
            let ghost t0 = table@;
            table.set(*v as usize, Some((code, depth)));
            proof {
                assert(value_bits(code, depth as nat) + Seq::<bool>::empty() =~= value_bits(
                    code,
                    depth as nat,
                ));
                assert forall|b: int|
                    0 <= b < 256 && leaf_set(*node).contains(b as u8) implies entry_extends(
                    #[trigger] table@[b],
                    code,
                    depth,
                    code_of(*node, b as u8).unwrap(),
                ) by {
                    assert(b as u8 == *v);
                    assert(b == *v as int);
                }
                assert forall|b: int|
                    0 <= b < 256 && !leaf_set(*node).contains(b as u8) implies #[trigger] table@[b]
                    == t0[b] by {
                    assert(b != *v as int);
                }
            }
        },
        Node::Branch((a, b)) => {
            proof {
                lemma_code_push(code, depth);
            }
            let ghost t0 = table@;
            fill_codes(a, code, depth + 1, table);
            let ghost t1 = table@;
            fill_codes(b, code | (1u64 << depth), depth + 1, table);
            proof {
                let an: Node = **a;
                let bn: Node = **b;
                assert forall|k: int|
                    0 <= k < 256 && !leaf_set(*node).contains(k as u8) implies #[trigger] table@[k]
                    == t0[k] by {
                    assert(t1[k] == t0[k]);
                }
                assert forall|k: int|
                    0 <= k < 256 && leaf_set(*node).contains(k as u8) implies entry_extends(
                    #[trigger] table@[k],
                    code,
                    depth,
                    code_of(*node, k as u8).unwrap(),
                ) by {
                    let v = k as u8;
                    lemma_code_of_some(an, v);
                    lemma_code_of_some(bn, v);
                    if leaf_set(an).contains(v) {
                        assert(!leaf_set(bn).contains(v));
                        assert(table@[k] == t1[k]);
                        let q = code_of(an, v).unwrap();
                        assert(code_of(*node, v).unwrap() == seq![false] + q);
                        assert(value_bits(code, depth as nat) + (seq![false] + q) =~= value_bits(
                            code,
                            depth as nat,
                        ).push(false) + q);
                    } else {
                        let q = code_of(bn, v).unwrap();
                        assert(code_of(*node, v).unwrap() == seq![true] + q);
                        assert(value_bits(code, depth as nat) + (seq![true] + q) =~= value_bits(
                            code,
                            depth as nat,
                        ).push(true) + q);
                    }
                }
            }
        },
    }
}

/// The code table of a tree: for each byte value, the bits leading to its leaf
/// (bit `i` taken at depth `i`) and their count.
pub fn huffman_codes(t: &Node) -> (codes: Vec<Option<(u64, u64)>>)
    requires
        distinct_leaves(*t),
        height(*t) <= 64,
    ensures
        codes.len() == 256,
        forall|b: int| 0 <= b < 256 ==> #[trigger] code_entry_ok(codes@[b], code_of(*t, b as u8)),
{
    let mut codes: Vec<Option<(u64, u64)>> = Vec::new();
    let mut i: usize = 0;
    while i < 256
        invariant
            i <= 256,
            codes.len() == i,
            forall|k: int| 0 <= k < i ==> codes@[k] is None,
        decreases 256 - i,
    {
        codes.push(None);
        i = i + 1;
    }
    proof {
        assert(0u64 >> 0u64 == 0) by (bit_vector);
    }
    fill_codes(t, 0, 0, &mut codes);
    proof {
        assert forall|b: int| 0 <= b < 256 implies #[trigger] code_entry_ok(
            codes@[b],
            code_of(*t, b as u8),
        ) by {
            lemma_code_of_some(*t, b as u8);
            assert(value_bits(0, 0) =~= Seq::<bool>::empty());
            if leaf_set(*t).contains(b as u8) {
                assert(entry_extends(codes@[b], 0, 0, code_of(*t, b as u8).unwrap()));
                assert(Seq::<bool>::empty() + code_of(*t, b as u8).unwrap() =~= code_of(
                    *t,
                    b as u8,
                ).unwrap());
            }
        }
    }
    codes
}

/// The height of a tree.
pub fn huffman_height(t: &Node) -> (h: u64)
    requires
        height(*t) <= u64::MAX,
    ensures
        h == height(*t),
    decreases t,
{
    match t {
        Node::Leaf(_) => 0,
        Node::Branch((a, b)) => {
            let ha = huffman_height(a);
            let hb = huffman_height(b);
            if ha < hb {
                1 + hb
            } else {
                1 + ha
            }
        },
    }
}

/// The bits of `s` coded with a code table, one code after another.
pub open spec fn code_bits(codes: Seq<Option<(u64, u64)>>, s: Seq<u8>) -> Seq<bool>
    decreases s.len(),
{
    if s.len() == 0 {
        Seq::empty()
    } else {
        code_bits(codes, s.drop_last()) + match codes[s.last() as int] {
            Some((c, d)) => value_bits(c, d as nat),
            None => Seq::empty(),
        }
    }
}

/// Every symbol of `s` has a code, and no code overruns the 64-bit
/// accumulator: the bits pending from earlier codes plus the code stay below 64.
pub open spec fn codes_fit(codes: Seq<Option<(u64, u64)>>, s: Seq<u8>) -> bool {
    forall|k: int| 0 <= k < s.len() ==> #[trigger] fits_at(codes, s, k)
}

/// The symbol at `k` has a code that fits beside the bits pending before it.
pub open spec fn fits_at(codes: Seq<Option<(u64, u64)>>, s: Seq<u8>, k: int) -> bool {
    let e = codes[s[k] as int];
    &&& e is Some
    &&& (code_bits(codes, s.take(k)).len() % 8) + e.unwrap().1 < 64
}

/// No entry has bits above its length.
pub open spec fn codes_wf(codes: Seq<Option<(u64, u64)>>) -> bool {
    &&& codes.len() == 256
    &&& forall|b: int|
        0 <= b < 256 && (#[trigger] codes[b]) is Some && codes[b].unwrap().1 < 64 ==> codes[b].unwrap().0
            >> codes[b].unwrap().1 == 0
}

/// Whether coding `src` with `codes` stays within the 64-bit accumulator,
/// the condition under which the coder runs.
pub fn huffman_fits(src: &Vec<u8>, codes: &Vec<Option<(u64, u64)>>) -> (ok: bool)
    requires
        codes.len() == 256,
    ensures
        ok == codes_fit(codes@, src@),
{
    let mut pending: u64 = 0;
    let mut i: usize = 0;
    while i < src.len()
        invariant
            i <= src.len(),
            codes.len() == 256,
            pending < 8,
            pending as int == code_bits(codes@, src@.take(i as int)).len() % 8,
            forall|k: int| 0 <= k < i ==> #[trigger] fits_at(codes@, src@, k),
        decreases src.len() - i,
    {
        let ghost k = i as int;
        match codes[src[i] as usize] {
            None => {
                assert(!fits_at(codes@, src@, k));
                return false;
            },
            Some((c, d)) => {
                if d >= 64 - pending {
                    assert(!fits_at(codes@, src@, k));
                    return false;
                }
                proof {
                    let pre = src@.take(k);
                    let pre1 = src@.take(k + 1);
                    assert(pre1.drop_last() =~= pre);
                    assert(pre1.last() == src@[k]);
                    assert(code_bits(codes@, pre1) == code_bits(codes@, pre) + value_bits(
                        c,
                        d as nat,
                    ));
                    let a = code_bits(codes@, pre).len();
                    assert((a + d) % 8 == ((a % 8) + d) % 8) by (nonlinear_arith);
                    assert(fits_at(codes@, src@, k));
                }
                pending = (pending + d) % 8;
            },
        }
        i = i + 1;
    }
    proof {
        assert(src@.take(src.len() as int) =~= src@);
    }
    true
}

/// Huffman-codes `src`: each symbol's code, least significant bit first,
/// packed into bytes; also returns the number of code bits.
pub fn huffman_pack(src: &Vec<u8>, codes: &Vec<Option<(u64, u64)>>) -> (r: (Vec<u8>, usize))
    requires
        codes_wf(codes@),
        codes_fit(codes@, src@),
        code_bits(codes@, src@).len() <= usize::MAX,
    ensures
        packs(r.0@, code_bits(codes@, src@)),
        r.1 == code_bits(codes@, src@).len(),
{
    let mut w = BitWriter::new();
    let mut total: usize = 0;
    let mut i: usize = 0;
    while i < src.len()
        invariant
            i <= src.len(),
            codes_wf(codes@),
            codes_fit(codes@, src@),
            code_bits(codes@, src@).len() <= usize::MAX,
            w.wf(),
            w.bits() == code_bits(codes@, src@.take(i as int)),
            total == w.bits().len(),
        decreases src.len() - i,
    {
        let ghost k = i as int;
        let sym = src[i];
        let e = codes[sym as usize];
        assert(fits_at(codes@, src@, k));
        let (c, d) = e.unwrap();
        proof {
            let pre = src@.take(k);
            let pre1 = src@.take(k + 1);
            assert(pre1.drop_last() =~= pre);
            assert(pre1.last() == sym);
            assert(src@[k] == sym);
            assert(codes@[sym as int] == e);
            assert(fits_at(codes@, src@, k));
            assert(code_bits(codes@, pre1) == code_bits(codes@, pre) + value_bits(c, d as nat));
            lemma_code_bits_prefix(codes@, src@, k + 1);
            assert(c >> d == 0);
        }
        let _ = w.pending_bits();
        w.push_bits(c, d);
        total = total + d as usize;
        i = i + 1;
    }
    proof {
        assert(src@.take(src.len() as int) =~= src@);
    }
    (w.finish(), total)
}

pub proof fn lemma_code_bits_prefix(codes: Seq<Option<(u64, u64)>>, s: Seq<u8>, k: int)
    requires
        0 <= k <= s.len(),
    ensures
        code_bits(codes, s.take(k)).len() <= code_bits(codes, s).len(),
    decreases s.len() - k,
{
    if k < s.len() {
        lemma_code_bits_prefix(codes, s, k + 1);
        assert(s.take(k + 1).drop_last() =~= s.take(k));
    } else {
        assert(s.take(k) =~= s);
    }
}

/// How a leaf is written in the flat table: its symbol read as an `i8`, negated
/// (so 1..=127 become -1..=-127 and 129..=255 become 127..=1).
pub open spec fn leaf_entry(v: u8) -> i8 {
    if v <= 127 {
        (-(v as int)) as i8
    } else {
        (256 - v) as i8
    }
}

/// The flat table entries a tree takes: two per branch.
pub open spec fn tree_size(n: Node) -> nat
    decreases n,
{
    match n {
        Node::Leaf(_) => 0,
        Node::Branch((a, b)) => 2 + tree_size(*a) + tree_size(*b),
    }
}

/// Lays `n` out into `table`.  A branch reserves two slots at the end of the
/// table for its children (0 side first) and, if it has a slot of its own,
/// writes there where its children start; its 1-side subtree is laid out
/// before its 0-side subtree.  A leaf writes its negated symbol into its slot.
pub open spec fn layout(n: Node, slot: int, table: Seq<i8>) -> Seq<i8>
    decreases n,
{
    match n {
        Node::Leaf(v) => if 0 <= slot < table.len() {
            table.update(slot, leaf_entry(v))
        } else {
            table
        },
        Node::Branch((a, b)) => {
            let t1 = if 0 <= slot < table.len() {
                table.update(slot, table.len() as i8)
            } else {
                table
            };
            let base = t1.len() as int;
            let t2 = t1 + seq![0i8, 0i8];
            layout(*a, base, layout(*b, base + 1, t2))
        },
    }
}

/// The flat table of a tree whose root is a branch: entries `0` and `1` are
/// the root's children; a non-negative entry is where a branch's children
/// start, a negative one a leaf's negated symbol.
pub open spec fn tree_table(t: Node) -> Seq<i8> {
    layout(t, -1, Seq::empty())
}

fn lay_out(node: &Node, slot: usize, table: &mut Vec<i8>)
    requires
        slot < old(table).len(),
        old(table).len() + tree_size(*node) <= usize::MAX,
        !leaf_set(*node).contains(128u8),
    ensures
        final(table)@ == layout(*node, slot as int, old(table)@),
    decreases node,
{
    match node {
        Node::Leaf(v) => {
            assert(leaf_set(*node).contains(*v));
            let e: i8 = if *v <= 127 {
                -(*v as i8)
            } else {
                (256 - (*v as i16)) as i8
            };
            assert(e == leaf_entry(*v));
            table.set(slot, e);
        },
        Node::Branch((a, b)) => {
            let len = table.len();
            table.set(slot, len as i8);
            let ghost t1 = table@;
            table.push(0);
            table.push(0);
            let ghost t2 = table@;
            assert(t2 =~= t1 + seq![0i8, 0i8]);
            lay_out(b, len + 1, table);
            proof {
                lemma_layout_len(**b, (len + 1) as int, t2);
            }
            lay_out(a, len, table);
        },
    }
}

/// The flat table the decoder walks, for a tree whose root is a branch and
/// that has no leaf for the byte 128 (whose negation does not fit an `i8`).
pub fn huffman_table(t: &Node) -> (table: Vec<i8>)
    requires
        t is Branch,
        tree_size(*t) <= usize::MAX,
        !leaf_set(*t).contains(128u8),
    ensures
        table@ == tree_table(*t),
{
    let mut table: Vec<i8> = Vec::new();
    match t {
        Node::Leaf(_) => {},
        Node::Branch((a, b)) => {
            table.push(0);
            table.push(0);
            proof {
                assert(Seq::<i8>::empty() + seq![0i8, 0i8] =~= table@);
            }
            let ghost t2 = table@;
            lay_out(b, 1, &mut table);
            proof {
                lemma_layout_len(**b, 1, t2);
            }
            lay_out(a, 0, &mut table);
        },
    }
    table
}

pub proof fn lemma_layout_len(n: Node, slot: int, table: Seq<i8>)
    ensures
        layout(n, slot, table).len() == table.len() + tree_size(n),
    decreases n,
{
    match n {
        Node::Leaf(_) => {},
        Node::Branch((a, b)) => {
            let t1 = if 0 <= slot < table.len() {
                table.update(slot, table.len() as i8)
            } else {
                table
            };
            let base = t1.len() as int;
            let t2 = t1 + seq![0i8, 0i8];
            lemma_layout_len(*b, base + 1, t2);
            lemma_layout_len(*a, base, layout(*b, base + 1, t2));
        },
    }
}

/// A table entry describes a child: a leaf's negated symbol, or for a branch
/// a non-negative start of its children.
pub open spec fn child_ok(e: i8, c: Node) -> bool {
    match c {
        Node::Leaf(v) => e == leaf_entry(v),
        Node::Branch(_) => e >= 0,
    }
}

/// The children of branch `n` start at `base` of `t`, and so on down, each
/// subtree within its own stretch of the table.
pub open spec fn laid_out(t: Seq<i8>, n: Node, base: int) -> bool
    decreases n,
{
    match n {
        Node::Leaf(_) => true,
        Node::Branch((a, b)) => {
            &&& 0 <= base
            &&& base + tree_size(n) <= t.len()
            &&& child_ok(t[base], *a)
            &&& child_ok(t[base + 1], *b)
            &&& (*a is Branch ==> base + 2 <= t[base] && t[base] + tree_size(*a) <= base
                + tree_size(n) && laid_out(t, *a, t[base] as int))
            &&& (*b is Branch ==> base + 2 <= t[base + 1] && t[base + 1] + tree_size(*b) <= base
                + tree_size(n) && laid_out(t, *b, t[base + 1] as int))
        },
    }
}

pub proof fn lemma_laid_out_frame(t: Seq<i8>, t2: Seq<i8>, n: Node, base: int)
    requires
        laid_out(t, n, base),
        n is Branch ==> base + tree_size(n) <= t2.len(),
        forall|k: int| base <= k < base + tree_size(n) ==> #[trigger] t2[k] == t[k],
    ensures
        laid_out(t2, n, base),
    decreases n,
{
    match n {
        Node::Leaf(_) => {},
        Node::Branch((a, b)) => {
            assert(t2[base] == t[base]);
            assert(t2[base + 1] == t[base + 1]);
            if *a is Branch {
                lemma_laid_out_frame(t, t2, *a, t[base] as int);
            }
            if *b is Branch {
                lemma_laid_out_frame(t, t2, *b, t[base + 1] as int);
            }
        },
    }
}

pub proof fn lemma_layout(n: Node, slot: int, table: Seq<i8>)
    requires
        -1 <= slot < table.len(),
        table.len() + tree_size(n) <= 128,
    ensures
        layout(n, slot, table).len() == table.len() + tree_size(n),
        forall|k: int|
            0 <= k < table.len() && k != slot ==> #[trigger] layout(n, slot, table)[k] == table[k],
        0 <= slot ==> child_ok(layout(n, slot, table)[slot], n),
        0 <= slot && n is Branch ==> layout(n, slot, table)[slot] == table.len(),
        n is Branch ==> laid_out(layout(n, slot, table), n, table.len() as int),
    decreases n,
{
    match n {
        Node::Leaf(v) => {},
        Node::Branch((a, b)) => {
            let len = table.len() as int;
            let t1 = if 0 <= slot < table.len() {
                table.update(slot, table.len() as i8)
            } else {
                table
            };
            let t2 = t1 + seq![0i8, 0i8];
            lemma_layout(*b, len + 1, t2);
            let t3 = layout(*b, len + 1, t2);
            lemma_layout(*a, len, t3);
            let r = layout(*a, len, t3);
            assert(r == layout(n, slot, table));
            assert(r[len + 1] == t3[len + 1]);
            if *b is Branch {
                assert forall|k: int| len + 2 <= k < len + 2 + tree_size(*b) implies #[trigger] r[k]
                    == t3[k] by {}
                lemma_laid_out_frame(t3, r, *b, len + 2);
            }
            assert forall|k: int| 0 <= k < table.len() && k != slot implies #[trigger] r[k]
                == table[k] by {
                assert(r[k] == t3[k]);
                assert(t3[k] == t2[k]);
            }
            if 0 <= slot {
                assert(r[slot] == t3[slot]);
                assert(t3[slot] == t2[slot]);
                assert((len as i8) as int == len);
            }
        },
    }
}

/// The decoder's walk of the flat table: from the entry pair at `idx`, each
/// bit of the stream picks the first (0) or second (1) entry of the pair; a
/// negative entry ends the walk with its negation, a non-negative one moves to
/// that pair.  `None` when the bits run out or an entry lies outside the table.
pub open spec fn huff_walk(table: Seq<i8>, blob: Seq<u8>, bit: int, idx: int) -> Option<(u8, int)>
    decreases 8 * blob.len() - bit,
{
    if bit < 0 || bit >= 8 * blob.len() {
        None
    } else {
        let i = idx + if stream_bit(blob, bit) {
            1int
        } else {
            0int
        };
        if i < 0 || i >= table.len() {
            None
        } else {
            let h = table[i];
            if h < 0 {
                if h == -128 {
                    None
                } else {
                    Some(((-h) as u8, bit + 1))
                }
            } else {
                huff_walk(table, blob, bit + 1, h as int)
            }
        }
    }
}

/// Decodes one symbol from the stream at `bit` by walking the flat table.
pub fn decode_symbol(table: &Vec<i8>, blob: &Vec<u8>, bit: usize) -> (r: Option<(u8, usize)>)
    requires
        blob.len() <= usize::MAX / 8,
    ensures
        match r {
            Some((v, b)) => huff_walk(table@, blob@, bit as int, 0) == Some((v, b as int)),
            None => huff_walk(table@, blob@, bit as int, 0) is None,
        },
{
    let mut idx: usize = 0;
    let mut pos: usize = bit;
    loop
        invariant
            idx <= 127,
            blob.len() <= usize::MAX / 8,
            huff_walk(table@, blob@, pos as int, idx as int) == huff_walk(
                table@,
                blob@,
                bit as int,
                0,
            ),
        decreases 8 * blob.len() - pos,
    {
        if pos / 8 >= blob.len() {
            return None;
        }
        let byte = blob[pos / 8] as u64;
        let one = (byte >> ((pos % 8) as u64)) & 1 == 1;
        let i = if one {
            idx + 1
        } else {
            idx
        };
        if i >= table.len() {
            return None;
        }
        let h = table[i];
        if h < 0 {
            if h == -128 {
                return None;
            }
            return Some(((-h) as u8, pos + 1));
        }
        idx = h as usize;
        pos = pos + 1;
    }
}

/// Walking the laid-out table along a leaf's code ends at that leaf, after
/// exactly the code's bits.
pub proof fn lemma_walk_code(t: Seq<i8>, n: Node, base: int, s: u8, blob: Seq<u8>, bit: int)
    requires
        n is Branch,
        laid_out(t, n, base),
        code_of(n, s) is Some,
        forall|v: u8| leaf_set(n).contains(v) ==> 1 <= v <= 127,
        0 <= bit,
        bit + code_of(n, s).unwrap().len() <= 8 * blob.len(),
        forall|j: int|
            0 <= j < code_of(n, s).unwrap().len() ==> #[trigger] stream_bit(blob, bit + j)
                == code_of(n, s).unwrap()[j],
    ensures
        huff_walk(t, blob, bit, base) == Some((s, bit + code_of(n, s).unwrap().len())),
    decreases n,
{
    match n {
        Node::Leaf(_) => {},
        Node::Branch((a, b)) => {
            let p = code_of(n, s).unwrap();
            assert(stream_bit(blob, bit + 0) == p[0]);
            let (c, q) = if code_of(*a, s) is Some {
                (*a, code_of(*a, s).unwrap())
            } else {
                (*b, code_of(*b, s).unwrap())
            };
            assert(p == seq![p[0]] + q);
            let i = base + if p[0] {
                1int
            } else {
                0int
            };
            assert(p[0] == (code_of(*a, s) is None));
            match c {
                Node::Leaf(v) => {
                    assert(v == s);
                    assert(q.len() == 0);
                    assert(leaf_set(c).contains(v));
                    assert(leaf_set(n) == leaf_set(*a).union(leaf_set(*b)));
                    assert(leaf_set(n).contains(v));
                    assert(t[i] == leaf_entry(v));
                    assert(t[i] < 0 && t[i] != -128 && (-t[i]) as u8 == v) by {
                        let vv = v;
                        assert(1 <= vv <= 127);
                    }
                },
                Node::Branch(_) => {
                    assert(leaf_set(n) == leaf_set(*a).union(leaf_set(*b)));
                    assert forall|v: u8| leaf_set(c).contains(v) implies 1 <= v <= 127 by {
                        assert(leaf_set(n).contains(v));
                    }
                    let b1 = bit + 1;
                    assert forall|j: int| 0 <= j < q.len() implies #[trigger] stream_bit(blob, b1 + j)
                        == q[j] by {
                        assert(stream_bit(blob, bit + (j + 1)) == p[j + 1]);
                    }
                    lemma_walk_code(t, c, t[i] as int, s, blob, b1);
                },
            }
        },
    }
}

pub proof fn lemma_tree_bits_push(t: Node, s: Seq<u8>, k: int)
    requires
        0 <= k < s.len(),
    ensures
        tree_bits(t, s.take(k + 1)) == tree_bits(t, s.take(k)) + match code_of(t, s[k]) {
            Some(q) => q,
            None => Seq::empty(),
        },
{
    assert(s.take(k + 1).drop_last() =~= s.take(k));
}

pub proof fn lemma_tree_bits_is_prefix(t: Node, s: Seq<u8>, k: int)
    requires
        0 <= k <= s.len(),
    ensures
        tree_bits(t, s.take(k)).len() <= tree_bits(t, s).len(),
        forall|i: int|
            0 <= i < tree_bits(t, s.take(k)).len() ==> #[trigger] tree_bits(t, s.take(k))[i]
                == tree_bits(t, s)[i],
    decreases s.len() - k,
{
    if k < s.len() {
        lemma_tree_bits_is_prefix(t, s, k + 1);
        lemma_tree_bits_push(t, s, k);
        assert forall|i: int| 0 <= i < tree_bits(t, s.take(k)).len() implies #[trigger] tree_bits(
            t,
            s.take(k),
        )[i] == tree_bits(t, s)[i] by {
            assert(tree_bits(t, s.take(k))[i] == tree_bits(t, s.take(k + 1))[i]);
        }
    } else {
        assert(s.take(k) =~= s);
    }
}

/// Huffman round trip: when `blob` packs `src` coded by the paths of a tree
/// that holds every symbol of `src` (symbols 1..=127, table of at most 128
/// entries), walking the tree's flat table from where the `k`-th code starts
/// yields `src[k]` and stops where the next code starts.
pub proof fn lemma_huffman_roundtrip(
    t: Node,
    src: Seq<u8>,
    blob: Seq<u8>,
    k: int,
)
    requires
        t is Branch,
        distinct_leaves(t),
        tree_size(t) <= 128,
        forall|v: u8| leaf_set(t).contains(v) ==> 1 <= v <= 127,
        forall|j: int| 0 <= j < src.len() ==> #[trigger] leaf_set(t).contains(src[j]),
        packs(blob, tree_bits(t, src)),
        0 <= k < src.len(),
    ensures
        huff_walk(tree_table(t), blob, tree_bits(t, src.take(k)).len() as int, 0) == Some(
            (src[k], tree_bits(t, src.take(k + 1)).len() as int),
        ),
{
    let table = tree_table(t);
    lemma_layout(t, -1, Seq::empty());
    let v = src[k];
    lemma_code_of_some(t, v);
    assert(leaf_set(t).contains(v));
    let p = code_of(t, v).unwrap();
    let start = tree_bits(t, src.take(k)).len() as int;
    lemma_tree_bits_push(t, src, k);
    lemma_tree_bits_is_prefix(t, src, k + 1);
    let pre1 = tree_bits(t, src.take(k + 1));
    assert(pre1 == tree_bits(t, src.take(k)) + p);
    let bits = tree_bits(t, src);
    assert forall|j: int| 0 <= j < p.len() implies #[trigger] stream_bit(blob, start + j) == p[j] by {
        assert(pre1[start + j] == p[j]);
        assert(bits[start + j] == pre1[start + j]);
        assert(start + j < 8 * blob.len());
    }
    lemma_walk_code(table, t, 0, v, blob, start);
}

/// The bits of `s` coded by the paths of tree `t`, one path after another.
pub open spec fn tree_bits(t: Node, s: Seq<u8>) -> Seq<bool>
    decreases s.len(),
{
    if s.len() == 0 {
        Seq::empty()
    } else {
        tree_bits(t, s.drop_last()) + match code_of(t, s.last()) {
            Some(q) => q,
            None => Seq::empty(),
        }
    }
}

/// Every symbol of `s` has a path in `t`, and each path fits beside the bits
/// pending before it in the 64-bit accumulator.
pub open spec fn tree_fits(t: Node, s: Seq<u8>) -> bool {
    forall|k: int|
        0 <= k < s.len() ==> #[trigger] code_of(t, s[k]) is Some && (tree_bits(t, s.take(k)).len()
            % 8) + code_of(t, s[k]).unwrap().len() < 64
}

/// The inputs on which the Huffman coder runs to the end: a stream with at
/// least two symbols (a branch at the root), no byte 128 (whose negation does
/// not fit the table), paths of at most 64 bits that fit the accumulator, and
/// sizes that fit a `usize`.
pub open spec fn huffman_encodable(s: Seq<u8>) -> bool {
    let t = huffman_tree_of(s);
    &&& s.len() > 0
    &&& t is Branch
    &&& height(t) <= 64
    &&& !symbols_of(s).contains(128u8)
    &&& tree_size(t) <= usize::MAX
    &&& tree_fits(t, s)
    &&& tree_bits(t, s).len() <= usize::MAX
}

/// A code table that matches a tree codes every stream as the tree's paths do.
pub proof fn lemma_code_bits_tree(codes: Seq<Option<(u64, u64)>>, t: Node, s: Seq<u8>)
    requires
        codes.len() == 256,
        forall|b: int| 0 <= b < 256 ==> #[trigger] code_entry_ok(codes[b], code_of(t, b as u8)),
    ensures
        code_bits(codes, s) == tree_bits(t, s),
    decreases s.len(),
{
    if s.len() > 0 {
        lemma_code_bits_tree(codes, t, s.drop_last());
        assert(code_entry_ok(codes[s.last() as int], code_of(t, s.last() as int as u8)));
    }
}

/// A code table that matches a tree fits a stream exactly when the tree does.
pub proof fn lemma_codes_fit_tree(codes: Seq<Option<(u64, u64)>>, t: Node, s: Seq<u8>)
    requires
        codes.len() == 256,
        forall|b: int| 0 <= b < 256 ==> #[trigger] code_entry_ok(codes[b], code_of(t, b as u8)),
    ensures
        codes_fit(codes, s) <==> tree_fits(t, s),
{
    assert forall|k: int|
        #![trigger fits_at(codes, s, k)]
        #![trigger code_of(t, s[k])]
        0 <= k < s.len() implies fits_at(codes, s, k) <==> (code_of(t, s[k]) is Some && (tree_bits(
            t,
            s.take(k),
        ).len() % 8) + code_of(t, s[k]).unwrap().len() < 64) by {
        lemma_code_bits_tree(codes, t, s.take(k));
        assert(code_entry_ok(codes[s[k] as int], code_of(t, s[k] as int as u8)));
    }
}

/// Whether the height of `t` is at most `limit`.
fn height_within(t: &Node, limit: u64) -> (r: bool)
    ensures
        r == (height(*t) <= limit),
    decreases t,
{
    match t {
        Node::Leaf(_) => true,
        Node::Branch((a, b)) => limit > 0 && height_within(a, limit - 1) && height_within(
            b,
            limit - 1,
        ),
    }
}

/// The table size of `t` when it is at most `limit`.
pub(crate) fn size_within(t: &Node, limit: usize) -> (r: Option<usize>)
    ensures
        match r {
            Some(n) => n == tree_size(*t) && n <= limit,
            None => tree_size(*t) > limit,
        },
    decreases t,
{
    match t {
        Node::Leaf(_) => Some(0),
        Node::Branch((a, b)) => {
            if limit < 2 {
                return None;
            }
            match size_within(a, limit - 2) {
                None => None,
                Some(na) => match size_within(b, limit - 2 - na) {
                    None => None,
                    Some(nb) => Some(2 + na + nb),
                },
            }
        },
    }
}

/// Whether the Huffman coder runs to the end on `src` (see `huffman_encodable`).
pub fn can_huffman_encode(src: &Vec<u8>) -> (ok: bool)
    ensures
        ok == huffman_encodable(src@),
{
    if src.len() == 0 {
        return false;
    }
    let t = huffman_tree(src);
    if let Node::Leaf(_) = t {
        return false;
    }
    if !height_within(&t, 64) {
        return false;
    }
    let mut i: usize = 0;
    while i < src.len()
        invariant
            i <= src.len(),
            forall|j: int| 0 <= j < i ==> src@[j] != 128u8,
        decreases src.len() - i,
    {
        if src[i] == 128 {
            proof {
                crate::roundtrip::lemma_occurrences_pos(src@, i as int);
            }
            return false;
        }
        i = i + 1;
    }
    proof {
        crate::roundtrip::lemma_occurrences_absent(src@, 128u8);
    }
    if size_within(&t, usize::MAX).is_none() {
        return false;
    }
    let codes = huffman_codes(&t);
    proof {
        lemma_code_bits_tree(codes@, t, src@);
        lemma_codes_fit_tree(codes@, t, src@);
    }
    if !huffman_fits(src, &codes) {
        return false;
    }
    let mut total: usize = 0;
    let mut k: usize = 0;
    while k < src.len()
        invariant
            k <= src.len(),
            codes.len() == 256,
            codes_fit(codes@, src@),
            total == code_bits(codes@, src@.take(k as int)).len(),
            code_bits(codes@, src@) == tree_bits(t, src@),
            t == huffman_tree_of(src@),
        decreases src.len() - k,
    {
        let ghost kk = k as int;
        assert(fits_at(codes@, src@, kk));
        let (c, d) = codes[src[k] as usize].unwrap();
        proof {
            let pre1 = src@.take(kk + 1);
            assert(pre1.drop_last() =~= src@.take(kk));
            assert(pre1.last() == src@[kk]);
            assert(code_bits(codes@, pre1) == code_bits(codes@, src@.take(kk)) + value_bits(
                c,
                d as nat,
            ));
            lemma_code_bits_prefix(codes@, src@, kk + 1);
        }
        if d as u128 > (usize::MAX - total) as u128 {
            return false;
        }
        total = total + d as usize;
        k = k + 1;
    }
    proof {
        assert(src@.take(src.len() as int) =~= src@);
    }
    true
}

/// What the Huffman coder makes of a stream: its tree, the flat table of the
/// tree, the packed code and the number of code bits.
pub struct HuffmanOutput {
    pub tree: Node,
    pub table: Vec<i8>,
    pub packed: Vec<u8>,
    pub bits: usize,
}

/// Huffman-codes `src`: builds the tree of its symbol counts, lays the tree out
/// as the decoder's flat table, and packs each symbol's path, least
/// significant bit first.
pub fn huffman_encode(src: &Vec<u8>) -> (out: HuffmanOutput)
    requires
        huffman_encodable(src@),
    ensures
        out.tree == huffman_tree_of(src@),
        out.table@ == tree_table(out.tree),
        packs(out.packed@, tree_bits(out.tree, src@)),
        out.bits == tree_bits(out.tree, src@).len(),
{
    let t = huffman_tree(src);
    let codes = huffman_codes(&t);
    proof {
        lemma_code_bits_tree(codes@, t, src@);
        lemma_codes_fit_tree(codes@, t, src@);
        assert(codes_wf(codes@)) by {
            assert forall|b: int|
                0 <= b < 256 && (#[trigger] codes@[b]) is Some && codes@[b].unwrap().1
                    < 64 implies codes@[b].unwrap().0 >> codes@[b].unwrap().1 == 0 by {
                assert(code_entry_ok(codes@[b], code_of(t, b as u8)));
            }
        }
        assert(!leaf_set(t).contains(128u8));
    }
    let table = huffman_table(&t);
    let (packed, bits) = huffman_pack(src, &codes);
    HuffmanOutput { tree: t, table, packed, bits }
}

/// The number of leaves of a tree.
pub open spec fn leaf_count(n: Node) -> nat
    decreases n,
{
    match n {
        Node::Leaf(_) => 1,
        Node::Branch((a, b)) => leaf_count(*a) + leaf_count(*b),
    }
}

/// A tree's shape against its leaves: as many distinct symbols as leaves, a
/// height below the leaf count, and two table entries per branch.
pub proof fn lemma_tree_shape(n: Node)
    requires
        distinct_leaves(n),
    ensures
        leaf_set(n).finite(),
        leaf_set(n).len() == leaf_count(n),
        leaf_count(n) >= 1,
        height(n) < leaf_count(n),
        tree_size(n) == 2 * (leaf_count(n) - 1),
        n is Leaf <==> leaf_count(n) == 1,
    decreases n,
{
    match n {
        Node::Leaf(v) => {
            assert(leaf_set(n) =~= Set::empty().insert(v));
        },
        Node::Branch((a, b)) => {
            lemma_tree_shape(*a);
            lemma_tree_shape(*b);
            vstd::set_lib::lemma_set_disjoint_lens(leaf_set(*a), leaf_set(*b));
        },
    }
}

pub proof fn lemma_tree_bits_len(t: Node, s: Seq<u8>)
    ensures
        tree_bits(t, s).len() <= height(t) * s.len(),
    decreases s.len(),
{
    if s.len() > 0 {
        lemma_tree_bits_len(t, s.drop_last());
        lemma_code_of_some(t, s.last());
        assert(height(t) * (s.len() - 1) + height(t) == height(t) * s.len()) by (nonlinear_arith);
    }
}

/// The Fibonacci numbers.
pub open spec fn fib(n: nat) -> nat
    decreases n,
{
    if n == 0 {
        0
    } else if n == 1 {
        1
    } else {
        fib((n - 1) as nat) + fib((n - 2) as nat)
    }
}

pub proof fn lemma_fib_mono(a: nat, b: nat)
    requires
        a <= b,
    ensures
        fib(a) <= fib(b),
    decreases b - a,
{
    if a < b {
        lemma_fib_mono(a, (b - 1) as nat);
        if b >= 2 {
            assert(fib(b) == fib((b - 1) as nat) + fib((b - 2) as nat));
        }
    }
}

pub proof fn lemma_fib_48()
    ensures
        fib(48) == 4807526976,
{
    assert(fib(2) == fib(1) + fib(0));
    assert(fib(3) == fib(2) + fib(1));
    assert(fib(4) == fib(3) + fib(2));
    assert(fib(5) == fib(4) + fib(3));
    assert(fib(6) == fib(5) + fib(4));
    assert(fib(7) == fib(6) + fib(5));
    assert(fib(8) == fib(7) + fib(6));
    assert(fib(9) == fib(8) + fib(7));
    assert(fib(10) == fib(9) + fib(8));
    assert(fib(11) == fib(10) + fib(9));
    assert(fib(12) == fib(11) + fib(10));
    assert(fib(13) == fib(12) + fib(11));
    assert(fib(14) == fib(13) + fib(12));
    assert(fib(15) == fib(14) + fib(13));
    assert(fib(16) == fib(15) + fib(14));
    assert(fib(17) == fib(16) + fib(15));
    assert(fib(18) == fib(17) + fib(16));
    assert(fib(19) == fib(18) + fib(17));
    assert(fib(20) == fib(19) + fib(18));
    assert(fib(21) == fib(20) + fib(19));
    assert(fib(22) == fib(21) + fib(20));
    assert(fib(23) == fib(22) + fib(21));
    assert(fib(24) == fib(23) + fib(22));
    assert(fib(25) == fib(24) + fib(23));
    assert(fib(26) == fib(25) + fib(24));
    assert(fib(27) == fib(26) + fib(25));
    assert(fib(28) == fib(27) + fib(26));
    assert(fib(29) == fib(28) + fib(27));
    assert(fib(30) == fib(29) + fib(28));
    assert(fib(31) == fib(30) + fib(29));
    assert(fib(32) == fib(31) + fib(30));
    assert(fib(33) == fib(32) + fib(31));
    assert(fib(34) == fib(33) + fib(32));
    assert(fib(35) == fib(34) + fib(33));
    assert(fib(36) == fib(35) + fib(34));
    assert(fib(37) == fib(36) + fib(35));
    assert(fib(38) == fib(37) + fib(36));
    assert(fib(39) == fib(38) + fib(37));
    assert(fib(40) == fib(39) + fib(38));
    assert(fib(41) == fib(40) + fib(39));
    assert(fib(42) == fib(41) + fib(40));
    assert(fib(43) == fib(42) + fib(41));
    assert(fib(44) == fib(43) + fib(42));
    assert(fib(45) == fib(44) + fib(43));
    assert(fib(46) == fib(45) + fib(44));
    assert(fib(47) == fib(46) + fib(45));
    assert(fib(48) == fib(47) + fib(46));
}

/// A list of weighted trees as the merging keeps it: counts from highest to
/// lowest, every tree at least as heavy as the Fibonacci number two past its
/// height, and every tree at least as heavy as the Fibonacci number one past
/// the height of any tree of the list.
pub open spec fn weights_ok(l: Seq<(Node, usize)>) -> bool {
    &&& forall|i: int, j: int| 0 <= i < j < l.len() ==> #[trigger] l[i].1 >= #[trigger] l[j].1
    &&& forall|i: int| 0 <= i < l.len() ==> #[trigger] l[i].1 >= fib(height(l[i].0) + 2)
    &&& forall|i: int, j: int|
        0 <= i < l.len() && 0 <= j < l.len() ==> #[trigger] l[j].1 >= fib(
            height(#[trigger] l[i].0) + 1,
        )
}

pub proof fn lemma_merge_pos_props(list: Seq<(Node, usize)>, c: usize)
    ensures
        0 <= merge_pos(list, c) <= list.len(),
        forall|k: int| 0 <= k < merge_pos(list, c) ==> #[trigger] list[k].1 > c,
        merge_pos(list, c) < list.len() ==> list[merge_pos(list, c)].1 <= c,
    decreases list.len(),
{
    if list.len() > 0 && list[0].1 > c {
        lemma_merge_pos_props(list.drop_first(), c);
        assert forall|k: int| 0 <= k < merge_pos(list, c) implies #[trigger] list[k].1 > c by {
            if k > 0 {
                assert(list[k] == list.drop_first()[k - 1]);
            }
        }
    }
}

pub proof fn lemma_insert_pos_props(list: Seq<(Node, usize)>, c: usize)
    ensures
        0 <= insert_pos(list, c) <= list.len(),
        forall|k: int| 0 <= k < insert_pos(list, c) ==> #[trigger] list[k].1 >= c,
        insert_pos(list, c) < list.len() ==> list[insert_pos(list, c)].1 < c,
    decreases list.len(),
{
    if list.len() > 0 && list[0].1 >= c {
        lemma_insert_pos_props(list.drop_first(), c);
        assert forall|k: int| 0 <= k < insert_pos(list, c) implies #[trigger] list[k].1 >= c by {
            if k > 0 {
                assert(list[k] == list.drop_first()[k - 1]);
            }
        }
    }
}

/// The leaf list: leaves of nonzero count, counts from highest to lowest.
pub proof fn lemma_leaf_pairs_weights(counts: Seq<usize>, k: int)
    requires
        0 <= k <= counts.len(),
    ensures
        weights_ok(leaf_pairs(counts, k)),
        forall|i: int|
            0 <= i < leaf_pairs(counts, k).len() ==> (#[trigger] leaf_pairs(counts, k)[i]).0 is Leaf
                && leaf_pairs(counts, k)[i].1 >= 1,
    decreases k,
{
    if k > 0 {
        lemma_leaf_pairs_weights(counts, k - 1);
        let l = leaf_pairs(counts, k - 1);
        let c = counts[k - 1];
        if c != 0 {
            let p = insert_pos(l, c);
            lemma_insert_pos_props(l, c);
            let x = (Node::Leaf((k - 1) as u8), c);
            let l2 = l.insert(p, x);
            assert(leaf_pairs(counts, k) == l2);
            assert forall|i: int| 0 <= i < l2.len() implies (#[trigger] l2[i]).0 is Leaf && l2[i].1
                >= 1 by {
                if i < p {
                    assert(l2[i] == l[i]);
                } else if i > p {
                    assert(l2[i] == l[i - 1]);
                }
            }
            assert forall|i: int, j: int| 0 <= i < j < l2.len() implies #[trigger] l2[i].1
                >= #[trigger] l2[j].1 by {
                if j < p {
                    assert(l2[i] == l[i] && l2[j] == l[j]);
                } else if j == p {
                    assert(l2[i] == l[i]);
                } else if i > p {
                    assert(l2[i] == l[i - 1] && l2[j] == l[j - 1]);
                } else if i == p {
                    assert(l2[j] == l[j - 1]);
                    assert(l[p].1 < c);
                    if j - 1 > p {
                        assert(l[p].1 >= l[j - 1].1);
                    }
                } else {
                    assert(l2[i] == l[i] && l2[j] == l[j - 1]);
                }
            }
            assert forall|i: int| 0 <= i < l2.len() implies #[trigger] l2[i].1 >= fib(
                height(l2[i].0) + 2,
            ) by {
                assert(l2[i].0 is Leaf);
                assert(fib(2) == fib(1) + fib(0));
            }
            assert forall|i: int, j: int|
                0 <= i < l2.len() && 0 <= j < l2.len() implies #[trigger] l2[j].1 >= fib(
                height(#[trigger] l2[i].0) + 1,
            ) by {
                assert(l2[i].0 is Leaf);
                assert(l2[j].1 >= 1);
            }
        }
    }
}

/// One merge keeps every tree at least as heavy as the Fibonacci number one
/// past the height of any tree of the list.
#[verifier::spinoff_prover]
proof fn lemma_merge_step_pairs(l: Seq<(Node, usize)>)
    requires
        l.len() >= 2,
        weights_ok(l),
        pair_sum(l) <= usize::MAX,
    ensures
        ({
            let l2 = merge_step(l);
            forall|i: int, j: int|
                0 <= i < l2.len() && 0 <= j < l2.len() ==> #[trigger] l2[j].1 >= fib(
                    height(#[trigger] l2[i].0) + 1,
                )
        }),
{
    let n = l.len() as int;
    let a = l[n - 2];
    let b = l[n - 1];
    let rest = l.take(n - 2);
    lemma_pair_sum_take2(l);
    let f = (a.1 + b.1) as usize;
    assert(f == a.1 + b.1);
    let z = (Node::Branch((Box::new(a.0), Box::new(b.0))), f);
    let p = merge_pos(rest, f);
    lemma_merge_pos_props(rest, f);
    let l2 = rest.insert(p, z);
    assert(merge_step(l) == l2);
    lemma_pair_sum_insert(rest, p, z);
    let ha = height(a.0);
    let hb = height(b.0);
    let hz = height(z.0);
    assert(a.1 >= b.1);
    assert(a.1 >= fib(ha + 2));
    assert(b.1 >= fib(hb + 2));
    assert(b.1 >= fib(ha + 1) && a.1 >= fib(hb + 1)) by {
        assert(l[n - 1].1 >= fib(height(l[n - 2].0) + 1));
        assert(l[n - 2].1 >= fib(height(l[n - 1].0) + 1));
    }
    assert(f >= fib(hz + 2)) by {
        if ha >= hb {
            assert(hz == ha + 1);
            assert(fib(ha + 3) == fib(ha + 2) + fib(ha + 1));
        } else {
            assert(hz == hb + 1);
            assert(fib(hb + 3) == fib(hb + 2) + fib(hb + 1));
        }
    }
    lemma_fib_mono(hz + 1, hz + 2);
    // every entry left of the merged pair weighs at least as much as either of them
    assert forall|k: int| 0 <= k < rest.len() implies #[trigger] rest[k].1 >= a.1 && rest[k].1
        >= fib(hz + 1) by {
        assert(rest[k] == l[k]);
        assert(l[k].1 >= l[n - 2].1);
        if ha >= hb {
            lemma_fib_mono(ha + 2, ha + 2);
        } else {
            lemma_fib_mono(hb + 2, hb + 2);
        }
    }
    assert forall|k: int| p <= k < rest.len() implies #[trigger] rest[k].1 <= f by {
        if k > p {
            assert(rest[p] == l[p] && rest[k] == l[k]);
            assert(l[p].1 >= l[k].1);
        }
    }
    assert forall|i: int, j: int|
        0 <= i < l2.len() && 0 <= j < l2.len() implies #[trigger] l2[j].1 >= fib(
        height(#[trigger] l2[i].0) + 1,
    ) by {
        let ei = if i < p {
            l[i]
        } else if i > p {
            l[i - 1]
        } else {
            z
        };
        let ej = if j < p {
            l[j]
        } else if j > p {
            l[j - 1]
        } else {
            z
        };
        if i < p {
            assert(l2[i] == rest[i] && rest[i] == l[i]);
        } else if i > p {
            assert(l2[i] == rest[i - 1] && rest[i - 1] == l[i - 1]);
        }
        if j < p {
            assert(l2[j] == rest[j] && rest[j] == l[j]);
        } else if j > p {
            assert(l2[j] == rest[j - 1] && rest[j - 1] == l[j - 1]);
        }
        assert(l2[i] == ei && l2[j] == ej);
        if i != p && j != p {
            let oi = if i < p {
                i
            } else {
                i - 1
            };
            let oj = if j < p {
                j
            } else {
                j - 1
            };
            assert(l[oj].1 >= fib(height(l[oi].0) + 1));
        } else if i != p {
            let oi = if i < p {
                i
            } else {
                i - 1
            };
            assert(l[n - 2].1 >= fib(height(l[oi].0) + 1));
        } else if j != p {
            let oj = if j < p {
                j
            } else {
                j - 1
            };
            assert(rest[oj].1 >= fib(hz + 1));
        }
    }
}

/// One merge keeps the counts from highest to lowest.
#[verifier::spinoff_prover]
proof fn lemma_merge_step_sorted(l: Seq<(Node, usize)>)
    requires
        l.len() >= 2,
        weights_ok(l),
        pair_sum(l) <= usize::MAX,
    ensures
        ({
            let l2 = merge_step(l);
            forall|i: int, j: int| 0 <= i < j < l2.len() ==> #[trigger] l2[i].1 >= #[trigger] l2[j].1
        }),
{
    let n = l.len() as int;
    let a = l[n - 2];
    let b = l[n - 1];
    let rest = l.take(n - 2);
    lemma_pair_sum_take2(l);
    let f = (a.1 + b.1) as usize;
    let z = (Node::Branch((Box::new(a.0), Box::new(b.0))), f);
    let p = merge_pos(rest, f);
    lemma_merge_pos_props(rest, f);
    let l2 = rest.insert(p, z);
    assert(merge_step(l) == l2);
    assert forall|k: int| p <= k < rest.len() implies #[trigger] rest[k].1 <= f by {
        if k > p {
            assert(rest[p] == l[p] && rest[k] == l[k]);
            assert(l[p].1 >= l[k].1);
        }
    }
    assert forall|i: int, j: int| 0 <= i < j < l2.len() implies #[trigger] l2[i].1
        >= #[trigger] l2[j].1 by {
        if j < p {
            assert(l2[i] == rest[i] && l2[j] == rest[j]);
            assert(rest[i] == l[i] && rest[j] == l[j]);
        } else if j == p {
            assert(l2[i] == rest[i]);
        } else if i > p {
            assert(l2[i] == rest[i - 1] && l2[j] == rest[j - 1]);
            assert(rest[i - 1] == l[i - 1] && rest[j - 1] == l[j - 1]);
        } else if i == p {
            assert(l2[j] == rest[j - 1]);
        } else {
            assert(l2[i] == rest[i] && l2[j] == rest[j - 1]);
        }
    }
}

/// One merge keeps the weights in order.
#[verifier::spinoff_prover]
pub proof fn lemma_merge_step_weights(l: Seq<(Node, usize)>)
    requires
        l.len() >= 2,
        weights_ok(l),
        pair_sum(l) <= usize::MAX,
    ensures
        weights_ok(merge_step(l)),
        pair_sum(merge_step(l)) == pair_sum(l),
{
    let n = l.len() as int;
    let a = l[n - 2];
    let b = l[n - 1];
    let rest = l.take(n - 2);
    lemma_pair_sum_take2(l);
    let f = (a.1 + b.1) as usize;
    assert(f == a.1 + b.1);
    let z = (Node::Branch((Box::new(a.0), Box::new(b.0))), f);
    let p = merge_pos(rest, f);
    lemma_merge_pos_props(rest, f);
    let l2 = rest.insert(p, z);
    assert(merge_step(l) == l2);
    lemma_pair_sum_insert(rest, p, z);
    let ha = height(a.0);
    let hb = height(b.0);
    let hz = height(z.0);
    assert(a.1 >= b.1);
    assert(a.1 >= fib(ha + 2));
    assert(b.1 >= fib(hb + 2));
    assert(b.1 >= fib(ha + 1) && a.1 >= fib(hb + 1)) by {
        assert(l[n - 1].1 >= fib(height(l[n - 2].0) + 1));
        assert(l[n - 2].1 >= fib(height(l[n - 1].0) + 1));
    }
    assert(f >= fib(hz + 2)) by {
        if ha >= hb {
            assert(hz == ha + 1);
            assert(fib(ha + 3) == fib(ha + 2) + fib(ha + 1));
        } else {
            assert(hz == hb + 1);
            assert(fib(hb + 3) == fib(hb + 2) + fib(hb + 1));
        }
    }
    assert forall|i: int| 0 <= i < l2.len() implies #[trigger] l2[i].1 >= fib(height(l2[i].0) + 2) by {
        if i < p {
            assert(l2[i] == rest[i] && rest[i] == l[i]);
        } else if i > p {
            assert(l2[i] == rest[i - 1] && rest[i - 1] == l[i - 1]);
        }
    }
    lemma_merge_step_pairs(l);
    lemma_merge_step_sorted(l);
}

/// Merging to the end keeps the weights in order and the total count.
pub proof fn lemma_merge_all_weights(l: Seq<(Node, usize)>)
    requires
        l.len() >= 1,
        weights_ok(l),
        pair_sum(l) <= usize::MAX,
    ensures
        merge_all(l).len() == 1,
        merge_all(l)[0].1 == pair_sum(l),
        merge_all(l)[0].1 >= fib(height(merge_all(l)[0].0) + 2),
    decreases l.len(),
{
    if l.len() > 1 {
        lemma_merge_step_weights(l);
        let n = l.len() as int;
        lemma_merge_pos_bounds(l.take(n - 2), (l[n - 2].1 + l[n - 1].1) as usize);
        lemma_merge_all_weights(merge_step(l));
    } else {
        assert(l.drop_last() =~= Seq::<(Node, usize)>::empty());
        assert(pair_sum(l.drop_last()) == 0);
        assert(pair_sum(l) == l[0].1);
    }
}

/// A Huffman tree is no taller than the Fibonacci numbers allow: the stream's
/// length is at least the Fibonacci number two past the tree's height, so a
/// stream shorter than 2^32 has a tree of height at most 45.
pub proof fn lemma_huffman_height_bound(s: Seq<u8>)
    requires
        s.len() > 0,
        s.len() <= usize::MAX,
    ensures
        s.len() >= fib(height(huffman_tree_of(s)) + 2),
        s.len() < 0x1_0000_0000 ==> height(huffman_tree_of(s)) <= 45,
{
    crate::roundtrip::lemma_counts_of_sum(s);
    lemma_huffman_tree_leaves(s);
    let counts = counts_of(s);
    lemma_leaf_pairs_sum(counts, 256);
    lemma_leaf_pairs_weights(counts, 256);
    let l = leaf_pairs(counts, 256);
    assert(l.len() >= 1);
    lemma_merge_all_weights(l);
    let h = height(huffman_tree_of(s));
    if s.len() < 0x1_0000_0000 && h > 45 {
        lemma_fib_48();
        lemma_fib_mono(48, h + 2);
    }
}

/// Streams the Huffman coder takes whole: each byte in 1..=127, a length
/// whose 64-fold fits a `usize`, and 2 to 64 distinct symbols, with at most 57
/// of them unless the stream is shorter than 2^32 bytes.
pub open spec fn huffman_class(s: Seq<u8>) -> bool {
    &&& s.len() > 0
    &&& 64 * s.len() <= usize::MAX
    &&& forall|i: int| 0 <= i < s.len() ==> 1 <= #[trigger] s[i] <= 127
    &&& 2 <= symbols_of(s).len()
    &&& (symbols_of(s).len() <= 57 || (symbols_of(s).len() <= 64 && s.len() < 0x1_0000_0000))
}

/// On such a stream the coder runs to the end, and its flat table has at most
/// 126 entries: paths are at most 56 bits long (fewer symbols than 58, or a
/// tree no taller than 45 for a stream shorter than 2^32 bytes), so a path and
/// the bits pending before it always fit the 64-bit accumulator.
pub proof fn lemma_huffman_class_encodable(s: Seq<u8>)
    requires
        huffman_class(s),
    ensures
        huffman_encodable(s),
        tree_size(huffman_tree_of(s)) <= 126,
        forall|v: u8| leaf_set(huffman_tree_of(s)).contains(v) ==> 1 <= v <= 127,
        distinct_leaves(huffman_tree_of(s)),
{
    crate::roundtrip::lemma_counts_of_sum(s);
    lemma_huffman_tree_leaves(s);
    let t = huffman_tree_of(s);
    lemma_tree_shape(t);
    lemma_huffman_height_bound(s);
    assert(height(t) <= 56);
    assert(!symbols_of(s).contains(128u8)) by {
        if symbols_of(s).contains(128u8) {
            crate::roundtrip::lemma_occurrences_absent(s, 128u8);
        }
    }
    assert forall|v: u8| leaf_set(t).contains(v) implies 1 <= v <= 127 by {
        if !(1 <= v <= 127) {
            crate::roundtrip::lemma_occurrences_absent(s, v);
        }
    }
    assert forall|k: int| 0 <= k < s.len() implies #[trigger] code_of(t, s[k]) is Some && (
    tree_bits(t, s.take(k)).len() % 8) + code_of(t, s[k]).unwrap().len() < 64 by {
        crate::roundtrip::lemma_occurrences_pos(s, k);
        assert(symbols_of(s).contains(s[k]));
        lemma_code_of_some(t, s[k]);
    }
    lemma_tree_bits_len(t, s);
    assert(height(t) * s.len() <= 64 * s.len()) by (nonlinear_arith)
        requires
            height(t) <= 56,
    ;
}

/// Decodes `n` symbols from bit `bit` on by walking the flat table.
pub open spec fn huff_decode_all(table: Seq<i8>, blob: Seq<u8>, bit: int, n: nat) -> Option<Seq<u8>>
    decreases n,
{
    if n == 0 {
        Some(Seq::empty())
    } else {
        match huff_walk(table, blob, bit, 0) {
            None => None,
            Some((v, b2)) => match huff_decode_all(table, blob, b2, (n - 1) as nat) {
                None => None,
                Some(r) => Some(seq![v] + r),
            },
        }
    }
}

#[verifier::spinoff_prover]
proof fn lemma_decode_from(s: Seq<u8>, blob: Seq<u8>, k: int)
    requires
        huffman_class(s),
        packs(blob, tree_bits(huffman_tree_of(s), s)),
        0 <= k <= s.len(),
    ensures
        huff_decode_all(
            tree_table(huffman_tree_of(s)),
            blob,
            tree_bits(huffman_tree_of(s), s.take(k)).len() as int,
            (s.len() - k) as nat,
        ) == Some(s.skip(k)),
    decreases s.len() - k,
{
    let t = huffman_tree_of(s);
    let table = tree_table(t);
    if k < s.len() {
        let b0 = tree_bits(t, s.take(k)).len() as int;
        let b1 = tree_bits(t, s.take(k + 1)).len() as int;
        assert(huff_walk(table, blob, b0, 0) == Some((s[k], b1))) by {
            lemma_huffman_class_encodable(s);
            assert forall|j: int| 0 <= j < s.len() implies #[trigger] leaf_set(t).contains(s[j]) by {
                lemma_code_of_some(t, s[j]);
            }
            lemma_huffman_roundtrip(t, s, blob, k);
        }
        lemma_decode_from(s, blob, k + 1);
        assert(huff_decode_all(table, blob, b1, (s.len() - (k + 1)) as nat) == Some(s.skip(k + 1)));
        assert(seq![s[k]] + s.skip(k + 1) =~= s.skip(k));
    } else {
        assert(s.skip(k) =~= Seq::<u8>::empty());
    }
}

/// Huffman decoding law: on a stream of the class above, walking the flat
/// table over the packed code from bit 0 (stepping to the 1 side on a 1 bit,
/// stopping at a negative entry) yields the stream, symbol by symbol, with
/// every table index inside the table.
pub proof fn lemma_huffman_decodes(s: Seq<u8>, blob: Seq<u8>)
    requires
        huffman_class(s),
        packs(blob, tree_bits(huffman_tree_of(s), s)),
    ensures
        huff_decode_all(tree_table(huffman_tree_of(s)), blob, 0, s.len()) == Some(s),
{
    lemma_decode_from(s, blob, 0);
    assert(s.take(0) =~= Seq::<u8>::empty());
    assert(s.skip(0) =~= s);
}

/// The Huffman coder is a function of its input: two runs on the same stream
/// give the same tree, table, packed bytes and bit count.
pub proof fn lemma_huffman_output_unique(
    s: Seq<u8>,
    t1: Node,
    table1: Seq<i8>,
    packed1: Seq<u8>,
    bits1: nat,
    t2: Node,
    table2: Seq<i8>,
    packed2: Seq<u8>,
    bits2: nat,
)
    requires
        t1 == huffman_tree_of(s),
        table1 == tree_table(t1),
        packs(packed1, tree_bits(t1, s)),
        bits1 == tree_bits(t1, s).len(),
        t2 == huffman_tree_of(s),
        table2 == tree_table(t2),
        packs(packed2, tree_bits(t2, s)),
        bits2 == tree_bits(t2, s).len(),
    ensures
        t1 == t2,
        table1 == table2,
        packed1 == packed2,
        bits1 == bits2,
{
    crate::bits::lemma_packs_unique(packed1, packed2, tree_bits(t1, s));
}

} // verus!
