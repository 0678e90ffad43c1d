//! The Huffman tree and its construction from a frequency table.
use super::HuffmanError;
use crate::token::Token;
use vstd::multiset::Multiset;
use vstd::prelude::*;

verus! {

/// A binary prefix tree: each leaf holds a token and its count, each internal
/// node the sum of its children's counts.
pub enum HuffmanTree<T> {
    Leaf { token: T, count: u32 },
    InternalNode { count: u32, left: Box<HuffmanTree<T>>, right: Box<HuffmanTree<T>> },
}

/// The entries of a frequency table as a multiset of (token view, count).
pub open spec fn entries_multiset<T: View>(e: Seq<(T, u32)>) -> Multiset<(T::V, u32)>
    decreases e.len(),
{
    if e.len() == 0 {
        Multiset::empty()
    } else {
        entries_multiset(e.drop_last()).add(Multiset::singleton((e.last().0@, e.last().1)))
    }
}

/// The sum of the counts of a frequency table.
pub open spec fn entries_total<T>(e: Seq<(T, u32)>) -> int
    decreases e.len(),
{
    if e.len() == 0 {
        0
    } else {
        entries_total(e.drop_last()) + e.last().1
    }
}

/// The leaves of a forest of trees, all together.
pub open spec fn forest_leaves<T: View>(s: Seq<Box<HuffmanTree<T>>>) -> Multiset<(T::V, u32)>
    decreases s.len(),
{
    if s.len() == 0 {
        Multiset::empty()
    } else {
        forest_leaves(s.drop_last()).add(s.last().leaf_multiset())
    }
}

/// The sum of the root counts of a forest.
pub open spec fn forest_count<T>(s: Seq<Box<HuffmanTree<T>>>) -> int
    decreases s.len(),
{
    if s.len() == 0 {
        0
    } else {
        forest_count(s.drop_last()) + s.last().spec_count()
    }
}

impl<T> HuffmanTree<T> {
    pub open spec fn spec_count(self) -> u32 {
        match self {
            HuffmanTree::Leaf { count, .. } => count,
            HuffmanTree::InternalNode { count, .. } => count,
        }
    }

    pub open spec fn num_leaves(self) -> nat
        decreases self,
    {
        match self {
            HuffmanTree::Leaf { .. } => 1,
            HuffmanTree::InternalNode { left, right, .. } => left.num_leaves()
                + right.num_leaves(),
        }
    }

    pub open spec fn num_internal(self) -> nat
        decreases self,
    {
        match self {
            HuffmanTree::Leaf { .. } => 0,
            HuffmanTree::InternalNode { left, right, .. } => 1 + left.num_internal()
                + right.num_internal(),
        }
    }

    /// Each internal node holds the sum of its children's counts, and its left
    /// child's count is at most its right child's.
    pub open spec fn well_formed(self) -> bool
        decreases self,
    {
        match self {
            HuffmanTree::Leaf { .. } => true,
            HuffmanTree::InternalNode { count, left, right } => {
                &&& count == left.spec_count() + right.spec_count()
                &&& left.spec_count() <= right.spec_count()
                &&& left.well_formed()
                &&& right.well_formed()
            },
        }
    }

    /// The count held at this node.
    pub fn get_count(&self) -> (r: u32)
        ensures
            r == self.spec_count(),
    {
        match self {
            HuffmanTree::Leaf { count, .. } => *count,
            HuffmanTree::InternalNode { count, .. } => *count,
        }
    }
}

impl<T: View> HuffmanTree<T> {
    /// The leaves as a multiset of (token view, count).
    pub open spec fn leaf_multiset(self) -> Multiset<(T::V, u32)>
        decreases self,
    {
        match self {
            HuffmanTree::Leaf { token, count } => Multiset::singleton((token@, count)),
            HuffmanTree::InternalNode { left, right, .. } => left.leaf_multiset().add(
                right.leaf_multiset(),
            ),
        }
    }
}

/// Taking one tree out of a forest takes its leaves and its count out of the totals.
proof fn lemma_forest_remove<T: View>(s: Seq<Box<HuffmanTree<T>>>, i: int)
    requires
        0 <= i < s.len(),
    ensures
        forest_leaves(s) =~= forest_leaves(s.remove(i)).add(s[i].leaf_multiset()),
        forest_count(s) == forest_count(s.remove(i)) + s[i].spec_count(),
    decreases s.len(),
{
    if i == s.len() - 1 {
        assert(s.remove(i) =~= s.drop_last());
    } else {
        let r = s.remove(i);
        assert(r.drop_last() =~= s.drop_last().remove(i));
        assert(r.last() == s.last());
        lemma_forest_remove(s.drop_last(), i);
    }
}

proof fn lemma_forest_count_nonneg<T>(s: Seq<Box<HuffmanTree<T>>>)
    ensures
        forest_count(s) >= 0,
    decreases s.len(),
{
    if s.len() > 0 {
        lemma_forest_count_nonneg(s.drop_last());
    }
}

/// The index of a tree with the lowest count; of several, the first.
fn lowest<T>(nodes: &Vec<Box<HuffmanTree<T>>>) -> (r: usize)
    requires
        nodes@.len() > 0,
    ensures
        r < nodes@.len(),
        forall|k: int| 0 <= k < nodes@.len() ==> nodes@[r as int].spec_count() <= nodes@[k].spec_count(),
        forall|k: int| 0 <= k < r ==> nodes@[r as int].spec_count() < nodes@[k].spec_count(),
{
    let mut best: usize = 0;
    let mut i: usize = 1;
    while i < nodes.len()
        invariant
            1 <= i <= nodes@.len(),
            best < i,
            forall|k: int| 0 <= k < i ==> nodes@[best as int].spec_count() <= nodes@[k].spec_count(),
            forall|k: int| 0 <= k < best ==> nodes@[best as int].spec_count() < nodes@[k].spec_count(),
        decreases nodes@.len() - i,
    {
        if nodes[i].get_count() < nodes[best].get_count() {
            best = i;
        }
        i += 1;
    }
    best
}

impl<T: Token> HuffmanTree<T> {
    /// Builds the tree by repeatedly merging the two trees of lowest count.
    ///
    /// The queue starts with one leaf per entry, in the table's order. Of trees
    /// with equal counts the one that stands first in the queue is taken first,
    /// and a merged tree joins the queue at its end. The first tree taken
    /// becomes the left child, the second the right child.
    pub fn from_frequencies(counts: &Vec<(T, u32)>) -> (r: Result<Box<HuffmanTree<T>>, HuffmanError>)
        requires
            entries_total(counts@) <= u32::MAX,
        ensures
            counts@.len() == 0 ==> r == Err::<Box<HuffmanTree<T>>, HuffmanError>(
                HuffmanError::EmptyInput,
            ),
            counts@.len() > 0 ==> r is Ok,
            r matches Ok(t) ==> {
                &&& t.well_formed()
                &&& t.leaf_multiset() == entries_multiset(counts@)
                &&& t.spec_count() == entries_total(counts@)
                &&& t.levels_ordered()
                &&& tree_view(*t) == huffman_tree_of(counts@)
            },
    {
        let mut nodes: Vec<Box<HuffmanTree<T>>> = Vec::new();
        let mut i: usize = 0;
        while i < counts.len()
            invariant
                i <= counts@.len(),
                nodes@.len() == i,
                forall|k: int| 0 <= k < nodes@.len() ==> nodes@[k].well_formed(),
                forall|k: int| 0 <= k < nodes@.len() ==> (*#[trigger] nodes@[k]) is Leaf,
                forest_view(nodes@) == leaf_queue(counts@.subrange(0, i as int)),
                forest_leaves(nodes@) == entries_multiset(counts@.subrange(0, i as int)),
                forest_count(nodes@) == entries_total(counts@.subrange(0, i as int)),
            decreases counts@.len() - i,
        {
            let entry = &counts[i];
            let leaf = Box::new(HuffmanTree::Leaf { token: entry.0.duplicate(), count: entry.1 });
            let ghost before = nodes@;
            nodes.push(leaf);
            proof {
                assert(nodes@.drop_last() =~= before);
                assert(counts@.subrange(0, i + 1).drop_last() =~= counts@.subrange(0, i as int));
                assert(forest_view(nodes@) =~= forest_view(before).push(Box::new(tree_view(*nodes@[i as int]))));
                assert(leaf_queue(counts@.subrange(0, i + 1)) =~= leaf_queue(counts@.subrange(0, i as int)).push(
                    Box::new(HuffmanTree::Leaf { token: counts@[i as int].0@, count: counts@[i as int].1 }),
                ));
                assert(forest_view(nodes@) =~= leaf_queue(counts@.subrange(0, i + 1)));
            }
            i += 1;
        }
        assert(counts@.subrange(0, i as int) =~= counts@);
        proof {
            lemma_leaves_levels(nodes@);
        }
        if nodes.len() == 0 {
            return Err(HuffmanError::EmptyInput);
        }
        while nodes.len() > 1
            invariant
                nodes@.len() >= 1,
                forall|k: int| 0 <= k < nodes@.len() ==> nodes@[k].well_formed(),
                forest_leaves(nodes@) == entries_multiset(counts@),
                forest_count(nodes@) == entries_total(counts@),
                entries_total(counts@) <= u32::MAX,
                forest_levels_ordered(nodes@),
                merges_bounded(nodes@),
                run_queue(forest_view(nodes@), nodes@.len() as nat) == huffman_tree_of(counts@),
            decreases nodes@.len(),
        {
            let a = lowest(&nodes);
            let ghost s0 = nodes@;
            let smaller = nodes.remove(a);
            let b = lowest(&nodes);
            let ghost s1 = nodes@;
            let larger = nodes.remove(b);
            proof {
                lemma_forest_remove(s0, a as int);
                lemma_forest_remove(s1, b as int);
                lemma_forest_count_nonneg(nodes@);
                assert(s1 =~= s0.remove(a as int));
            }
            let total = smaller.get_count() + larger.get_count();
            let merged = Box::new(
                HuffmanTree::InternalNode { count: total, left: smaller, right: larger },
            );
            let ghost s2 = nodes@;
            proof {
                lemma_merge_levels(s0, a as int, b as int, merged);
                lemma_merge_view(s0, a as int, b as int, merged);
            }
            nodes.push(merged);
            proof {
                assert(nodes@.drop_last() =~= s2);
                assert(forest_leaves(nodes@) =~= forest_leaves(s0));
            }
        }
        let ghost last = nodes@;
        let root = nodes.remove(0);
        proof {
            assert(last.drop_last() =~= Seq::<Box<HuffmanTree<T>>>::empty());
            assert(forest_leaves(last.drop_last()) == Multiset::<(T::V, u32)>::empty());
            assert(forest_count(last.drop_last()) == 0);
            assert(last.last() == root);
            assert(forest_leaves(last) =~= root.leaf_multiset());
            assert(forest_view(last)[0] == Box::new(tree_view(*root)));
            reveal(forest_levels_ordered);
            assert forall|p: Seq<bool>, q: Seq<bool>|
                #[trigger] subtree(*root, p) is Some && #[trigger] subtree(*root, q) is Some && p.len()
                    < q.len() implies subtree(*root, p)->0.spec_count() >= subtree(*root, q)->0.spec_count() by {
                assert(subtree(*last[0], p) is Some && subtree(*last[0], q) is Some);
            }
        }
        Ok(root)
    }
}

impl<T> HuffmanTree<T> {
    /// The number of edges on the longest path from this node to a leaf.
    pub open spec fn height(self) -> nat
        decreases self,
    {
        match self {
            HuffmanTree::Leaf { .. } => 0,
            HuffmanTree::InternalNode { left, right, .. } => 1 + if left.height()
                >= right.height() {
                left.height()
            } else {
                right.height()
            },
        }
    }
}

/// Every binary tree has one leaf more than it has internal nodes, and no
/// path in it is longer than its number of internal nodes.
pub proof fn lemma_tree_node_counts<T: View>(t: HuffmanTree<T>)
    ensures
        t.num_leaves() == t.num_internal() + 1,
        t.leaf_multiset().len() == t.num_leaves(),
        t.height() <= t.num_internal(),
    decreases t,
{
    if let HuffmanTree::InternalNode { left, right, .. } = t {
        lemma_tree_node_counts(*left);
        lemma_tree_node_counts(*right);
    }
}

proof fn lemma_entries_multiset_len<T: View>(e: Seq<(T, u32)>)
    ensures
        entries_multiset(e).len() == e.len(),
    decreases e.len(),
{
    if e.len() > 0 {
        lemma_entries_multiset_len(e.drop_last());
    }
}

/// A tree whose leaves are the N entries of a frequency table has N leaves and
/// N - 1 internal nodes.
pub proof fn lemma_built_tree_sizes<T: View>(counts: Seq<(T, u32)>, t: HuffmanTree<T>)
    requires
        t.leaf_multiset() == entries_multiset(counts),
    ensures
        t.num_leaves() == counts.len(),
        t.num_internal() == counts.len() - 1,
{
    lemma_tree_node_counts(t);
    lemma_entries_multiset_len(counts);
}

/// Some entry of the table is for token `v`.
pub open spec fn in_table<T: View>(counts: Seq<(T, u32)>, v: T::V) -> bool {
    exists|i: int| 0 <= i < counts.len() && (#[trigger] counts[i]).0@ == v
}

/// A token occurs in a table's multiset of entries exactly when some entry is for it.
pub proof fn lemma_entries_multiset_tokens<T: View>(e: Seq<(T, u32)>, v: T::V)
    ensures
        (exists|c: u32| #[trigger] entries_multiset(e).count((v, c)) > 0) <==> in_table(e, v),
    decreases e.len(),
{
    if e.len() > 0 {
        let d = e.drop_last();
        lemma_entries_multiset_tokens(d, v);
        let last = (e.last().0@, e.last().1);
        if exists|c: u32| #[trigger] entries_multiset(e).count((v, c)) > 0 {
            let c = choose|c: u32| #[trigger] entries_multiset(e).count((v, c)) > 0;
            if entries_multiset(d).count((v, c)) > 0 {
                let i = choose|i: int| 0 <= i < d.len() && (#[trigger] d[i]).0@ == v;
                assert(e[i] == d[i]);
            } else {
                assert((v, c) == last);
                assert(e[e.len() - 1] == e.last());
            }
        }
        if in_table(e, v) {
            let i = choose|i: int| 0 <= i < e.len() && (#[trigger] e[i]).0@ == v;
            if i < e.len() - 1 {
                assert(d[i] == e[i]);
                let c = choose|c: u32| #[trigger] entries_multiset(d).count((v, c)) > 0;
                assert(entries_multiset(e).count((v, c)) > 0);
            } else {
                assert(entries_multiset(e).count((v, e.last().1)) > 0);
            }
        }
    }
}

/// Some entry of the table holds token `v` with count `c`.
pub open spec fn has_entry<T: View>(counts: Seq<(T, u32)>, v: T::V, c: u32) -> bool {
    exists|i: int| 0 <= i < counts.len() && (#[trigger] counts[i]).0@ == v && counts[i].1 == c
}

impl<T: View> HuffmanTree<T> {
    /// Each leaf's token and count stand as an entry in the table.
    pub open spec fn leaves_in_table(self, counts: Seq<(T, u32)>) -> bool
        decreases self,
    {
        match self {
            HuffmanTree::Leaf { token, count } => has_entry(counts, token@, count),
            HuffmanTree::InternalNode { left, right, .. } => left.leaves_in_table(counts)
                && right.leaves_in_table(counts),
        }
    }
}

fn find_entry<T: Token>(counts: &Vec<(T, u32)>, token: &T, count: u32) -> (r: bool)
    ensures
        r == has_entry(counts@, token@, count),
{
    let mut i: usize = 0;
    while i < counts.len()
        invariant
            i <= counts@.len(),
            forall|k: int| 0 <= k < i ==> !((#[trigger] counts@[k]).0@ == token@ && counts@[k].1 == count),
        decreases counts@.len() - i,
    {
        if counts[i].1 == count && counts[i].0.same_token(token) {
            return true;
        }
        i += 1;
    }
    false
}

/// Whether every leaf of the tree holds a token and count that the table holds.
pub fn check_leaves<T: Token>(tree: &HuffmanTree<T>, counts: &Vec<(T, u32)>) -> (r: bool)
    ensures
        r == tree.leaves_in_table(counts@),
    decreases tree,
{
    match tree {
        HuffmanTree::Leaf { token, count } => find_entry(counts, token, *count),
        HuffmanTree::InternalNode { left, right, .. } => {
            check_leaves(left, counts) && check_leaves(right, counts)
        },
    }
}

/// The subtree reached from `t` by the path `p` (`false` for left), if there is one.
pub open spec fn subtree<T>(t: HuffmanTree<T>, p: Seq<bool>) -> Option<HuffmanTree<T>>
    decreases p.len(),
{
    if p.len() == 0 {
        Some(t)
    } else {
        match t {
            HuffmanTree::Leaf { .. } => None,
            HuffmanTree::InternalNode { left, right, .. } => subtree(
                if p[0] {
                    *right
                } else {
                    *left
                },
                p.drop_first(),
            ),
        }
    }
}

impl<T> HuffmanTree<T> {
    /// No node weighs less than a node that lies deeper.
    pub open spec fn levels_ordered(self) -> bool {
        forall|p: Seq<bool>, q: Seq<bool>|
            #[trigger] subtree(self, p) is Some && #[trigger] subtree(self, q) is Some && p.len()
                < q.len() ==> subtree(self, p)->0.spec_count() >= subtree(self, q)->0.spec_count()
    }
}

/// The tree at `j` leaves the queue before the tree at `i`.
pub open spec fn precedes<T>(s: Seq<Box<HuffmanTree<T>>>, j: int, i: int) -> bool {
    s[j].spec_count() < s[i].spec_count() || (s[j].spec_count() == s[i].spec_count() && j < i)
}

/// Across the queue, no node weighs less than a node that lies deeper, nor
/// than a node at the same depth in a tree that leaves the queue earlier.
#[verifier::opaque]
pub open spec fn forest_levels_ordered<T>(s: Seq<Box<HuffmanTree<T>>>) -> bool {
    forall|i: int, j: int, p: Seq<bool>, q: Seq<bool>|
        0 <= i < s.len() && 0 <= j < s.len() && #[trigger] subtree(*s[i], p) is Some
            && #[trigger] subtree(*s[j], q) is Some && (p.len() < q.len() || (p.len() == q.len()
            && i != j && precedes(s, j, i))) ==> subtree(*s[i], p)->0.spec_count() >= subtree(
            *s[j],
            q,
        )->0.spec_count()
}

/// No merged tree in the queue weighs more than any two trees of the queue together.
#[verifier::opaque]
pub open spec fn merges_bounded<T>(s: Seq<Box<HuffmanTree<T>>>) -> bool {
    forall|r: int, a: int, b: int|
        0 <= r < s.len() && 0 <= a < s.len() && 0 <= b < s.len() && a != b && (*
        #[trigger] s[r]) is InternalNode ==> s[r].spec_count() <= #[trigger] s[a].spec_count()
            + #[trigger] s[b].spec_count()
}

proof fn lemma_subtree_le<T>(t: HuffmanTree<T>, p: Seq<bool>)
    requires
        t.well_formed(),
        subtree(t, p) is Some,
    ensures
        subtree(t, p)->0.spec_count() <= t.spec_count(),
        subtree(t, p)->0.well_formed(),
    decreases p.len(),
{
    if p.len() > 0 {
        if let HuffmanTree::InternalNode { left, right, .. } = t {
            if p[0] {
                lemma_subtree_le(*right, p.drop_first());
            } else {
                lemma_subtree_le(*left, p.drop_first());
            }
        }
    }
}

proof fn lemma_leaf_subtree<T>(t: HuffmanTree<T>, p: Seq<bool>)
    requires
        t is Leaf,
        subtree(t, p) is Some,
    ensures
        p.len() == 0,
{
}

/// A queue of leaves alone is ordered by levels.
proof fn lemma_leaves_levels<T>(s: Seq<Box<HuffmanTree<T>>>)
    requires
        forall|k: int| 0 <= k < s.len() ==> (*#[trigger] s[k]) is Leaf,
    ensures
        forest_levels_ordered(s),
        merges_bounded(s),
{
    reveal(forest_levels_ordered);
    reveal(merges_bounded);
    assert forall|i: int, j: int, p: Seq<bool>, q: Seq<bool>|
        0 <= i < s.len() && 0 <= j < s.len() && #[trigger] subtree(*s[i], p) is Some
            && #[trigger] subtree(*s[j], q) is Some && (p.len() < q.len() || (p.len() == q.len()
            && i != j && precedes(s, j, i))) implies subtree(*s[i], p)->0.spec_count() >= subtree(
        *s[j],
        q,
    )->0.spec_count() by {
        lemma_leaf_subtree(*s[i], p);
        lemma_leaf_subtree(*s[j], q);
    }
}

/// The position in a queue of the item at `k` once the item at `a` was taken out.
pub open spec fn skip_index(k: int, a: int) -> int {
    if k < a {
        k
    } else {
        k + 1
    }
}

/// Merging the two trees that leave the queue first keeps the queue ordered by
/// levels, and keeps merged trees bounded.
#[verifier::spinoff_prover]
#[verifier::rlimit(60)]
proof fn lemma_merge_levels<T>(s0: Seq<Box<HuffmanTree<T>>>, a: int, b: int, n: Box<HuffmanTree<T>>)
    requires
        0 <= a < s0.len(),
        0 <= b < s0.len() - 1,
        forall|k: int| 0 <= k < s0.len() ==> (#[trigger] s0[k]).well_formed(),
        forest_levels_ordered(s0),
        merges_bounded(s0),
        forall|k: int| 0 <= k < s0.len() ==> s0[a].spec_count() <= (#[trigger] s0[k]).spec_count(),
        forall|k: int| 0 <= k < a ==> s0[a].spec_count() < (#[trigger] s0[k]).spec_count(),
        forall|k: int|
            0 <= k < s0.len() - 1 ==> s0.remove(a)[b].spec_count() <= (#[trigger] s0.remove(
                a,
            )[k]).spec_count(),
        forall|k: int|
            0 <= k < b ==> s0.remove(a)[b].spec_count() < (#[trigger] s0.remove(a)[k]).spec_count(),
        n.spec_count() == s0[a].spec_count() + s0.remove(a)[b].spec_count(),
        n.well_formed(),
        *n matches HuffmanTree::InternalNode { left, right, .. } && left == s0[a] && right == s0.remove(
            a,
        )[b],
    ensures
        forest_levels_ordered(s0.remove(a).remove(b).push(n)),
        merges_bounded(s0.remove(a).remove(b).push(n)),
{
    reveal(forest_levels_ordered);
    reveal(merges_bounded);
    let s1 = s0.remove(a);
    let s2 = s1.remove(b);
    let s3 = s2.push(n);
    let l = s2.len() as int;
    let yb = skip_index(b, a);
    let x = s0[a];
    let y = s1[b];
    assert(y == s0[yb]);
    assert forall|k: int| 0 <= k < l implies #[trigger] s3[k] == s0[skip_index(skip_index(k, b), a)] by {
        assert(s3[k] == s2[k]);
        assert(s2[k] == s1[skip_index(k, b)]);
    }
    // the trees that stay in the queue come after the two merged ones
    assert forall|k: int| 0 <= k < l implies precedes(s0, a, #[trigger] skip_index(skip_index(k, b), a))
        && precedes(s0, yb, skip_index(skip_index(k, b), a)) by {
        let k1 = skip_index(k, b);
        assert(s1[k1] == s0[skip_index(k1, a)]);
    }
    assert forall|i: int, j: int, p: Seq<bool>, q: Seq<bool>|
        0 <= i < s3.len() && 0 <= j < s3.len() && #[trigger] subtree(*s3[i], p) is Some
            && #[trigger] subtree(*s3[j], q) is Some && (p.len() < q.len() || (p.len() == q.len()
            && i != j && precedes(s3, j, i))) implies subtree(*s3[i], p)->0.spec_count() >= subtree(
        *s3[j],
        q,
    )->0.spec_count() by {
        let u = subtree(*s3[i], p)->0;
        let v = subtree(*s3[j], q)->0;
        if i < l && j < l {
            let i0 = skip_index(skip_index(i, b), a);
            let j0 = skip_index(skip_index(j, b), a);
            assert(s3[i] == s0[i0] && s3[j] == s0[j0]);
            assert(subtree(*s0[i0], p) is Some && subtree(*s0[j0], q) is Some);
        } else if i == l && j < l {
            let j0 = skip_index(skip_index(j, b), a);
            assert(s3[j] == s0[j0]);
            assert(s3[i] == n);
            if p.len() == 0 {
                if q.len() > 0 {
                    assert(subtree(*s0[a], p) is Some && subtree(*s0[j0], q) is Some);
                }
            } else {
                let c = if p[0] {
                    yb
                } else {
                    a
                };
                assert(subtree(*n, p) == subtree(*s0[c], p.drop_first()));
                assert(subtree(*s0[c], p.drop_first()) is Some && subtree(*s0[j0], q) is Some);
            }
        } else if i < l && j == l {
            let i0 = skip_index(skip_index(i, b), a);
            assert(s3[i] == s0[i0]);
            assert(s3[j] == n);
            if q.len() > 0 {
                let c = if q[0] {
                    yb
                } else {
                    a
                };
                assert(subtree(*n, q) == subtree(*s0[c], q.drop_first()));
                assert(subtree(*s0[i0], p) is Some && subtree(*s0[c], q.drop_first()) is Some);
                if p.len() == q.len() && precedes(s3, j, i) {
                    if *s0[i0] is InternalNode {
                        assert(s0[i0].spec_count() <= s0[a].spec_count() + s0[yb].spec_count());
                    } else {
                        lemma_leaf_subtree(*s0[i0], p);
                    }
                }
            }
        } else {
            assert(s3[i] == n && s3[j] == n);
            if p.len() == 0 {
                lemma_subtree_le(*n, q);
            } else {
                let cp = if p[0] {
                    yb
                } else {
                    a
                };
                let cq = if q[0] {
                    yb
                } else {
                    a
                };
                assert(subtree(*n, p) == subtree(*s0[cp], p.drop_first()));
                assert(subtree(*n, q) == subtree(*s0[cq], q.drop_first()));
                assert(subtree(*s0[cp], p.drop_first()) is Some && subtree(*s0[cq], q.drop_first()) is Some);
            }
        }
    }
    assert forall|r: int, a2: int, b2: int|
        0 <= r < s3.len() && 0 <= a2 < s3.len() && 0 <= b2 < s3.len() && a2 != b2 && (*#[trigger] s3[r]) is InternalNode
        implies s3[r].spec_count() <= #[trigger] s3[a2].spec_count() + #[trigger] s3[b2].spec_count() by {
        assert(s3[l] == n);
        if a2 < l && b2 < l {
            let a0 = skip_index(skip_index(a2, b), a);
            let b0 = skip_index(skip_index(b2, b), a);
            assert(s3[a2] == s0[a0] && s3[b2] == s0[b0]);
            assert(s1[skip_index(a2, b)] == s0[a0] && s1[skip_index(b2, b)] == s0[b0]);
            if r < l {
                let r0 = skip_index(skip_index(r, b), a);
                assert(s3[r] == s0[r0]);
            }
        } else if r < l {
            let r0 = skip_index(skip_index(r, b), a);
            assert(s3[r] == s0[r0]);
            assert(s0[r0].spec_count() <= s0[a].spec_count() + s0[yb].spec_count());
        }
    }
}

/// In a tree ordered by levels, a node of lower count lies at least as deep
/// as a node of higher count.
pub proof fn lemma_lower_count_not_shallower<T>(t: HuffmanTree<T>, p: Seq<bool>, q: Seq<bool>)
    requires
        t.levels_ordered(),
        subtree(t, p) is Some,
        subtree(t, q) is Some,
        subtree(t, p)->0.spec_count() < subtree(t, q)->0.spec_count(),
    ensures
        p.len() >= q.len(),
{
}

pub(crate) proof fn lemma_entries_multiset_has_entry<T: View>(e: Seq<(T, u32)>, v: T::V, c: u32)
    requires
        entries_multiset(e).count((v, c)) > 0,
    ensures
        has_entry(e, v, c),
    decreases e.len(),
{
    let d = e.drop_last();
    if entries_multiset(d).count((v, c)) > 0 {
        lemma_entries_multiset_has_entry(d, v, c);
        let i = choose|i: int| 0 <= i < d.len() && (#[trigger] d[i]).0@ == v && d[i].1 == c;
        assert(e[i] == d[i]);
    } else {
        assert(e[e.len() - 1] == e.last());
    }
}

proof fn lemma_leaves_in_entries<T: View>(t: HuffmanTree<T>, counts: Seq<(T, u32)>)
    requires
        forall|x: (T::V, u32)| #[trigger] t.leaf_multiset().count(x) > 0 ==> entries_multiset(counts).count(x) > 0,
    ensures
        t.leaves_in_table(counts),
    decreases t,
{
    match t {
        HuffmanTree::Leaf { token, count } => {
            assert(t.leaf_multiset().count((token@, count)) > 0);
            lemma_entries_multiset_has_entry(counts, token@, count);
        },
        HuffmanTree::InternalNode { left, right, .. } => {
            assert forall|x: (T::V, u32)| #[trigger] left.leaf_multiset().count(x) > 0 implies entries_multiset(counts).count(x) > 0 by {
                assert(t.leaf_multiset().count(x) > 0);
            }
            assert forall|x: (T::V, u32)| #[trigger] right.leaf_multiset().count(x) > 0 implies entries_multiset(counts).count(x) > 0 by {
                assert(t.leaf_multiset().count(x) > 0);
            }
            lemma_leaves_in_entries(*left, counts);
            lemma_leaves_in_entries(*right, counts);
        },
    }
}

/// Every leaf of a tree built from a frequency table holds a token and its
/// count as the table gives them.
pub proof fn lemma_built_tree_leaves_in_table<T: View>(counts: Seq<(T, u32)>, t: HuffmanTree<T>)
    requires
        t.leaf_multiset() == entries_multiset(counts),
    ensures
        t.leaves_in_table(counts),
{
    lemma_leaves_in_entries(t, counts);
}

/// The tree with each token replaced by its view.
pub open spec fn tree_view<T: View>(t: HuffmanTree<T>) -> HuffmanTree<T::V>
    decreases t,
{
    match t {
        HuffmanTree::Leaf { token, count } => HuffmanTree::Leaf { token: token@, count },
        HuffmanTree::InternalNode { count, left, right } => HuffmanTree::InternalNode {
            count,
            left: Box::new(tree_view(*left)),
            right: Box::new(tree_view(*right)),
        },
    }
}

/// A queue of trees with each token replaced by its view.
pub open spec fn forest_view<T: View>(s: Seq<Box<HuffmanTree<T>>>) -> Seq<Box<HuffmanTree<T::V>>> {
    s.map_values(|b: Box<HuffmanTree<T>>| Box::new(tree_view(*b)))
}

/// The queue that a frequency table starts with: one leaf per entry, in order.
pub open spec fn leaf_queue<T: View>(counts: Seq<(T, u32)>) -> Seq<Box<HuffmanTree<T::V>>> {
    counts.map_values(|e: (T, u32)| Box::new(HuffmanTree::Leaf { token: e.0@, count: e.1 }))
}

/// The position of the first tree of lowest count in a queue.
pub open spec fn first_lowest<V>(s: Seq<Box<HuffmanTree<V>>>) -> int
    decreases s.len(),
{
    if s.len() <= 1 {
        0
    } else {
        let k = first_lowest(s.drop_last());
        if s.last().spec_count() < s[k].spec_count() {
            s.len() - 1
        } else {
            k
        }
    }
}

/// One step of the queue: the first tree of lowest count and then the first
/// tree of lowest count among the rest leave it, and their merge, with the
/// first on the left, joins it at the end.
pub open spec fn merge_step<V>(s: Seq<Box<HuffmanTree<V>>>) -> Seq<Box<HuffmanTree<V>>> {
    let a = first_lowest(s);
    let s1 = s.remove(a);
    let b = first_lowest(s1);
    s1.remove(b).push(
        Box::new(
            HuffmanTree::InternalNode {
                count: (s[a].spec_count() + s1[b].spec_count()) as u32,
                left: s[a],
                right: s1[b],
            },
        ),
    )
}

/// The tree left when merge steps run, at most `n` of them, until one tree remains.
pub open spec fn run_queue<V>(s: Seq<Box<HuffmanTree<V>>>, n: nat) -> HuffmanTree<V>
    decreases n,
{
    if n == 0 || s.len() <= 1 {
        *s[0]
    } else {
        run_queue(merge_step(s), (n - 1) as nat)
    }
}

/// The Huffman tree of a frequency table, with tokens as views.
pub open spec fn huffman_tree_of<T: View>(counts: Seq<(T, u32)>) -> HuffmanTree<T::V> {
    run_queue(leaf_queue(counts), counts.len())
}

proof fn lemma_first_lowest<V>(s: Seq<Box<HuffmanTree<V>>>)
    requires
        s.len() > 0,
    ensures
        0 <= first_lowest(s) < s.len(),
        forall|k: int| 0 <= k < s.len() ==> s[first_lowest(s)].spec_count() <= (#[trigger] s[k]).spec_count(),
        forall|k: int| 0 <= k < first_lowest(s) ==> s[first_lowest(s)].spec_count() < (#[trigger] s[k]).spec_count(),
    decreases s.len(),
{
    if s.len() > 1 {
        let d = s.drop_last();
        lemma_first_lowest(d);
        let k0 = first_lowest(d);
        assert(d[k0] == s[k0]);
        assert forall|k: int| 0 <= k < s.len() implies s[first_lowest(s)].spec_count() <= (
        #[trigger] s[k]).spec_count() by {
            if k < d.len() {
                assert(d[k] == s[k]);
            }
        }
        assert forall|k: int| 0 <= k < first_lowest(s) implies s[first_lowest(s)].spec_count() < (
        #[trigger] s[k]).spec_count() by {
            if k < d.len() {
                assert(d[k] == s[k]);
            }
        }
    }
}

/// The first tree of lowest count is the only one that is lowest and has no
/// tree of equal count before it.
proof fn lemma_first_lowest_unique<V>(s: Seq<Box<HuffmanTree<V>>>, r: int)
    requires
        0 <= r < s.len(),
        forall|k: int| 0 <= k < s.len() ==> s[r].spec_count() <= (#[trigger] s[k]).spec_count(),
        forall|k: int| 0 <= k < r ==> s[r].spec_count() < (#[trigger] s[k]).spec_count(),
    ensures
        first_lowest(s) == r,
{
    lemma_first_lowest(s);
    let f = first_lowest(s);
    if f < r {
        assert(s[r].spec_count() < s[f].spec_count());
    } else if r < f {
        assert(s[f].spec_count() < s[r].spec_count());
    }
}

proof fn lemma_view_count<T: View>(t: HuffmanTree<T>)
    ensures
        tree_view(t).spec_count() == t.spec_count(),
{
}

proof fn lemma_forest_view_counts<T: View>(s: Seq<Box<HuffmanTree<T>>>)
    ensures
        forest_view(s).len() == s.len(),
        forall|k: int| 0 <= k < s.len() ==> (#[trigger] forest_view(s)[k]).spec_count() == s[k].spec_count(),
{
    assert forall|k: int| 0 <= k < s.len() implies (#[trigger] forest_view(s)[k]).spec_count() == s[k].spec_count() by {
        lemma_view_count(*s[k]);
    }
}

/// One merge of the queue, seen through the views of the tokens, is a merge step.
#[verifier::spinoff_prover]
proof fn lemma_merge_view<T: View>(s0: Seq<Box<HuffmanTree<T>>>, a: int, b: int, n: Box<HuffmanTree<T>>)
    requires
        0 <= a < s0.len(),
        0 <= b < s0.len() - 1,
        forall|k: int| 0 <= k < s0.len() ==> s0[a].spec_count() <= (#[trigger] s0[k]).spec_count(),
        forall|k: int| 0 <= k < a ==> s0[a].spec_count() < (#[trigger] s0[k]).spec_count(),
        forall|k: int|
            0 <= k < s0.len() - 1 ==> s0.remove(a)[b].spec_count() <= (#[trigger] s0.remove(
                a,
            )[k]).spec_count(),
        forall|k: int|
            0 <= k < b ==> s0.remove(a)[b].spec_count() < (#[trigger] s0.remove(a)[k]).spec_count(),
        *n == (HuffmanTree::InternalNode {
            count: (s0[a].spec_count() + s0.remove(a)[b].spec_count()) as u32,
            left: s0[a],
            right: s0.remove(a)[b],
        }),
    ensures
        merge_step(forest_view(s0)) == forest_view(s0.remove(a).remove(b).push(n)),
{
    let s1 = s0.remove(a);
    let v0 = forest_view(s0);
    let v1 = forest_view(s1);
    lemma_forest_view_counts(s0);
    lemma_forest_view_counts(s1);
    assert(v0.remove(a) =~= v1);
    lemma_first_lowest_unique(v0, a);
    lemma_first_lowest_unique(v1, b);
    assert(v1.remove(b) =~= forest_view(s1.remove(b)));
    lemma_view_count(*s0[a]);
    lemma_view_count(*s1[b]);
    assert(forest_view(s1.remove(b).push(n)) =~= forest_view(s1.remove(b)).push(Box::new(tree_view(*n))));
}

/// The leaf reached by a path is counted in the tree's leaves.
pub proof fn lemma_subtree_leaf_counted<T: View>(t: HuffmanTree<T>, p: Seq<bool>)
    ensures
        subtree(t, p) matches Some(HuffmanTree::Leaf { token, count }) ==> t.leaf_multiset().count(
            (token@, count),
        ) > 0,
    decreases p.len(),
{
    if p.len() > 0 {
        if let HuffmanTree::InternalNode { left, right, .. } = t {
            let c = if p[0] {
                *right
            } else {
                *left
            };
            lemma_subtree_leaf_counted(c, p.drop_first());
        }
    }
}

} // verus!
