//! Merging a forest of code trees into one: the two trees of least
//! frequency are joined until a single tree is left.
//!
//! Ties are settled by position: of several trees with the least frequency
//! the one that stands first in the forest is taken, and a joined tree goes
//! to the end of the forest. Of the two trees joined, the one with the
//! larger frequency becomes the left child; when they are equal, the one
//! taken first does.

use crate::huffman_tree::{max_and_min, HuffmanError, HuffmanTree};
use vstd::multiset::Multiset;
use vstd::prelude::*;

verus! {

/// The sum of the frequencies stored at the roots of a forest.
pub open spec fn total_freq(f: Seq<HuffmanTree>) -> nat
    decreases f.len(),
{
    if f.len() == 0 {
        0
    } else {
        total_freq(f.drop_last()) + f.last().root_freq()
    }
}

/// The position of the first tree of least root frequency; 0 in an empty
/// forest.
pub open spec fn min_index(f: Seq<HuffmanTree>) -> int
    decreases f.len(),
{
    if f.len() <= 1 {
        0
    } else {
        let i = min_index(f.drop_last());
        if f.last().root_freq() < f[i].root_freq() {
            f.len() - 1
        } else {
            i
        }
    }
}

/// The node that joins `a`, taken first, and `b`, taken second.
pub open spec fn join(a: HuffmanTree, b: HuffmanTree) -> HuffmanTree {
    if a.root_freq() >= b.root_freq() {
        HuffmanTree::Node {
            freq: (a.root_freq() + b.root_freq()) as u32,
            l: Box::new(a),
            r: Box::new(b),
        }
    } else {
        HuffmanTree::Node {
            freq: (a.root_freq() + b.root_freq()) as u32,
            l: Box::new(b),
            r: Box::new(a),
        }
    }
}

/// The forest after its two least trees were taken out and their join was
/// put at the end.
pub open spec fn merge_step(f: Seq<HuffmanTree>) -> Seq<HuffmanTree> {
    let i = min_index(f);
    let g = f.remove(i);
    let j = min_index(g);
    g.remove(j).push(join(f[i], g[j]))
}

/// The tree that is left when a forest is merged to the end.
pub open spec fn huffman(f: Seq<HuffmanTree>) -> HuffmanTree
    decreases f.len(),
{
    if f.len() <= 1 {
        f[0]
    } else {
        proof {
            lemma_min_index(f);
            lemma_min_index(f.remove(min_index(f)));
        }
        huffman(merge_step(f))
    }
}

/// `min_index` is a position of the forest, no tree has a smaller root
/// frequency than the one there, and every tree before it has a larger one.
pub proof fn lemma_min_index(f: Seq<HuffmanTree>)
    requires
        f.len() > 0,
    ensures
        0 <= min_index(f) < f.len(),
        forall|k: int| 0 <= k < f.len() ==> f[min_index(f)].root_freq() <= #[trigger] f[k].root_freq(),
        forall|k: int| 0 <= k < min_index(f) ==> f[min_index(f)].root_freq() < #[trigger] f[k].root_freq(),
    decreases f.len(),
{
    if f.len() > 1 {
        let g = f.drop_last();
        lemma_min_index(g);
        assert forall|k: int| 0 <= k < f.len() implies f[min_index(f)].root_freq()
            <= #[trigger] f[k].root_freq() by {
            if k < g.len() {
                assert(g[k] == f[k]);
            }
        }
        assert forall|k: int| 0 <= k < min_index(f) implies f[min_index(f)].root_freq()
            < #[trigger] f[k].root_freq() by {
            if k < g.len() {
                assert(g[k] == f[k]);
                if k >= min_index(g) {
                    assert(g[min_index(g)].root_freq() <= g[k].root_freq());
                }
            }
        }
    }
}

/// Taking a tree out of a forest lowers the total by its root frequency.
pub proof fn lemma_total_remove(f: Seq<HuffmanTree>, i: int)
    requires
        0 <= i < f.len(),
    ensures
        total_freq(f.remove(i)) + f[i].root_freq() == total_freq(f),
    decreases f.len(),
{
    if i == f.len() - 1 {
        assert(f.remove(i) =~= f.drop_last());
    } else {
        lemma_total_remove(f.drop_last(), i);
        assert(f.remove(i).drop_last() =~= f.drop_last().remove(i));
        assert(f.remove(i).last() == f.last());
    }
}

/// Putting a tree at the end of a forest raises the total by its root
/// frequency.
pub proof fn lemma_total_push(f: Seq<HuffmanTree>, t: HuffmanTree)
    ensures
        total_freq(f.push(t)) == total_freq(f) + t.root_freq(),
{
    assert(f.push(t).drop_last() =~= f);
}

/// One merge step keeps the total and shortens the forest by one.
pub proof fn lemma_merge_step(f: Seq<HuffmanTree>)
    requires
        f.len() >= 2,
        total_freq(f) <= u32::MAX,
    ensures
        merge_step(f).len() == f.len() - 1,
        total_freq(merge_step(f)) == total_freq(f),
{
    let i = min_index(f);
    lemma_min_index(f);
    let g = f.remove(i);
    let j = min_index(g);
    lemma_min_index(g);
    lemma_total_remove(f, i);
    lemma_total_remove(g, j);
    lemma_total_push(g.remove(j), join(f[i], g[j]));
}

/// Merging keeps the total: the root frequency of the merged tree is the
/// total of the forest.
pub proof fn lemma_total_tree(f: Seq<HuffmanTree>)
    requires
        f.len() >= 1,
        total_freq(f) <= u32::MAX,
    ensures
        huffman(f).root_freq() == total_freq(f),
    decreases f.len(),
{
    if f.len() == 1 {
        assert(f.drop_last().len() == 0);
        assert(total_freq(f.drop_last()) == 0);
    } else {
        lemma_merge_step(f);
        lemma_total_tree(merge_step(f));
    }
}

/// Where the tree at position `k` of the forest after a merge step stood
/// before: the two trees that were joined are skipped.
pub open spec fn source(f: Seq<HuffmanTree>, k: int) -> int {
    let i = min_index(f);
    let j = min_index(f.remove(i));
    let k1 = if k < j {
        k
    } else {
        k + 1
    };
    if k1 < i {
        k1
    } else {
        k1 + 1
    }
}

/// The position in the forest of the tree that a merge step takes second.
pub open spec fn second_index(f: Seq<HuffmanTree>) -> int {
    let i = min_index(f);
    let j = min_index(f.remove(i));
    if j < i {
        j
    } else {
        j + 1
    }
}

/// What a merge step does, by positions: the last tree of the new forest
/// joins the two that were taken, and each other tree stood at its source.
pub proof fn lemma_merge_step_positions(f: Seq<HuffmanTree>)
    requires
        f.len() >= 2,
    ensures
        merge_step(f).len() == f.len() - 1,
        0 <= min_index(f) < f.len(),
        0 <= second_index(f) < f.len(),
        min_index(f) != second_index(f),
        merge_step(f).last() == join(f[min_index(f)], f[second_index(f)]),
        forall|k: int|
            0 <= k < f.len() - 2 ==> {
                &&& 0 <= #[trigger] source(f, k) < f.len()
                &&& source(f, k) != min_index(f)
                &&& source(f, k) != second_index(f)
                &&& merge_step(f)[k] == f[source(f, k)]
            },
        forall|k: int, n: int| 0 <= k < n < f.len() - 2 ==> source(f, k) < source(f, n),
{
    let i = min_index(f);
    lemma_min_index(f);
    let rest = f.remove(i);
    let j = min_index(rest);
    lemma_min_index(rest);
    let m = merge_step(f);
    assert(rest[j] == f[second_index(f)]);
    assert forall|k: int| 0 <= k < f.len() - 2 implies {
        &&& 0 <= #[trigger] source(f, k) < f.len()
        &&& source(f, k) != min_index(f)
        &&& source(f, k) != second_index(f)
        &&& merge_step(f)[k] == f[source(f, k)]
    } by {
        let k1 = if k < j {
            k
        } else {
            k + 1
        };
        assert(m[k] == rest[k1]);
        assert(rest[k1] == f[source(f, k)]);
    }
}

/// What a measure `g` of trees gives for the trees of a forest together.
pub open spec fn forest_sum<A>(f: Seq<HuffmanTree>, g: spec_fn(HuffmanTree) -> Multiset<A>) -> Multiset<A>
    decreases f.len(),
{
    if f.len() == 0 {
        Multiset::<A>::empty()
    } else {
        forest_sum(f.drop_last(), g).add(g(f.last()))
    }
}

/// Whether a measure of trees gives for a joined tree what it gives for the
/// two parts together.
pub open spec fn additive<A>(g: spec_fn(HuffmanTree) -> Multiset<A>) -> bool {
    forall|l: HuffmanTree, r: HuffmanTree, freq: u32|
        #[trigger] g(HuffmanTree::Node { freq, l: Box::new(l), r: Box::new(r) }) == g(l).add(g(r))
}

/// The leaves of a tree, as a measure of trees.
pub open spec fn leaf_bag() -> spec_fn(HuffmanTree) -> Multiset<(char, nat)> {
    |t: HuffmanTree| t.leaves().to_multiset()
}

/// The leaf frequencies of a tree, as a measure of trees.
pub open spec fn weight_bag() -> spec_fn(HuffmanTree) -> Multiset<nat> {
    |t: HuffmanTree| t.leaf_weights()
}

/// The leaves of a joined tree are those of its two parts.
pub proof fn lemma_bags_additive()
    ensures
        additive(leaf_bag()),
        additive(weight_bag()),
{
    assert forall|l: HuffmanTree, r: HuffmanTree, freq: u32|
        #[trigger] leaf_bag()(HuffmanTree::Node { freq, l: Box::new(l), r: Box::new(r) })
            == leaf_bag()(l).add(leaf_bag()(r)) by {
        vstd::seq_lib::lemma_multiset_commutative(l.leaves(), r.leaves());
    }
}

/// Whether every tree of a forest is well-formed.
pub open spec fn forest_wf(f: Seq<HuffmanTree>) -> bool {
    forall|i: int| 0 <= i < f.len() ==> (#[trigger] f[i]).wf()
}

/// Whether some tree of a forest holds the symbol with scalar value `k`.
pub open spec fn forest_has_code(f: Seq<HuffmanTree>, k: u32) -> bool {
    exists|i: int| 0 <= i < f.len() && (#[trigger] f[i]).has_code(k)
}

/// Taking a tree out of a forest takes its measure out of the sum.
pub proof fn lemma_sum_remove<A>(f: Seq<HuffmanTree>, g: spec_fn(HuffmanTree) -> Multiset<A>, i: int)
    requires
        0 <= i < f.len(),
    ensures
        forest_sum(f.remove(i), g).add(g(f[i])) == forest_sum(f, g),
    decreases f.len(),
{
    if i == f.len() - 1 {
        assert(f.remove(i) =~= f.drop_last());
    } else {
        lemma_sum_remove(f.drop_last(), g, i);
        assert(f.remove(i).drop_last() =~= f.drop_last().remove(i));
        assert(f.remove(i).last() == f.last());
        assert(forest_sum(f.remove(i), g).add(g(f[i])) =~= forest_sum(f, g));
    }
}

/// One merge step keeps the sum of an additive measure.
pub proof fn lemma_merge_step_sum<A>(f: Seq<HuffmanTree>, g: spec_fn(HuffmanTree) -> Multiset<A>)
    requires
        f.len() >= 2,
        additive(g),
    ensures
        forest_sum(merge_step(f), g) == forest_sum(f, g),
{
    let i = min_index(f);
    lemma_min_index(f);
    let rest = f.remove(i);
    let j = min_index(rest);
    lemma_min_index(rest);
    lemma_sum_remove(f, g, i);
    lemma_sum_remove(rest, g, j);
    let joined = join(f[i], rest[j]);
    assert(merge_step(f).drop_last() =~= rest.remove(j));
    assert(g(joined) =~= g(f[i]).add(g(rest[j])));
    assert(forest_sum(merge_step(f), g) =~= forest_sum(f, g));
}

/// For an additive measure, the merged tree has the sum over the forest.
pub proof fn lemma_huffman_sum<A>(f: Seq<HuffmanTree>, g: spec_fn(HuffmanTree) -> Multiset<A>)
    requires
        f.len() >= 1,
        additive(g),
    ensures
        g(huffman(f)) == forest_sum(f, g),
    decreases f.len(),
{
    if f.len() == 1 {
        assert(f.drop_last().len() == 0);
        assert(forest_sum(f.drop_last(), g) =~= Multiset::<A>::empty());
        assert(forest_sum(f, g) =~= g(f[0]));
    } else {
        lemma_min_index(f);
        lemma_min_index(f.remove(min_index(f)));
        lemma_merge_step_sum(f, g);
        lemma_huffman_sum(merge_step(f), g);
    }
}

/// One merge step keeps a well-formed forest well-formed.
pub proof fn lemma_merge_step_wf(f: Seq<HuffmanTree>)
    requires
        f.len() >= 2,
        total_freq(f) <= u32::MAX,
        forest_wf(f),
    ensures
        forest_wf(merge_step(f)),
{
    let i = min_index(f);
    let j = second_index(f);
    let m = merge_step(f);
    lemma_merge_step_positions(f);
    lemma_total_remove(f, i);
    lemma_total_remove(f.remove(i), min_index(f.remove(i)));
    assert(join(f[i], f[j]).wf());
    assert forall|k: int| 0 <= k < m.len() implies (#[trigger] m[k]).wf() by {
        if k < m.len() - 1 {
            assert(m[k] == f[source(f, k)]);
        }
    }
}

/// Merging a well-formed forest gives a well-formed tree.
pub proof fn lemma_huffman_wf(f: Seq<HuffmanTree>)
    requires
        f.len() >= 1,
        total_freq(f) <= u32::MAX,
        forest_wf(f),
    ensures
        huffman(f).wf(),
    decreases f.len(),
{
    if f.len() > 1 {
        lemma_merge_step(f);
        lemma_merge_step_wf(f);
        lemma_huffman_wf(merge_step(f));
    }
}

/// Whether a predicate on trees holds of a joined tree whenever it holds of
/// the two parts.
pub open spec fn kept_by_join(holds: spec_fn(HuffmanTree) -> bool) -> bool {
    forall|l: HuffmanTree, r: HuffmanTree, freq: u32|
        holds(l) && holds(r) ==> #[trigger] holds(
            HuffmanTree::Node { freq, l: Box::new(l), r: Box::new(r) },
        )
}

/// A predicate that joining keeps, and that holds of every tree of a
/// forest, holds of the merged tree.
pub proof fn lemma_huffman_keeps(f: Seq<HuffmanTree>, holds: spec_fn(HuffmanTree) -> bool)
    requires
        f.len() >= 1,
        kept_by_join(holds),
        forall|i: int| 0 <= i < f.len() ==> holds(#[trigger] f[i]),
    ensures
        holds(huffman(f)),
    decreases f.len(),
{
    if f.len() > 1 {
        let m = merge_step(f);
        lemma_merge_step_positions(f);
        assert(holds(f[min_index(f)]) && holds(f[second_index(f)]));
        assert(holds(join(f[min_index(f)], f[second_index(f)])));
        assert forall|k: int| 0 <= k < m.len() implies holds(#[trigger] m[k]) by {
            if k < m.len() - 1 {
                assert(m[k] == f[source(f, k)]);
            }
        }
        lemma_huffman_keeps(m, holds);
    }
}

/// One merge step keeps the symbols of a forest.
pub proof fn lemma_merge_step_has_code(f: Seq<HuffmanTree>, k: u32)
    requires
        f.len() >= 2,
    ensures
        forest_has_code(merge_step(f), k) <==> forest_has_code(f, k),
{
    let i = min_index(f);
    lemma_min_index(f);
    let rest = f.remove(i);
    let j = min_index(rest);
    lemma_min_index(rest);
    let j0 = if j < i { j } else { j + 1 };
    assert(rest[j] == f[j0]);
    let m = merge_step(f);
    assert(m.last() == join(f[i], f[j0]));
    assert(m.last().has_code(k) <==> f[i].has_code(k) || f[j0].has_code(k));
    if forest_has_code(m, k) {
        let x = choose|x: int| 0 <= x < m.len() && (#[trigger] m[x]).has_code(k);
        if x < m.len() - 1 {
            let x1 = if x < j { x } else { x + 1 };
            assert(m[x] == rest[x1]);
            let x2 = if x1 < i { x1 } else { x1 + 1 };
            assert(rest[x1] == f[x2]);
            assert(f[x2].has_code(k));
        } else {
            assert(f[i].has_code(k) || f[j0].has_code(k));
        }
    }
    if forest_has_code(f, k) {
        let x = choose|x: int| 0 <= x < f.len() && (#[trigger] f[x]).has_code(k);
        if x == i || x == j0 {
            assert(m[m.len() - 1].has_code(k));
        } else {
            let x1 = if x < i { x } else { x - 1 };
            assert(rest[x1] == f[x]);
            let x2 = if x1 < j { x1 } else { x1 - 1 };
            assert(m[x2] == rest[x1]);
            assert(m[x2].has_code(k));
        }
    }
}

/// The merged tree holds the symbols of the forest, and no others.
pub proof fn lemma_huffman_has_code(f: Seq<HuffmanTree>, k: u32)
    requires
        f.len() >= 1,
    ensures
        huffman(f).has_code(k) <==> forest_has_code(f, k),
    decreases f.len(),
{
    if f.len() == 1 {
        if forest_has_code(f, k) {
            let x = choose|x: int| 0 <= x < f.len() && (#[trigger] f[x]).has_code(k);
            assert(x == 0);
        }
        if f[0].has_code(k) {
            assert(forest_has_code(f, k));
        }
    } else {
        lemma_min_index(f);
        lemma_min_index(f.remove(min_index(f)));
        lemma_merge_step_has_code(f, k);
        lemma_huffman_has_code(merge_step(f), k);
    }
}

/// A forest of two trees or more is merged into a tree with an inner node
/// at the root; a single tree stays as it is.
pub proof fn lemma_huffman_root(f: Seq<HuffmanTree>)
    requires
        f.len() >= 1,
    ensures
        f.len() == 1 ==> huffman(f) == f[0],
        f.len() >= 2 ==> huffman(f) is Node,
    decreases f.len(),
{
    if f.len() >= 2 {
        lemma_min_index(f);
        lemma_min_index(f.remove(min_index(f)));
        let m = merge_step(f);
        assert(m.last() is Node);
        lemma_huffman_node_kept(m);
    }
}

/// A forest that ends in a tree with an inner node at the root is merged
/// into such a tree.
pub proof fn lemma_huffman_node_kept(f: Seq<HuffmanTree>)
    requires
        f.len() >= 1,
        f.last() is Node,
    ensures
        huffman(f) is Node,
    decreases f.len(),
{
    if f.len() >= 2 {
        lemma_min_index(f);
        lemma_min_index(f.remove(min_index(f)));
        let m = merge_step(f);
        assert(m.last() is Node);
        lemma_huffman_node_kept(m);
    }
}

/// The position of the first tree of least root frequency; 0 in an empty
/// forest.
pub fn min_position(forest: &Vec<HuffmanTree>) -> (best: usize)
    ensures
        best == min_index(forest@),
        forest@.len() > 0 ==> best < forest@.len(),
{
    let mut best: usize = 0;
    let mut k: usize = 1;
    if forest.len() == 0 {
        return 0;
    }
    proof {
        assert(forest@.take(1).len() == 1);
    }
    while k < forest.len()
        invariant
            1 <= k <= forest@.len(),
            best < k,
            best == min_index(forest@.take(k as int)),
        decreases forest@.len() - k,
    {
        proof {
            assert(forest@.take(k + 1).drop_last() =~= forest@.take(k as int));
        }
        if forest[k].root_frequency() < forest[best].root_frequency() {
            best = k;
        }
        k = k + 1;
    }
    proof {
        assert(forest@.take(k as int) =~= forest@);
    }
    best
}

impl HuffmanTree {
    /// Merges a forest into one tree: as long as two trees are left, the two
    /// of least root frequency are joined. An empty forest is refused. The
    /// tree has the leaves of the forest, and is well-formed if the trees of
    /// the forest are.
    pub fn merge_all(forest: Vec<HuffmanTree>) -> (res: Result<HuffmanTree, HuffmanError>)
        requires
            total_freq(forest@) <= u32::MAX,
        ensures
            forest@.len() == 0 ==> res == Err::<HuffmanTree, HuffmanError>(HuffmanError::EmptyInput),
            forest@.len() > 0 ==> res == Ok::<HuffmanTree, HuffmanError>(huffman(forest@)),
            res matches Ok(t) ==> t.leaves().to_multiset() == forest_sum(forest@, leaf_bag()),
            res matches Ok(t) ==> (forest_wf(forest@) ==> t.wf()),
    {
        let mut forest = forest;
        let ghost start = forest@;
        if forest.len() == 0 {
            return Err(HuffmanError::EmptyInput);
        }
        proof {
            lemma_bags_additive();
            lemma_huffman_sum(start, leaf_bag());
            if forest_wf(start) {
                lemma_huffman_wf(start);
            }
        }
        while forest.len() > 1
            invariant
                forest@.len() >= 1,
                total_freq(forest@) <= u32::MAX,
                huffman(forest@) == huffman(start),
            decreases forest@.len(),
        {
            let ghost before = forest@;
            proof {
                lemma_merge_step(before);
                lemma_min_index(before);
                lemma_total_remove(before, min_index(before));
                lemma_min_index(before.remove(min_index(before)));
                lemma_total_remove(
                    before.remove(min_index(before)),
                    min_index(before.remove(min_index(before))),
                );
            }
            let i = min_position(&forest);
            let first = forest.remove(i);
            let j = min_position(&forest);
            let second = forest.remove(j);
            let f: u32 = first.root_frequency() + second.root_frequency();
            let (max, min) = max_and_min(first, second);
            let tree = HuffmanTree::Node { freq: f, l: Box::new(max), r: Box::new(min) };
            forest.push(tree);
            proof {
                assert(forest@ =~= merge_step(before));
            }
        }
        let last = forest.remove(0);
        Ok(last)
    }
}

} // verus!
