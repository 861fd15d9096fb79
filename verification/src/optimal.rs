//! Merging gives a tree of least cost: no code tree for the same leaf
//! frequencies has a smaller weighted path length.

use crate::exchange::{at_most_all, lemma_merge_least};
use crate::forest::{
    forest_sum, forest_wf, huffman, join, lemma_bags_additive, lemma_huffman_sum,
    lemma_merge_step, lemma_merge_step_wf, lemma_min_index, lemma_sum_remove, merge_step,
    min_index, total_freq, weight_bag,
};
use crate::huffman_tree::HuffmanTree;
use crate::shape::Shape;
use vstd::multiset::Multiset;
use vstd::prelude::*;

verus! {

/// The weighted tree that is left of a code tree when symbols and stored
/// sums are dropped.
pub open spec fn shape_of(t: HuffmanTree) -> Shape
    decreases t,
{
    match t {
        HuffmanTree::Node { l, r, .. } => Shape::Fork {
            l: Box::new(shape_of(*l)),
            r: Box::new(shape_of(*r)),
        },
        HuffmanTree::Leaf { freq, .. } => Shape::Tip { w: freq as nat },
    }
}

/// The weight of a tree as a collection of one member, as a measure of
/// trees.
pub open spec fn weight_unit() -> spec_fn(HuffmanTree) -> Multiset<nat> {
    |t: HuffmanTree| Multiset::<nat>::singleton(t.weight())
}

/// The sum of the costs of the trees of a forest.
pub open spec fn forest_cost(f: Seq<HuffmanTree>) -> nat
    decreases f.len(),
{
    if f.len() == 0 {
        0
    } else {
        forest_cost(f.drop_last()) + f.last().cost()
    }
}

/// Whether every tree of a forest is a leaf.
pub open spec fn all_leaves(f: Seq<HuffmanTree>) -> bool {
    forall|i: int| 0 <= i < f.len() ==> (#[trigger] f[i]) is Leaf
}

/// A code tree and its weighted tree agree in leaves, weight and cost, at
/// whatever depth the cost is taken.
pub proof fn lemma_shape_of(t: HuffmanTree, depth: nat)
    ensures
        shape_of(t).leaf_weights() == t.leaf_weights(),
        shape_of(t).weight() == t.weight(),
        t.cost_at(depth) == shape_of(t).cost() + depth * t.weight(),
    decreases t,
{
    match t {
        HuffmanTree::Node { l, r, .. } => {
            lemma_shape_of(*l, depth + 1);
            lemma_shape_of(*r, depth + 1);
            let wl = l.weight();
            let wr = r.weight();
            assert((depth + 1) * wl + (depth + 1) * wr == depth * (wl + wr) + wl + wr)
                by (nonlinear_arith);
            assert(t.weight() == wl + wr);
            assert(t.cost_at(depth) == l.cost_at(depth + 1) + r.cost_at(depth + 1));
            assert(shape_of(t).cost() == shape_of(*l).cost() + shape_of(*r).cost() + wl + wr);
        },
        HuffmanTree::Leaf { freq, .. } => {
            assert(freq as nat * depth == depth * (freq as nat)) by (nonlinear_arith);
        },
    }
}

/// The cost of a code tree is that of its weighted tree.
pub proof fn lemma_cost(t: HuffmanTree)
    ensures
        t.cost() == shape_of(t).cost(),
{
    lemma_shape_of(t, 0);
}

/// The cost of a joined tree: the costs and the weights of its two parts.
pub proof fn lemma_join_cost(a: HuffmanTree, b: HuffmanTree)
    ensures
        join(a, b).cost() == a.cost() + b.cost() + a.weight() + b.weight(),
        join(a, b).weight() == a.weight() + b.weight(),
{
    lemma_cost(join(a, b));
    lemma_cost(a);
    lemma_cost(b);
    lemma_shape_of(a, 0);
    lemma_shape_of(b, 0);
}

/// Taking a tree out of a forest lowers the cost of the forest by its cost.
pub proof fn lemma_cost_remove(f: Seq<HuffmanTree>, i: int)
    requires
        0 <= i < f.len(),
    ensures
        forest_cost(f.remove(i)) + f[i].cost() == forest_cost(f),
    decreases f.len(),
{
    if i == f.len() - 1 {
        assert(f.remove(i) =~= f.drop_last());
    } else {
        lemma_cost_remove(f.drop_last(), i);
        assert(f.remove(i).drop_last() =~= f.drop_last().remove(i));
        assert(f.remove(i).last() == f.last());
    }
}

/// A weight that the forest holds is the weight of one of its trees: the
/// position returned is that of one.
pub proof fn lemma_weight_member(f: Seq<HuffmanTree>, w: nat) -> (k: int)
    requires
        forest_sum(f, weight_unit()).count(w) >= 1,
    ensures
        0 <= k < f.len(),
        f[k].weight() == w,
    decreases f.len(),
{
    if f.len() == 0 {
        0
    } else if f.last().weight() == w {
        f.len() - 1
    } else {
        let k = lemma_weight_member(f.drop_last(), w);
        assert(f.drop_last()[k] == f[k]);
        k
    }
}

/// In a well-formed forest the tree at `min_index` has the least weight.
pub proof fn lemma_min_weight(f: Seq<HuffmanTree>)
    requires
        f.len() >= 1,
        forest_wf(f),
    ensures
        forest_sum(f, weight_unit()).count(f[min_index(f)].weight()) >= 1,
        at_most_all(f[min_index(f)].weight(), forest_sum(f, weight_unit())),
{
    let i = min_index(f);
    lemma_min_index(f);
    lemma_sum_remove(f, weight_unit(), i);
    f[i].lemma_wf_weight();
    assert forall|w: nat| forest_sum(f, weight_unit()).count(w) >= 1 implies f[i].weight()
        <= w by {
        let k = lemma_weight_member(f, w);
        f[k].lemma_wf_weight();
    }
}

/// The forest theorem: the tree that a well-formed forest is merged into
/// costs no more than the trees of the forest together with any weighted
/// tree that has the weights of these trees on its leaves.
pub proof fn lemma_merge_least_cost(f: Seq<HuffmanTree>, u: Shape)
    requires
        f.len() >= 1,
        forest_wf(f),
        total_freq(f) <= u32::MAX,
        u.leaf_weights() == forest_sum(f, weight_unit()),
    ensures
        huffman(f).cost() <= forest_cost(f) + u.cost(),
    decreases f.len(),
{
    let unit = weight_unit();
    if f.len() == 1 {
        assert(f.drop_last().len() == 0);
        assert(forest_cost(f.drop_last()) == 0);
    } else {
        let i = min_index(f);
        lemma_min_index(f);
        let g = f.remove(i);
        let j = min_index(g);
        lemma_min_index(g);
        let h = g.remove(j);
        let a = f[i].weight();
        let b = g[j].weight();
        let m = merge_step(f);
        assert forall|k: int| 0 <= k < g.len() implies (#[trigger] g[k]).wf() by {
            assert(g[k] == f[if k < i { k } else { k + 1 }]);
        }
        lemma_min_weight(f);
        lemma_min_weight(g);
        lemma_sum_remove(f, unit, i);
        lemma_sum_remove(g, unit, j);
        let w_f = forest_sum(f, unit);
        let w_g = forest_sum(g, unit);
        let w_h = forest_sum(h, unit);
        assert(w_f.remove(a) =~= w_g);
        assert(w_g.remove(b) =~= w_h);
        let v = lemma_merge_least(u, a, b);
        lemma_join_cost(f[i], g[j]);
        assert(m.drop_last() =~= h);
        assert(m.last() == join(f[i], g[j]));
        assert(forest_sum(m, unit) =~= w_h.insert(a + b));
        lemma_cost_remove(f, i);
        lemma_cost_remove(g, j);
        assert(forest_cost(m) == forest_cost(h) + join(f[i], g[j]).cost());
        lemma_merge_step(f);
        lemma_merge_step_wf(f);
        lemma_merge_least_cost(m, v);
    }
}

/// In a forest of leaves the trees cost nothing, and their weights are
/// their leaf frequencies.
pub proof fn lemma_leaf_forest_measures(f: Seq<HuffmanTree>)
    requires
        all_leaves(f),
    ensures
        forest_cost(f) == 0,
        forest_sum(f, weight_unit()) == forest_sum(f, weight_bag()),
    decreases f.len(),
{
    if f.len() > 0 {
        assert forall|i: int| 0 <= i < f.drop_last().len() implies (#[trigger] f.drop_last()[i]) is Leaf by {
            assert(f.drop_last()[i] == f[i]);
        }
        lemma_leaf_forest_measures(f.drop_last());
        assert(f[f.len() - 1] is Leaf);
    }
}

/// Least cost: the tree that a forest of leaves with positive frequencies
/// is merged into has the least weighted path length of all code trees whose
/// leaves carry the same frequencies.
pub proof fn lemma_huffman_optimal(f: Seq<HuffmanTree>, u: HuffmanTree)
    requires
        f.len() >= 1,
        all_leaves(f),
        forest_wf(f),
        total_freq(f) <= u32::MAX,
        u.leaf_weights() == huffman(f).leaf_weights(),
    ensures
        huffman(f).cost() <= u.cost(),
{
    lemma_leaf_forest_measures(f);
    lemma_bags_additive();
    lemma_huffman_sum(f, weight_bag());
    lemma_shape_of(u, 0);
    lemma_merge_least_cost(f, shape_of(u));
}

} // verus!
