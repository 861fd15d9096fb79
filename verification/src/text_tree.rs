//! The code tree of a text, and what holds of it.

use crate::forest::{
    forest_has_code, forest_sum, huffman, leaf_bag, lemma_bags_additive, lemma_huffman_has_code,
    lemma_huffman_root, lemma_huffman_sum, lemma_huffman_wf, lemma_total_tree,
};
use crate::frequency::{
    count, has_code, leaf_forest, leaf_of, leaves_for, leaves_of, lemma_code_injective,
    lemma_count_bounds, lemma_symbols, lemma_total_leaf_forest, symbols,
};
use crate::huffman_tree::{HuffmanError, HuffmanTree};
use crate::optimal::lemma_huffman_optimal;
use vstd::multiset::Multiset;
use vstd::prelude::*;

verus! {

/// Each symbol of `syms` with the number of its occurrences in `s`.
pub open spec fn counts_for(syms: Seq<char>, s: Seq<char>) -> Seq<(char, nat)> {
    Seq::new(syms.len(), |i: int| (syms[i], count(s, syms[i])))
}

/// The distinct symbols of a text in the order of first occurrence, each
/// with the number of its occurrences.
pub open spec fn symbol_counts(s: Seq<char>) -> Seq<(char, nat)> {
    counts_for(symbols(s), s)
}

/// The code tree of a text: its leaf forest, merged.
pub open spec fn tree_of(s: Seq<char>) -> HuffmanTree {
    huffman(leaf_forest(s))
}

/// The leaves of the forest made for the symbols `syms` are these symbols
/// with their counts.
pub proof fn lemma_leaves_for(syms: Seq<char>, s: Seq<char>)
    requires
        s.len() <= u32::MAX,
    ensures
        forest_sum(leaves_for(syms, s), leaf_bag()) == counts_for(syms, s).to_multiset(),
    decreases syms.len(),
{
    broadcast use vstd::seq_lib::group_to_multiset_ensures;

    let f = leaves_for(syms, s);
    let p = counts_for(syms, s);
    if syms.len() == 0 {
        assert(p =~= Seq::<(char, nat)>::empty());
        assert(p.to_multiset() =~= Multiset::<(char, nat)>::empty());
    } else {
        let q = syms.drop_last();
        let c = syms.last();
        lemma_leaves_for(q, s);
        lemma_count_bounds(s, c as u32);
        assert(f.drop_last() =~= leaves_for(q, s));
        assert(f.last() == leaf_of(s, c));
        assert(p =~= counts_for(q, s).push((c, count(s, c))));
        let one = seq![(c, count(s, c))];
        assert(one =~= Seq::<(char, nat)>::empty().push((c, count(s, c))));
        assert(Seq::<(char, nat)>::empty().to_multiset() =~= Multiset::<(char, nat)>::empty());
        assert(f.last().leaves() == one);
        assert(forest_sum(f, leaf_bag()) =~= p.to_multiset());
    }
}

/// What holds of the code tree of a text that is not empty: it is
/// well-formed; its leaves are the distinct symbols of the text, each once
/// and with the number of its occurrences; and it is a single leaf if and
/// only if the text holds one symbol only.
pub proof fn lemma_tree_of(s: Seq<char>)
    requires
        0 < s.len() <= u32::MAX,
    ensures
        tree_of(s).wf(),
        tree_of(s).leaves().to_multiset() == symbol_counts(s).to_multiset(),
        tree_of(s).weight() == s.len(),
        forall|c: char| tree_of(s).has_symbol(c) <==> s.contains(c),
        tree_of(s) is Leaf <==> symbols(s).len() == 1,
{
    let f = leaf_forest(s);
    lemma_symbols(s);
    lemma_total_leaf_forest(s);
    assert forall|i: int| 0 <= i < f.len() implies (#[trigger] f[i]).wf() by {
        let c = symbols(s)[i];
        assert(symbols(s).contains(c));
        lemma_count_bounds(s, c as u32);
    }
    lemma_huffman_wf(f);
    lemma_bags_additive();
    lemma_huffman_sum(f, leaf_bag());
    lemma_leaves_for(symbols(s), s);
    lemma_huffman_root(f);
    tree_of(s).lemma_wf_weight();
    lemma_total_tree(f);
    assert forall|c: char| tree_of(s).has_symbol(c) <==> s.contains(c) by {
        let k = c as u32;
        lemma_huffman_has_code(f, k);
        if forest_has_code(f, k) {
            let i = choose|i: int| 0 <= i < f.len() && (#[trigger] f[i]).has_code(k);
            lemma_code_injective(symbols(s)[i], c);
            assert(symbols(s).contains(c));
        }
        if symbols(s).contains(c) {
            let i = choose|i: int| 0 <= i < symbols(s).len() && symbols(s)[i] == c;
            assert(f[i].has_code(k));
        }
        if has_code(s, k) {
            let i = choose|i: int| 0 <= i < s.len() && #[trigger] s[i] as u32 == k;
            lemma_code_injective(s[i], c);
        }
        if s.contains(c) {
            let i = choose|i: int| 0 <= i < s.len() && s[i] == c;
            assert(s[i] as u32 == k);
        }
    }
}

/// Least cost for a text: its code tree has the least weighted path length
/// of all code trees whose leaves carry the same frequencies.
pub proof fn lemma_tree_of_optimal(s: Seq<char>, u: HuffmanTree)
    requires
        0 < s.len() <= u32::MAX,
        u.leaf_weights() == tree_of(s).leaf_weights(),
    ensures
        tree_of(s).cost() <= u.cost(),
{
    let f = leaf_forest(s);
    lemma_symbols(s);
    lemma_total_leaf_forest(s);
    assert forall|i: int| 0 <= i < f.len() implies (#[trigger] f[i]).wf() by {
        let c = symbols(s)[i];
        assert(symbols(s).contains(c));
        lemma_count_bounds(s, c as u32);
    }
    lemma_huffman_optimal(f, u);
}

impl HuffmanTree {
    /// The code tree of a text: its leaf forest, merged. A text without
    /// symbols has no tree.
    pub fn new(s: &str) -> (res: Result<HuffmanTree, HuffmanError>)
        requires
            s@.len() <= u32::MAX,
        ensures
            s@.len() == 0 ==> res == Err::<HuffmanTree, HuffmanError>(HuffmanError::EmptyInput),
            s@.len() > 0 ==> res == Ok::<HuffmanTree, HuffmanError>(tree_of(s@)),
            res matches Ok(t) ==> t.wf() && t.leaves().to_multiset() == symbol_counts(
                s@,
            ).to_multiset(),
            res matches Ok(t) ==> forall|u: HuffmanTree|
                u.leaf_weights() == t.leaf_weights() ==> t.cost() <= #[trigger] u.cost(),
    {
        let leaves = leaves_of(s);
        proof {
            lemma_total_leaf_forest(s@);
            lemma_symbols(s@);
            if s@.len() > 0 {
                lemma_tree_of(s@);
                assert forall|u: HuffmanTree|
                    u.leaf_weights() == tree_of(s@).leaf_weights() implies tree_of(s@).cost()
                    <= #[trigger] u.cost() by {
                    lemma_tree_of_optimal(s@, u);
                }
            }
        }
        HuffmanTree::merge_all(leaves)
    }
}

} // verus!
