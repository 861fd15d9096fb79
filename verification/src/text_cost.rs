//! What a text costs in a tree: for each leaf, its depth times the number
//! of occurrences of its symbol. Where no symbol stands on two leaves this
//! is the sum of the lengths of the codes of the text's symbols.

use crate::codec::code_len;
use crate::forest::{
    huffman, join, kept_by_join, lemma_huffman_keeps, lemma_merge_step_positions, merge_step,
    min_index, second_index, source,
};
use crate::frequency::{
    count, leaf_forest, leaf_of, lemma_code_injective, lemma_count_bounds, lemma_symbols, symbols,
};
use crate::huffman_tree::HuffmanTree;
use crate::text_tree::{lemma_tree_of, tree_of};
use vstd::prelude::*;

verus! {

impl HuffmanTree {
    /// Whether each leaf carries the number of occurrences of its symbol
    /// in `s` as frequency.
    pub open spec fn counts(self, s: Seq<char>) -> bool
        decreases self,
    {
        match self {
            HuffmanTree::Node { l, r, .. } => l.counts(s) && r.counts(s),
            HuffmanTree::Leaf { char, freq } => freq == count(s, char),
        }
    }

    /// The depth of the leaf that gives the symbol `c` its code, for a
    /// tree whose root lies at depth `depth`.
    pub open spec fn code_depth(self, c: char, depth: nat) -> nat
        decreases self,
    {
        match self {
            HuffmanTree::Node { l, r, .. } => if r.has_symbol(c) {
                r.code_depth(c, depth + 1)
            } else {
                l.code_depth(c, depth + 1)
            },
            HuffmanTree::Leaf { .. } => depth,
        }
    }

    /// The sum over the leaves of depth times the number of occurrences of
    /// the leaf's symbol in `s`, for a tree whose root lies at depth `depth`.
    pub open spec fn text_cost(self, s: Seq<char>, depth: nat) -> nat
        decreases self,
    {
        match self {
            HuffmanTree::Node { l, r, .. } => l.text_cost(s, depth + 1) + r.text_cost(s, depth + 1),
            HuffmanTree::Leaf { char, .. } => count(s, char) * depth,
        }
    }

    /// The code of a symbol is as long as its leaf lies deep.
    pub proof fn lemma_code_depth(self, prefix: Seq<bool>, c: char)
        requires
            self.has_symbol(c),
        ensures
            self.codes_from(prefix).contains_key(c),
            self.codes_from(prefix)[c].len() == self.code_depth(c, prefix.len()),
        decreases self,
    {
        self.lemma_codes_dom(prefix, c);
        match self {
            HuffmanTree::Node { l, r, .. } => {
                l.lemma_codes_dom(prefix.push(false), c);
                r.lemma_codes_dom(prefix.push(true), c);
                if r.has_symbol(c) {
                    r.lemma_code_depth(prefix.push(true), c);
                } else {
                    l.lemma_code_depth(prefix.push(false), c);
                }
            },
            HuffmanTree::Leaf { char, .. } => {
                lemma_code_injective(char, c);
            },
        }
    }

    /// Where each leaf carries the count of its symbol, the text cost is
    /// the weighted path length.
    pub proof fn lemma_text_cost(self, s: Seq<char>, depth: nat)
        requires
            self.counts(s),
        ensures
            self.text_cost(s, depth) == self.cost_at(depth),
        decreases self,
    {
        match self {
            HuffmanTree::Node { l, r, .. } => {
                l.lemma_text_cost(s, depth + 1);
                r.lemma_text_cost(s, depth + 1);
            },
            HuffmanTree::Leaf { .. } => {},
        }
    }

    /// In a tree with distinct symbols, one more symbol in the text raises
    /// the text cost by the length of its code, if the tree holds it.
    pub proof fn lemma_text_cost_push(self, s: Seq<char>, x: char, depth: nat)
        requires
            self.distinct(),
        ensures
            self.text_cost(s.push(x), depth) == self.text_cost(s, depth) + if self.has_symbol(x) {
                self.code_depth(x, depth)
            } else {
                0nat
            },
        decreases self,
    {
        match self {
            HuffmanTree::Node { l, r, .. } => {
                l.lemma_text_cost_push(s, x, depth + 1);
                r.lemma_text_cost_push(s, x, depth + 1);
                assert(!(l.has_code(x as u32) && r.has_code(x as u32)));
            },
            HuffmanTree::Leaf { char, .. } => {
                lemma_code_injective(char, x);
                assert(s.push(x).drop_last() =~= s);
                let n = count(s, char);
                let n1 = count(s.push(x), char);
                assert(n1 == n + if char == x { 1nat } else { 0nat });
                assert(n1 * depth == n * depth + if char == x { depth } else { 0nat })
                    by (nonlinear_arith)
                    requires
                        n1 == n + if char == x { 1nat } else { 0nat },
                ;
            },
        }
    }

    /// In a tree with distinct symbols, the codes of a text of symbols of
    /// the tree are as long together as its text cost.
    pub proof fn lemma_code_len_cost(self, s: Seq<char>)
        requires
            self.distinct(),
            forall|i: int| 0 <= i < s.len() ==> self.has_symbol(#[trigger] s[i]),
        ensures
            code_len(self.codes(), s) == self.text_cost(s, 0),
        decreases s.len(),
    {
        if s.len() > 0 {
            let p = s.drop_last();
            let x = s.last();
            assert forall|i: int| 0 <= i < p.len() implies self.has_symbol(#[trigger] p[i]) by {
                assert(p[i] == s[i]);
            }
            self.lemma_code_len_cost(p);
            assert(self.has_symbol(s[s.len() - 1]));
            self.lemma_code_depth(Seq::<bool>::empty(), x);
            self.lemma_text_cost_push(p, x, 0);
            assert(p.push(x) =~= s);
        } else {
            assert(s =~= Seq::<char>::empty());
            self.lemma_text_cost_empty(0);
        }
    }

    /// The empty text costs nothing.
    pub proof fn lemma_text_cost_empty(self, depth: nat)
        ensures
            self.text_cost(Seq::<char>::empty(), depth) == 0,
        decreases self,
    {
        match self {
            HuffmanTree::Node { l, r, .. } => {
                l.lemma_text_cost_empty(depth + 1);
                r.lemma_text_cost_empty(depth + 1);
            },
            HuffmanTree::Leaf { char, .. } => {
                assert(count(Seq::<char>::empty(), char) == 0);
                assert(0 * depth == 0);
            },
        }
    }
}


/// Each leaf carries the count of its symbol, as a predicate on trees.
pub open spec fn counting(s: Seq<char>) -> spec_fn(HuffmanTree) -> bool {
    |t: HuffmanTree| t.counts(s)
}

/// In the code tree of a text each leaf carries the count of its symbol.
pub proof fn lemma_tree_counts(s: Seq<char>)
    requires
        0 < s.len() <= u32::MAX,
    ensures
        tree_of(s).counts(s),
{
    let f = leaf_forest(s);
    lemma_symbols(s);
    assert(kept_by_join(counting(s)));
    assert forall|i: int| 0 <= i < f.len() implies counting(s)(#[trigger] f[i]) by {
        lemma_count_bounds(s, symbols(s)[i] as u32);
        assert(f[i] == leaf_of(s, symbols(s)[i]));
    }
    lemma_huffman_keeps(f, counting(s));
}

/// Whether no symbol stands on two leaves of a forest.
pub open spec fn forest_distinct(f: Seq<HuffmanTree>) -> bool {
    &&& forall|i: int| 0 <= i < f.len() ==> (#[trigger] f[i]).distinct()
    &&& forall|i: int, j: int, k: u32|
        0 <= i < f.len() && 0 <= j < f.len() && i != j ==> !(#[trigger] f[i].has_code(k)
            && #[trigger] f[j].has_code(k))
}

/// A merge step keeps the symbols of a forest distinct.
pub proof fn lemma_merge_step_distinct(f: Seq<HuffmanTree>)
    requires
        f.len() >= 2,
        forest_distinct(f),
    ensures
        forest_distinct(merge_step(f)),
{
    lemma_merge_step_positions(f);
    let m = merge_step(f);
    let i = min_index(f);
    let j = second_index(f);
    let n = m.len() - 1;
    assert(m[n] == join(f[i], f[j]));
    assert(m[n].distinct());
    assert forall|k: u32| #[trigger] m[n].has_code(k) <==> f[i].has_code(k) || f[j].has_code(k) by {}
    assert forall|x: int| 0 <= x < m.len() implies (#[trigger] m[x]).distinct() by {
        if x < n {
            assert(m[x] == f[source(f, x)]);
        }
    }
    assert forall|x: int, y: int, k: u32|
        0 <= x < m.len() && 0 <= y < m.len() && x != y implies !(#[trigger] m[x].has_code(k)
        && #[trigger] m[y].has_code(k)) by {
        if x < n && y < n {
            assert(m[x] == f[source(f, x)]);
            assert(m[y] == f[source(f, y)]);
            if x < y {
                assert(source(f, x) < source(f, y));
            } else {
                assert(source(f, y) < source(f, x));
            }
        } else {
            let z = if x < n {
                x
            } else {
                y
            };
            assert(m[z] == f[source(f, z)]);
            assert(m[n].has_code(k) <==> f[i].has_code(k) || f[j].has_code(k));
        }
    }
}

/// A forest with distinct symbols is merged into a tree with distinct
/// symbols.
pub proof fn lemma_huffman_distinct(f: Seq<HuffmanTree>)
    requires
        f.len() >= 1,
        forest_distinct(f),
    ensures
        huffman(f).distinct(),
    decreases f.len(),
{
    if f.len() >= 2 {
        lemma_merge_step_positions(f);
        lemma_merge_step_distinct(f);
        lemma_huffman_distinct(merge_step(f));
    }
}

/// In the code tree of a text no symbol stands on two leaves.
pub proof fn lemma_tree_of_distinct(s: Seq<char>)
    requires
        s.len() > 0,
    ensures
        tree_of(s).distinct(),
{
    let f = leaf_forest(s);
    lemma_symbols(s);
    assert forall|i: int, j: int, k: u32|
        0 <= i < f.len() && 0 <= j < f.len() && i != j implies !(#[trigger] f[i].has_code(k)
        && #[trigger] f[j].has_code(k)) by {
        assert(f[i] == leaf_of(s, symbols(s)[i]));
        assert(f[j] == leaf_of(s, symbols(s)[j]));
        lemma_code_injective(symbols(s)[i], symbols(s)[j]);
    }
    assert forall|i: int| 0 <= i < f.len() implies (#[trigger] f[i]).distinct() by {
        assert(f[i] == leaf_of(s, symbols(s)[i]));
    }
    lemma_huffman_distinct(f);
}

/// The weighted path length of the code tree of a text is the sum over the
/// symbols of the text of frequency times length of the code.
pub proof fn lemma_own_code_cost(s: Seq<char>)
    requires
        0 < s.len() <= u32::MAX,
    ensures
        code_len(tree_of(s).codes(), s) == tree_of(s).cost(),
{
    let t = tree_of(s);
    lemma_tree_of(s);
    lemma_tree_of_distinct(s);
    lemma_tree_counts(s);
    assert forall|i: int| 0 <= i < s.len() implies t.has_symbol(#[trigger] s[i]) by {
        assert(s.contains(s[i]));
    }
    t.lemma_code_len_cost(s);
    t.lemma_text_cost(s, 0);
}

} // verus!
