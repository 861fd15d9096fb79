//! The code of a text's own tree is the shortest among all prefix-free
//! codes: by the sum of frequency times length of the code word, and by
//! the number of bits that the text is encoded to.

use crate::codec::{code_len, encoded_len, lemma_encoded_len, lemma_encoded_plain};
use crate::forest::{forest_sum, weight_bag};
use crate::frequency::{
    count, leaf_forest, leaf_of, leaves_for, lemma_code_injective, lemma_count_bounds,
    lemma_symbols, lemma_total_leaf_forest, symbols,
};
use crate::optimal::{lemma_leaf_forest_measures, lemma_merge_least_cost};
use crate::paths::prefix_free;
use crate::prefix_tree::{lemma_code_tree, weighted_len, weights, Item};
use crate::text_cost::lemma_own_code_cost;
use crate::text_tree::{lemma_tree_of, tree_of};
use vstd::prelude::*;

verus! {

/// For each symbol of `syms` its code word, with the number of its
/// occurrences in `s` as weight.
pub open spec fn code_items(codes: Map<char, Seq<bool>>, syms: Seq<char>, s: Seq<char>) -> Seq<Item> {
    Seq::new(syms.len(), |i: int| (codes[syms[i]], count(s, syms[i])))
}

/// One more symbol in the text raises the weighted length of the code
/// words of a duplicate-free list of symbols by the length of its code
/// word, if it is on the list.
pub proof fn lemma_items_push(codes: Map<char, Seq<bool>>, syms: Seq<char>, s: Seq<char>, x: char)
    requires
        syms.no_duplicates(),
    ensures
        weighted_len(code_items(codes, syms, s.push(x))) == weighted_len(
            code_items(codes, syms, s),
        ) + if syms.contains(x) {
            codes[x].len()
        } else {
            0nat
        },
    decreases syms.len(),
{
    let t = s.push(x);
    assert(t.drop_last() =~= s);
    if syms.len() > 0 {
        let q = syms.drop_last();
        let c = syms.last();
        lemma_items_push(codes, q, s, x);
        lemma_code_injective(c, x);
        assert(code_items(codes, syms, t).drop_last() =~= code_items(codes, q, t));
        assert(code_items(codes, syms, s).drop_last() =~= code_items(codes, q, s));
        if q.contains(x) {
            let i = choose|i: int| 0 <= i < q.len() && q[i] == x;
            assert(syms[i] == x);
            assert(c != x);
        }
        if syms.contains(x) && c != x {
            let i = choose|i: int| 0 <= i < syms.len() && syms[i] == x;
            assert(q[i] == x);
        }
        if c == x {
            assert(syms[syms.len() - 1] == x);
        }
        let n = count(s, c);
        let n1 = count(t, c);
        let len = codes[c].len();
        assert(n1 * len == n * len + if c == x { len } else { 0nat }) by (nonlinear_arith)
            requires
                n1 == n + if c == x { 1nat } else { 0nat },
        ;
    }
}

/// The sum of the lengths of the codes of a text is the weighted length of
/// the code words of its symbols.
pub proof fn lemma_code_len_items(codes: Map<char, Seq<bool>>, s: Seq<char>)
    requires
        forall|i: int| 0 <= i < s.len() ==> codes.contains_key(#[trigger] s[i]),
    ensures
        code_len(codes, s) == weighted_len(code_items(codes, symbols(s), s)),
    decreases s.len(),
{
    if s.len() > 0 {
        let p = s.drop_last();
        let x = s.last();
        assert(p.push(x) =~= s);
        assert forall|i: int| 0 <= i < p.len() implies codes.contains_key(#[trigger] p[i]) by {
            assert(p[i] == s[i]);
        }
        lemma_code_len_items(codes, p);
        lemma_symbols(p);
        lemma_items_push(codes, symbols(p), p, x);
        assert(codes.contains_key(s[s.len() - 1]));
        if !symbols(p).contains(x) {
            lemma_count_bounds(p, x as u32);
            let items = code_items(codes, symbols(s), s);
            assert(items.drop_last() =~= code_items(codes, symbols(p), s));
            assert(items.last() == (codes[x], count(s, x)));
            assert(count(s, x) == 1);
            assert(1 * codes[x].len() == codes[x].len());
        }
    }
}

/// The weights of the code words of a list of symbols are the frequencies
/// of the leaves made for these symbols.
pub proof fn lemma_items_weights(codes: Map<char, Seq<bool>>, syms: Seq<char>, s: Seq<char>)
    requires
        s.len() <= u32::MAX,
    ensures
        weights(code_items(codes, syms, s)) == forest_sum(leaves_for(syms, s), weight_bag()),
    decreases syms.len(),
{
    let items = code_items(codes, syms, s);
    let f = leaves_for(syms, s);
    if syms.len() > 0 {
        let q = syms.drop_last();
        let c = syms.last();
        lemma_items_weights(codes, q, s);
        lemma_count_bounds(s, c as u32);
        assert(items.drop_last() =~= code_items(codes, q, s));
        assert(f.drop_last() =~= leaves_for(q, s));
        assert(f.last() == leaf_of(s, c));
        assert(weights(items) =~= forest_sum(f, weight_bag()));
    } else {
        assert(weights(items) =~= forest_sum(f, weight_bag()));
    }
}

/// Shortest code: the sum over the symbols of a text of frequency times
/// length of the code word is no greater for the code of the text's own
/// tree than for any prefix-free code that has a code word for each of
/// these symbols.
pub proof fn lemma_shortest_code(s: Seq<char>, codes: Map<char, Seq<bool>>)
    requires
        0 < s.len() <= u32::MAX,
        prefix_free(codes),
        forall|i: int| 0 <= i < s.len() ==> codes.contains_key(#[trigger] s[i]),
    ensures
        code_len(tree_of(s).codes(), s) <= code_len(codes, s),
{
    let syms = symbols(s);
    let items = code_items(codes, syms, s);
    let f = leaf_forest(s);
    lemma_symbols(s);
    lemma_tree_of(s);
    lemma_total_leaf_forest(s);
    assert forall|i: int| 0 <= i < syms.len() implies codes.contains_key(#[trigger] syms[i]) by {
        assert(syms.contains(syms[i]));
        let c = syms[i];
        let j = choose|j: int| 0 <= j < s.len() && #[trigger] s[j] as u32 == c as u32;
        lemma_code_injective(s[j], c);
    }
    assert forall|i: int, j: int|
        0 <= i < items.len() && 0 <= j < items.len() && i != j implies !(#[trigger] items[i]).0.is_prefix_of(
        (#[trigger] items[j]).0,
    ) by {
        assert(syms[i] != syms[j]);
        assert(codes.contains_key(syms[i]) && codes.contains_key(syms[j]));
    }
    let u = lemma_code_tree(items);
    lemma_items_weights(codes, syms, s);
    assert forall|i: int| 0 <= i < f.len() implies (#[trigger] f[i]).wf() by {
        let c = syms[i];
        assert(syms.contains(c));
        lemma_count_bounds(s, c as u32);
    }
    assert forall|i: int| 0 <= i < f.len() implies (#[trigger] f[i]) is Leaf by {
        assert(f[i] == leaf_of(s, syms[i]));
    }
    lemma_leaf_forest_measures(f);
    lemma_merge_least_cost(f, u);
    lemma_code_len_items(codes, s);
    lemma_own_code_cost(s);
}

/// For each symbol but the first one bit at least is written.
pub proof fn lemma_encoded_len_least(codes: Map<char, Seq<bool>>, text: Seq<char>)
    requires
        forall|i: int| 0 <= i < text.len() ==> codes.contains_key(#[trigger] text[i]),
    ensures
        encoded_len(codes, text) + 1 >= text.len(),
    decreases text.len(),
{
    if text.len() > 0 {
        let front = text.drop_last();
        assert forall|i: int| 0 <= i < front.len() implies codes.contains_key(#[trigger] front[i]) by {
            assert(front[i] == text[i]);
        }
        lemma_encoded_len_least(codes, front);
        assert(codes.contains_key(text[text.len() - 1]));
    }
}

/// Fewest bits: with its own tree a text is encoded to no more bits than
/// with any prefix-free code that has a code word for each of its symbols.
pub proof fn lemma_fewest_bits(s: Seq<char>, codes: Map<char, Seq<bool>>)
    requires
        0 < s.len() <= u32::MAX,
        prefix_free(codes),
        forall|i: int| 0 <= i < s.len() ==> codes.contains_key(#[trigger] s[i]),
    ensures
        encoded_len(tree_of(s).codes(), s) <= encoded_len(codes, s),
{
    let t = tree_of(s);
    let syms = symbols(s);
    lemma_symbols(s);
    lemma_tree_of(s);
    assert forall|i: int| 0 <= i < s.len() implies t.has_symbol(#[trigger] s[i]) by {
        assert(s.contains(s[i]));
    }
    if syms.len() == 1 {
        t.lemma_single_leaf_encoded(s);
        lemma_encoded_len(t.codes(), s);
        lemma_encoded_len_least(codes, s);
    } else {
        t.lemma_node_encoded(s);
        assert forall|i: int|
            0 <= i < s.len() && t.codes().contains_key(#[trigger] s[i]) implies t.codes()[s[i]].len()
            > 0 by {
            t.lemma_node_codes(s[i]);
        }
        lemma_encoded_plain(t.codes(), s);
        assert forall|i: int|
            0 <= i < s.len() && codes.contains_key(#[trigger] s[i]) implies codes[s[i]].len()
            > 0 by {
            let c = s[i];
            let d = if syms[0] == c {
                syms[1]
            } else {
                syms[0]
            };
            assert(syms.contains(d));
            let j = choose|j: int| 0 <= j < s.len() && #[trigger] s[j] as u32 == d as u32;
            lemma_code_injective(s[j], d);
            assert(codes.contains_key(s[j]));
            if codes[c].len() == 0 {
                assert(codes[c] =~= codes[d].subrange(0, 0));
                assert(codes[c].is_prefix_of(codes[d]));
            }
        }
        lemma_encoded_plain(codes, s);
        lemma_shortest_code(s, codes);
    }
}

} // verus!
