//! Counting how often each symbol occurs in a text.

use crate::huffman_tree::HuffmanTree;
use std::collections::HashMap;
use vstd::prelude::*;

verus! {

/// How often the symbol with scalar value `k` occurs in `s`.
pub open spec fn count_code(s: Seq<char>, k: u32) -> nat
    decreases s.len(),
{
    if s.len() == 0 {
        0
    } else {
        count_code(s.drop_last(), k) + if s.last() as u32 == k {
            1nat
        } else {
            0nat
        }
    }
}

/// How often the symbol `c` occurs in `s`.
pub open spec fn count(s: Seq<char>, c: char) -> nat {
    count_code(s, c as u32)
}

/// Whether the symbol with scalar value `k` occurs in `s`.
pub open spec fn has_code(s: Seq<char>, k: u32) -> bool {
    exists|i: int| 0 <= i < s.len() && #[trigger] s[i] as u32 == k
}

/// The frequency map of a text: each symbol that occurs, by its scalar
/// value, with the number of its occurrences.
pub open spec fn frequency_map(s: Seq<char>) -> Map<u32, u32> {
    Map::new(|k: u32| has_code(s, k), |k: u32| count_code(s, k) as u32)
}

/// The distinct symbols of a text, in the order in which they first occur.
pub open spec fn symbols(s: Seq<char>) -> Seq<char>
    decreases s.len(),
{
    if s.len() == 0 {
        Seq::<char>::empty()
    } else {
        let p = symbols(s.drop_last());
        if p.contains(s.last()) {
            p
        } else {
            p.push(s.last())
        }
    }
}

/// The leaf of the symbol `c`, with the number of its occurrences in `s`
/// as frequency.
pub open spec fn leaf_of(s: Seq<char>, c: char) -> HuffmanTree {
    HuffmanTree::Leaf { char: c, freq: count(s, c) as u32 }
}

/// One leaf for each symbol of `syms`, in that order, with the number of
/// its occurrences in `s` as frequency.
pub open spec fn leaves_for(syms: Seq<char>, s: Seq<char>) -> Seq<HuffmanTree> {
    Seq::new(syms.len(), |i: int| leaf_of(s, syms[i]))
}

/// The forest that a tree for the text `s` is merged from: one leaf for
/// each distinct symbol, in the order of first occurrence.
pub open spec fn leaf_forest(s: Seq<char>) -> Seq<HuffmanTree> {
    leaves_for(symbols(s), s)
}

/// A symbol occurs as often as the text is long at most, and at least once
/// if it occurs at all.
pub proof fn lemma_count_bounds(s: Seq<char>, k: u32)
    ensures
        count_code(s, k) <= s.len(),
        has_code(s, k) <==> count_code(s, k) > 0,
    decreases s.len(),
{
    if s.len() > 0 {
        let p = s.drop_last();
        lemma_count_bounds(p, k);
        if has_code(p, k) {
            let i = choose|i: int| 0 <= i < p.len() && #[trigger] p[i] as u32 == k;
            assert(s[i] as u32 == k);
        }
        if has_code(s, k) && s.last() as u32 != k {
            let i = choose|i: int| 0 <= i < s.len() && #[trigger] s[i] as u32 == k;
            assert(p[i] as u32 == k);
        }
        if s.last() as u32 == k {
            assert(s[s.len() - 1] as u32 == k);
        }
    }
}

/// One symbol more: a scalar value occurs among the first `i + 1` symbols
/// of a text if it occurs among the first `i` or is that of the symbol at
/// position `i`.
pub proof fn lemma_has_code_take(s: Seq<char>, i: int, k: u32)
    requires
        0 <= i < s.len(),
    ensures
        has_code(s.take(i + 1), k) <==> has_code(s.take(i), k) || s[i] as u32 == k,
{
    let before = s.take(i);
    let after = s.take(i + 1);
    if has_code(before, k) {
        let j = choose|j: int| 0 <= j < before.len() && #[trigger] before[j] as u32 == k;
        assert(after[j] as u32 == k);
    }
    if s[i] as u32 == k {
        assert(after[i] as u32 == k);
    }
    if has_code(after, k) && s[i] as u32 != k {
        let j = choose|j: int| 0 <= j < after.len() && #[trigger] after[j] as u32 == k;
        assert(before[j] as u32 == k);
    }
}

/// Counts the occurrences of each symbol of `s`.
pub fn frequencies(s: &str) -> (m: HashMap<u32, u32>)
    requires
        s@.len() <= u32::MAX,
    ensures
        m@ == frequency_map(s@),
{
    broadcast use vstd::std_specs::hash::group_hash_axioms;

    let mut frequency: HashMap<u32, u32> = HashMap::new();
    assert(frequency@ =~= frequency_map(s@.take(0)));
    for c in it: s.chars()
        invariant
            it.seq() == s@,
            s@.len() <= u32::MAX,
            frequency@ == frequency_map(s@.take(it.index())),
    {
        let ghost i = it.index();
        let ghost before = s@.take(i);
        let ghost after = s@.take(i + 1);
        let key: u32 = c as u32;
        proof {
            assert(after.drop_last() =~= before);
            lemma_count_bounds(before, key);
            lemma_count_bounds(after, key);
        }
        let seen: Option<u32> = match frequency.get(&key) {
            Some(n) => Some(*n),
            None => None,
        };
        if let Some(n) = seen {
            frequency.insert(key, n + 1);
        } else {
            frequency.insert(key, 1);
        }
        proof {
            assert forall|k: u32| has_code(after, k) <==> (has_code(before, k) || k == key) by {
                lemma_has_code_take(s@, i, k);
            }
            assert(frequency@ =~= frequency_map(after));
        }
    }
    proof {
        assert(s@.take(s@.len() as int) =~= s@);
    }
    frequency
}

/// Two symbols with the same scalar value are the same symbol.
pub proof fn lemma_code_injective(a: char, b: char)
    ensures
        a as u32 == b as u32 <==> a == b,
{
}

/// `symbols` lists each symbol of the text, and each only once.
pub proof fn lemma_symbols(s: Seq<char>)
    ensures
        symbols(s).no_duplicates(),
        symbols(s).len() <= s.len(),
        s.len() > 0 ==> symbols(s).len() > 0,
        forall|c: char| symbols(s).contains(c) <==> has_code(s, c as u32),
    decreases s.len(),
{
    if s.len() > 0 {
        let p = s.drop_last();
        let x = s.last();
        lemma_symbols(p);
        assert forall|c: char| symbols(s).contains(c) <==> has_code(s, c as u32) by {
            lemma_code_injective(x, c);
            if has_code(p, c as u32) {
                let i = choose|i: int| 0 <= i < p.len() && #[trigger] p[i] as u32 == c as u32;
                assert(s[i] as u32 == c as u32);
            }
            if has_code(s, c as u32) && c != x {
                let i = choose|i: int| 0 <= i < s.len() && #[trigger] s[i] as u32 == c as u32;
                assert(p[i] as u32 == c as u32);
            }
            if c == x {
                assert(s[s.len() - 1] as u32 == c as u32);
            }
            if symbols(s).contains(c) && !symbols(p).contains(c) {
                let i = choose|i: int| 0 <= i < symbols(s).len() && symbols(s)[i] == c;
                assert(c == x);
            }
            if symbols(p).contains(c) {
                let i = choose|i: int| 0 <= i < symbols(p).len() && symbols(p)[i] == c;
                assert(symbols(s)[i] == c);
            }
            if c == x && !symbols(p).contains(x) {
                assert(symbols(s)[symbols(p).len() as int] == x);
            }
        }
        if !symbols(p).contains(x) {
            assert(symbols(s).len() > 0);
        }
    }
}

/// When one more symbol is read, the frequencies of a duplicate-free list
/// of symbols grow by one in all if the symbol is on the list, and stay as
/// they are if it is not.
pub proof fn lemma_total_leaves_push(syms: Seq<char>, s: Seq<char>, x: char)
    requires
        syms.no_duplicates(),
        s.len() < u32::MAX,
    ensures
        crate::forest::total_freq(leaves_for(syms, s.push(x))) == crate::forest::total_freq(
            leaves_for(syms, s),
        ) + if syms.contains(x) {
            1nat
        } else {
            0nat
        },
    decreases syms.len(),
{
    let t = s.push(x);
    assert(t.drop_last() =~= s);
    if syms.len() > 0 {
        let q = syms.drop_last();
        let c = syms.last();
        lemma_total_leaves_push(q, s, x);
        lemma_code_injective(c, x);
        assert(leaves_for(syms, t).drop_last() =~= leaves_for(q, t));
        assert(leaves_for(syms, s).drop_last() =~= leaves_for(q, s));
        lemma_count_bounds(s, c as u32);
        lemma_count_bounds(t, c as u32);
        if q.contains(x) {
            let i = choose|i: int| 0 <= i < q.len() && q[i] == x;
            assert(syms[i] == x);
            assert(c != x);
        }
        if syms.contains(x) && c != x {
            let i = choose|i: int| 0 <= i < syms.len() && syms[i] == x;
            assert(q[i] == x);
        }
        if c == x {
            assert(syms[syms.len() - 1] == x);
        }
    }
}

/// The frequencies of the leaf forest of a text add up to its length.
pub proof fn lemma_total_leaf_forest(s: Seq<char>)
    requires
        s.len() <= u32::MAX,
    ensures
        crate::forest::total_freq(leaf_forest(s)) == s.len(),
    decreases s.len(),
{
    if s.len() > 0 {
        let p = s.drop_last();
        let x = s.last();
        assert(p.push(x) =~= s);
        lemma_total_leaf_forest(p);
        lemma_symbols(p);
        lemma_total_leaves_push(symbols(p), p, x);
        if !symbols(p).contains(x) {
            lemma_count_bounds(p, x as u32);
            lemma_count_bounds(s, x as u32);
            assert(leaf_forest(s).drop_last() =~= leaves_for(symbols(p), s));
        }
    }
}

/// The leaf forest of a text: one leaf for each distinct symbol, in the
/// order of first occurrence, with the number of its occurrences.
pub fn leaves_of(s: &str) -> (leaves: Vec<HuffmanTree>)
    requires
        s@.len() <= u32::MAX,
    ensures
        leaves@ == leaf_forest(s@),
{
    broadcast use vstd::std_specs::hash::group_hash_axioms;

    let mut frequency = frequencies(s);
    let mut leaves: Vec<HuffmanTree> = Vec::new();
    assert(leaves@ =~= leaf_forest(s@.take(0)));
    for c in it: s.chars()
        invariant
            it.seq() == s@,
            s@.len() <= u32::MAX,
            leaves@ == leaves_for(symbols(s@.take(it.index())), s@),
            forall|k: u32| #[trigger]
                frequency@.contains_key(k) <==> has_code(s@, k) && !has_code(
                    s@.take(it.index()),
                    k,
                ),
            forall|k: u32| #[trigger]
                frequency@.contains_key(k) ==> frequency@[k] == count_code(s@, k) as u32,
    {
        let ghost i = it.index();
        let ghost before = s@.take(i);
        let ghost after = s@.take(i + 1);
        let key: u32 = c as u32;
        proof {
            assert(after.drop_last() =~= before);
            assert(s@[i] as u32 == key);
            lemma_symbols(before);
            lemma_count_bounds(s@, key);
            assert forall|k: u32| has_code(after, k) <==> (has_code(before, k) || k == key) by {
                lemma_has_code_take(s@, i, k);
            }
        }
        // A symbol is still in the map if and only if it was not seen before.
        if let Some(n) = frequency.remove(&key) {
            leaves.push(HuffmanTree::Leaf { char: c, freq: n });
            proof {
                assert(!symbols(before).contains(c));
                assert(symbols(after) == symbols(before).push(c));
                assert(leaves@.last() == leaf_of(s@, c));
                assert(leaves@ =~= leaves_for(symbols(after), s@));
            }
        } else {
            proof {
                assert(symbols(before).contains(c));
            }
        }
    }
    proof {
        assert(s@.take(s@.len() as int) =~= s@);
    }
    leaves
}

} // verus!
