//! Paths through a code tree, and what follows for its code table: each
//! code is the path to a leaf of its symbol, and no code is a prefix of
//! another.

use crate::frequency::lemma_code_injective;
use crate::huffman_tree::HuffmanTree;
use vstd::prelude::*;

verus! {

impl HuffmanTree {
    /// Whether the path `path` leads from the root to a leaf of the
    /// symbol `c`.
    pub open spec fn leads_to(self, path: Seq<bool>, c: char) -> bool
        decreases self,
    {
        match self {
            HuffmanTree::Node { l, r, .. } => path.len() > 0 && if path[0] {
                r.leads_to(path.drop_first(), c)
            } else {
                l.leads_to(path.drop_first(), c)
            },
            HuffmanTree::Leaf { char, .. } => path.len() == 0 && char == c,
        }
    }

    /// The node that `path` leads to; a path that goes on below a leaf
    /// stays on that leaf.
    pub open spec fn descend(self, path: Seq<bool>) -> HuffmanTree
        decreases path.len(),
    {
        if path.len() == 0 {
            self
        } else {
            self.child(path[0]).descend(path.drop_first())
        }
    }

    /// Whether the path `path` can be walked from the root without
    /// stepping below a leaf.
    pub open spec fn reaches(self, path: Seq<bool>) -> bool
        decreases path.len(),
    {
        path.len() == 0 || (self is Node && self.child(path[0]).reaches(path.drop_first()))
    }

    /// A path that can be walked to a leaf leads to the symbol of that
    /// leaf.
    pub proof fn lemma_leaf_reached(self, path: Seq<bool>)
        requires
            self.reaches(path),
            self.descend(path) is Leaf,
        ensures
            self.leads_to(path, self.descend(path)->char),
        decreases path.len(),
    {
        if path.len() > 0 {
            self.child(path[0]).lemma_leaf_reached(path.drop_first());
        }
    }

    /// One step more from a node that is no leaf: the path goes on to the
    /// child.
    pub proof fn lemma_descend_push(self, path: Seq<bool>, b: bool)
        requires
            self.reaches(path),
            self.descend(path) is Node,
        ensures
            self.reaches(path.push(b)),
            self.descend(path.push(b)) == self.descend(path).child(b),
        decreases path.len(),
    {
        let longer = path.push(b);
        if path.len() == 0 {
            assert(longer[0] == b);
            assert(longer.drop_first().len() == 0);
            assert(self.child(b).reaches(longer.drop_first()));
            assert(self.child(b).descend(longer.drop_first()) == self.child(b));
        } else {
            assert(longer[0] == path[0]);
            assert(longer.drop_first() =~= path.drop_first().push(b));
            self.child(path[0]).lemma_descend_push(path.drop_first(), b);
        }
    }

    /// A symbol that a path leads to is a symbol of the tree.
    pub proof fn lemma_leads_to_symbol(self, path: Seq<bool>, c: char)
        requires
            self.leads_to(path, c),
        ensures
            self.has_symbol(c),
        decreases self,
    {
        match self {
            HuffmanTree::Node { l, r, .. } => {
                if path[0] {
                    r.lemma_leads_to_symbol(path.drop_first(), c);
                } else {
                    l.lemma_leads_to_symbol(path.drop_first(), c);
                }
            },
            HuffmanTree::Leaf { .. } => {},
        }
    }

    /// In a tree with distinct symbols only one path leads to a symbol.
    pub proof fn lemma_one_path(self, p: Seq<bool>, q: Seq<bool>, c: char)
        requires
            self.distinct(),
            self.leads_to(p, c),
            self.leads_to(q, c),
        ensures
            p == q,
        decreases self,
    {
        match self {
            HuffmanTree::Node { l, r, .. } => {
                if p[0] {
                    r.lemma_leads_to_symbol(p.drop_first(), c);
                } else {
                    l.lemma_leads_to_symbol(p.drop_first(), c);
                }
                if q[0] {
                    r.lemma_leads_to_symbol(q.drop_first(), c);
                } else {
                    l.lemma_leads_to_symbol(q.drop_first(), c);
                }
                assert(!(l.has_code(c as u32) && r.has_code(c as u32)));
                assert(p[0] == q[0]);
                if p[0] {
                    r.lemma_one_path(p.drop_first(), q.drop_first(), c);
                } else {
                    l.lemma_one_path(p.drop_first(), q.drop_first(), c);
                }
                assert(p =~= seq![p[0]] + p.drop_first());
                assert(q =~= seq![q[0]] + q.drop_first());
            },
            HuffmanTree::Leaf { .. } => {
                assert(p =~= q);
            },
        }
    }

    /// In a tree with distinct symbols the code of a symbol is the path
    /// that leads to it.
    pub proof fn lemma_path_is_code(self, path: Seq<bool>, c: char)
        requires
            self.distinct(),
            self.leads_to(path, c),
        ensures
            self.codes().contains_key(c),
            self.codes()[c] == path,
    {
        self.lemma_leads_to_symbol(path, c);
        self.lemma_code_leads_to(c);
        self.lemma_one_path(self.codes()[c], path, c);
    }

    /// The code of a symbol of the tree starts with the path to the root
    /// that the codes are taken from, and goes on along a path to a leaf of
    /// that symbol.
    pub proof fn lemma_code_is_path(self, prefix: Seq<bool>, c: char)
        requires
            self.has_symbol(c),
        ensures
            self.codes_from(prefix).contains_key(c),
            self.codes_from(prefix)[c].len() >= prefix.len(),
            self.codes_from(prefix)[c].take(prefix.len() as int) == prefix,
            self.leads_to(self.codes_from(prefix)[c].skip(prefix.len() as int), c),
        decreases self,
    {
        self.lemma_codes_dom(prefix, c);
        let code = self.codes_from(prefix)[c];
        let n = prefix.len() as int;
        match self {
            HuffmanTree::Node { l, r, .. } => {
                l.lemma_codes_dom(prefix.push(false), c);
                r.lemma_codes_dom(prefix.push(true), c);
                let b = r.has_symbol(c);
                let below = if b {
                    *r
                } else {
                    *l
                };
                below.lemma_code_is_path(prefix.push(b), c);
                assert(code == below.codes_from(prefix.push(b))[c]);
                assert(code.take(n + 1) == prefix.push(b));
                assert(code.take(n) =~= code.take(n + 1).take(n));
                assert(code.take(n) =~= prefix);
                assert(code.take(n + 1)[n] == b);
                assert(code.skip(n)[0] == b);
                assert(code.skip(n).drop_first() =~= code.skip(n + 1));
            },
            HuffmanTree::Leaf { char, .. } => {
                lemma_code_injective(char, c);
                assert(code.take(n) =~= prefix);
                assert(code.skip(n) =~= Seq::<bool>::empty());
            },
        }
    }

    /// The code of a symbol of the tree is a path to a leaf of that symbol.
    pub proof fn lemma_code_leads_to(self, c: char)
        requires
            self.has_symbol(c),
        ensures
            self.codes().contains_key(c),
            self.leads_to(self.codes()[c], c),
    {
        self.lemma_code_is_path(Seq::<bool>::empty(), c);
        assert(self.codes()[c].skip(0) =~= self.codes()[c]);
    }

    /// Of two paths to leaves, one is a prefix of the other only if they
    /// are the same path, and then they lead to the same symbol.
    pub proof fn lemma_leaf_paths(self, p: Seq<bool>, c: char, q: Seq<bool>, d: char)
        requires
            self.leads_to(p, c),
            self.leads_to(q, d),
            p.is_prefix_of(q),
        ensures
            p == q,
            c == d,
        decreases self,
    {
        match self {
            HuffmanTree::Node { l, r, .. } => {
                assert(p[0] == q[0]);
                assert(p.drop_first().is_prefix_of(q.drop_first()));
                if p[0] {
                    r.lemma_leaf_paths(p.drop_first(), c, q.drop_first(), d);
                } else {
                    l.lemma_leaf_paths(p.drop_first(), c, q.drop_first(), d);
                }
                assert(p =~= seq![p[0]] + p.drop_first());
                assert(q =~= seq![q[0]] + q.drop_first());
            },
            HuffmanTree::Leaf { .. } => {
                assert(p =~= q);
            },
        }
    }
}

/// Whether no code of the table is a prefix of the code of another symbol.
pub open spec fn prefix_free(codes: Map<char, Seq<bool>>) -> bool {
    forall|c: char, d: char|
        codes.contains_key(c) && codes.contains_key(d) && c != d ==> !(#[trigger] codes[c]).is_prefix_of(
            #[trigger] codes[d],
        )
}

/// The code table of every tree is prefix-free: no code is a prefix of the
/// code of another symbol.
pub proof fn lemma_prefix_free(t: HuffmanTree)
    ensures
        prefix_free(t.codes()),
{
    let codes = t.codes();
    assert forall|c: char, d: char|
        codes.contains_key(c) && codes.contains_key(d) && c != d implies !(#[trigger] codes[c]).is_prefix_of(
        #[trigger] codes[d],
    ) by {
        t.lemma_codes_dom(Seq::<bool>::empty(), c);
        t.lemma_codes_dom(Seq::<bool>::empty(), d);
        t.lemma_code_leads_to(c);
        t.lemma_code_leads_to(d);
        if codes[c].is_prefix_of(codes[d]) {
            t.lemma_leaf_paths(codes[c], c, codes[d], d);
        }
    }
}

} // verus!
