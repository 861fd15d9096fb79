//! Decoding undoes encoding.

use crate::codec::{code_seq, encoded, lemma_encoded_plain, lemma_encoded_symbols};
use crate::frequency::lemma_code_injective;
use crate::huffman_tree::HuffmanTree;
use crate::text_tree::{lemma_tree_of, tree_of};
use vstd::prelude::*;

verus! {

/// The codes of a text, one after the other, start with the code of its
/// first symbol, and the codes of the rest follow.
pub proof fn lemma_code_seq_first(codes: Map<char, Seq<bool>>, text: Seq<char>)
    requires
        text.len() > 0,
    ensures
        code_seq(codes, text) == match code_seq(codes, text.drop_first()) {
            Some(bits) => if codes.contains_key(text[0]) {
                Some(codes[text[0]] + bits)
            } else {
                None
            },
            None => None,
        },
    decreases text.len(),
{
    let front = text.drop_last();
    let tail = text.drop_first();
    if text.len() == 1 {
        assert(front =~= Seq::<char>::empty());
        assert(tail =~= Seq::<char>::empty());
        assert(text.last() == text[0]);
        assert(Seq::<bool>::empty() + codes[text[0]] =~= codes[text[0]] + Seq::<bool>::empty());
    } else {
        lemma_code_seq_first(codes, front);
        assert(front.drop_first() =~= tail.drop_last());
        assert(front[0] == text[0]);
        assert(tail.last() == text.last());
        match code_seq(codes, tail.drop_last()) {
            Some(bits) => {
                if codes.contains_key(text[0]) && codes.contains_key(text.last()) {
                    assert((codes[text[0]] + bits) + codes[text.last()] =~= codes[text[0]] + (bits
                        + codes[text.last()]));
                }
            },
            None => {},
        }
    }
}

/// Where each symbol of a text has a code, the codes can be put one after
/// the other.
pub proof fn lemma_code_seq_some(codes: Map<char, Seq<bool>>, text: Seq<char>)
    requires
        forall|i: int| 0 <= i < text.len() ==> codes.contains_key(#[trigger] text[i]),
    ensures
        code_seq(codes, text) is Some,
    decreases text.len(),
{
    if text.len() > 0 {
        assert forall|i: int| 0 <= i < text.drop_last().len() implies codes.contains_key(
            #[trigger] text.drop_last()[i],
        ) by {
            assert(text.drop_last()[i] == text[i]);
        }
        lemma_code_seq_some(codes, text.drop_last());
        assert(codes.contains_key(text[text.len() - 1]));
    }
}

impl HuffmanTree {
    /// Bits that start with a path from `cur` to a leaf take the decoder to
    /// that leaf, and nothing is emitted on the way.
    pub proof fn lemma_decode_path(
        self,
        cur: HuffmanTree,
        path: Seq<bool>,
        c: char,
        rest: Seq<bool>,
    )
        requires
            cur.leads_to(path, c),
        ensures
            cur.descend(path) is Leaf,
            cur.descend(path)->char == c,
            self.decode_walk(cur, path + rest) == self.decode_walk(cur.descend(path), rest),
        decreases path.len(),
    {
        if path.len() == 0 {
            assert(path + rest =~= rest);
        } else {
            let bits = path + rest;
            assert(bits[0] == path[0]);
            assert(bits.drop_first() =~= path.drop_first() + rest);
            self.lemma_decode_path(cur.child(path[0]), path.drop_first(), c, rest);
        }
    }

    /// In a tree with an inner node at the root: when the decoder stands at
    /// the root and reads the codes of a text that is not empty, one after
    /// the other, it emits that text.
    pub proof fn lemma_decode_encoded(self, text: Seq<char>)
        requires
            self is Node,
            text.len() > 0,
            forall|i: int| 0 <= i < text.len() ==> self.has_symbol(#[trigger] text[i]),
        ensures
            code_seq(self.codes(), text) is Some,
            self.decoded(code_seq(self.codes(), text)->Some_0) == Some(text),
        decreases text.len(),
    {
        let codes = self.codes();
        let d = text[0];
        let tail = text.drop_first();
        assert forall|i: int| 0 <= i < text.len() implies codes.contains_key(#[trigger] text[i]) by {
            self.lemma_codes_dom(Seq::<bool>::empty(), text[i]);
        }
        lemma_code_seq_some(codes, text);
        lemma_code_seq_first(codes, text);
        self.lemma_code_leads_to(d);
        let path = codes[d];
        let rest = code_seq(codes, tail)->Some_0;
        let bits = path + rest;
        assert(code_seq(codes, text) == Some(bits));
        assert(bits[0] == path[0]);
        assert(bits.drop_first() =~= path.drop_first() + rest);
        let below = self.child(path[0]);
        self.lemma_decode_path(below, path.drop_first(), d, rest);
        let leaf = below.descend(path.drop_first());
        assert(self.decoded(bits) == self.decode_walk(leaf, rest));
        if tail.len() == 0 {
            assert(rest =~= Seq::<bool>::empty());
            assert(text =~= seq![d]);
        } else {
            assert forall|i: int| 0 <= i < tail.len() implies self.has_symbol(#[trigger] tail[i]) by {
                assert(tail[i] == text[i + 1]);
            }
            self.lemma_decode_encoded(tail);
            self.lemma_code_leads_to(tail[0]);
            lemma_code_seq_first(codes, tail);
            assert(rest.len() > 0);
            assert(self.decode_walk(leaf, rest) == Some(seq![d] + tail));
            assert(seq![d] + tail =~= text);
        }
    }

    /// In a tree with distinct symbols and an inner node at the root: the
    /// codes of what the decoder emits from the end of a path on are, one
    /// after the other, that path and the bits that it read.
    pub proof fn lemma_decoded_from(self, path: Seq<bool>, bits: Seq<bool>, text: Seq<char>)
        requires
            self is Node,
            self.distinct(),
            self.reaches(path),
            self.decode_walk(self.descend(path), bits) == Some(text),
        ensures
            text.len() > 0,
            code_seq(self.codes(), text) == Some(path + bits),
        decreases bits.len(),
    {
        let codes = self.codes();
        let cur = self.descend(path);
        if bits.len() == 0 {
            let c = cur->char;
            self.lemma_leaf_reached(path);
            self.lemma_path_is_code(path, c);
            assert(text =~= seq![c]);
            lemma_code_seq_first(codes, text);
            assert(text.drop_first() =~= Seq::<char>::empty());
            assert(codes[c] + Seq::<bool>::empty() =~= path + bits);
        } else {
            let rest = bits.drop_first();
            match cur {
                HuffmanTree::Node { .. } => {
                    self.lemma_descend_push(path, bits[0]);
                    self.lemma_decoded_from(path.push(bits[0]), rest, text);
                    assert(path.push(bits[0]) + rest =~= path + bits);
                },
                HuffmanTree::Leaf { char: c, .. } => {
                    let first = Seq::<bool>::empty().push(bits[0]);
                    self.lemma_descend_push(Seq::<bool>::empty(), bits[0]);
                    let tail = self.decode_walk(self.child(bits[0]), rest)->Some_0;
                    assert(text == seq![c] + tail);
                    self.lemma_decoded_from(first, rest, tail);
                    assert(first + rest =~= bits);
                    self.lemma_leaf_reached(path);
                    self.lemma_path_is_code(path, c);
                    assert(text[0] == c);
                    assert(text.drop_first() =~= tail);
                    lemma_code_seq_first(codes, text);
                },
            }
        }
    }

    /// In a tree with an inner node at the root no code is empty.
    pub proof fn lemma_node_codes(self, c: char)
        requires
            self is Node,
            self.has_symbol(c),
        ensures
            self.codes().contains_key(c),
            self.codes()[c].len() > 0,
    {
        self.lemma_code_leads_to(c);
    }

    /// In a tree with an inner node at the root a text is encoded to the
    /// codes of its symbols, one after the other.
    pub proof fn lemma_node_encoded(self, text: Seq<char>)
        requires
            self is Node,
        ensures
            encoded(self.codes(), text) == code_seq(self.codes(), text),
    {
        assert forall|i: int|
            0 <= i < text.len() && self.codes().contains_key(#[trigger] text[i]) implies self.codes()[text[i]].len()
            > 0 by {
            self.lemma_codes_dom(Seq::<bool>::empty(), text[i]);
            self.lemma_node_codes(text[i]);
        }
        lemma_encoded_plain(self.codes(), text);
    }

    /// Decoding is the inverse of encoding: in a tree with distinct symbols
    /// and an inner node at the root, bits decode to a text if and only if
    /// the text is not empty and is encoded to these bits.
    pub proof fn lemma_decode_inverts_encode(self, bits: Seq<bool>, text: Seq<char>)
        requires
            self is Node,
            self.distinct(),
        ensures
            self.decoded(bits) == Some(text) <==> text.len() > 0 && encoded(self.codes(), text)
                == Some(bits),
    {
        self.lemma_node_encoded(text);
        if self.decoded(bits) == Some(text) {
            self.lemma_decoded_from(Seq::<bool>::empty(), bits, text);
            assert(Seq::<bool>::empty() + bits =~= bits);
        }
        if text.len() > 0 && encoded(self.codes(), text) == Some(bits) {
            lemma_encoded_symbols(self.codes(), text);
            assert forall|i: int| 0 <= i < text.len() implies self.has_symbol(#[trigger] text[i]) by {
                self.lemma_codes_dom(Seq::<bool>::empty(), text[i]);
            }
            self.lemma_decode_encoded(text);
        }
    }

    /// In a tree that is a single leaf, bits decode to the symbol of the
    /// leaf, once for each bit and once more.
    pub proof fn lemma_single_leaf_decoded(self, bits: Seq<bool>)
        requires
            self is Leaf,
        ensures
            self.decoded(bits) == Some(Seq::new(bits.len() + 1, |i: int| self->char)),
        decreases bits.len(),
    {
        let c = self->char;
        let all = Seq::new(bits.len() + 1, |i: int| c);
        if bits.len() == 0 {
            assert(all =~= seq![c]);
        } else {
            let rest = bits.drop_first();
            self.lemma_single_leaf_decoded(rest);
            assert(self.child(bits[0]) == self);
            assert(seq![c] + Seq::new(rest.len() + 1, |i: int| c) =~= all);
        }
    }

    /// In a tree that is a single leaf, a text of its symbol is encoded to
    /// one bit less than it has symbols, and the empty text to no bits.
    pub proof fn lemma_single_leaf_encoded(self, text: Seq<char>)
        requires
            self is Leaf,
            forall|i: int| 0 <= i < text.len() ==> self.has_symbol(#[trigger] text[i]),
        ensures
            encoded(self.codes(), text) is Some,
            text.len() > 0 ==> encoded(self.codes(), text)->Some_0.len() + 1 == text.len(),
            text =~= Seq::new(text.len(), |i: int| self->char),
        decreases text.len(),
    {
        let c = self->char;
        assert forall|i: int| 0 <= i < text.len() implies text[i] == c by {
            assert(self.has_symbol(text[i]));
            lemma_code_injective(c, text[i]);
        }
        if text.len() > 0 {
            let front = text.drop_last();
            assert forall|i: int| 0 <= i < front.len() implies self.has_symbol(
                #[trigger] front[i],
            ) by {
                assert(front[i] == text[i]);
            }
            self.lemma_single_leaf_encoded(front);
            assert(text.last() == c);
            assert(self.codes().contains_key(c));
            assert(self.codes()[c].len() == 0);
        }
    }

    /// Round trip: a text that is not empty and holds symbols of the tree
    /// only is encoded to bits that decode to the same text.
    pub proof fn lemma_round_trip(self, text: Seq<char>)
        requires
            text.len() > 0,
            forall|i: int| 0 <= i < text.len() ==> self.has_symbol(#[trigger] text[i]),
        ensures
            encoded(self.codes(), text) is Some,
            self.decoded(encoded(self.codes(), text)->Some_0) == Some(text),
    {
        match self {
            HuffmanTree::Node { .. } => {
                self.lemma_node_encoded(text);
                self.lemma_decode_encoded(text);
            },
            HuffmanTree::Leaf { .. } => {
                self.lemma_single_leaf_encoded(text);
                self.lemma_single_leaf_decoded(encoded(self.codes(), text)->Some_0);
            },
        }
    }
}

/// Round trip with the code tree of the text itself: a text that is not
/// empty is encoded with its own tree to bits that this tree decodes to
/// the same text.
pub proof fn lemma_text_round_trip(s: Seq<char>)
    requires
        0 < s.len() <= u32::MAX,
    ensures
        encoded(tree_of(s).codes(), s) is Some,
        tree_of(s).decoded(encoded(tree_of(s).codes(), s)->Some_0) == Some(s),
{
    lemma_tree_of(s);
    assert forall|i: int| 0 <= i < s.len() implies tree_of(s).has_symbol(#[trigger] s[i]) by {
        assert(s.contains(s[i]));
    }
    tree_of(s).lemma_round_trip(s);
}

} // verus!
