//! The code table of a tree, the encoder and the decoder.
//!
//! The code of a symbol is the path from the root to its leaf: bit 0 for
//! each step to a left child, bit 1 for each step to a right child. A tree
//! that is a single leaf gives its symbol the empty code.
//!
//! The encoder writes the codes of the symbols of a text one after the
//! other. An empty code would leave no trace of how often its symbol
//! occurs; so for a symbol with the empty code the encoder writes one
//! 0 bit, except for the first symbol of the text, for which it writes
//! nothing. A text of `n` symbols thus takes `n - 1` bits in a tree that
//! is a single leaf.
//!
//! The decoder walks the tree bit by bit. When it stands on a leaf and
//! another bit comes, it emits the leaf's symbol, starts again at the root
//! and takes the step that the bit asks for; when the bits run out on a
//! leaf, it emits that symbol and stops. In a tree that is a single leaf no
//! step can be taken, so each bit emits the symbol once, and the end of the
//! bits once more.

use crate::bits::{bit_seq, bits_clone, bits_extend, bits_get, bits_len, bits_new, bits_push};
use crate::frequency::lemma_code_injective;
use crate::huffman_tree::{HuffmanError, HuffmanTree};
use crate::paths::{lemma_prefix_free, prefix_free};
use crate::text::push_char;
use bit_vec::BitVec;
use std::collections::HashMap;
use vstd::prelude::*;

verus! {

impl HuffmanTree {
    /// The code of each symbol in the tree below a node that is reached by
    /// `prefix`. Where a symbol stands on several leaves, the rightmost
    /// counts.
    pub open spec fn codes_from(self, prefix: Seq<bool>) -> Map<char, Seq<bool>>
        decreases self,
    {
        match self {
            HuffmanTree::Node { l, r, .. } => l.codes_from(prefix.push(false)).union_prefer_right(
                r.codes_from(prefix.push(true)),
            ),
            HuffmanTree::Leaf { char, .. } => Map::<char, Seq<bool>>::empty().insert(char, prefix),
        }
    }

    /// The code table: for each symbol of the tree the path to its leaf.
    pub open spec fn codes(self) -> Map<char, Seq<bool>> {
        self.codes_from(Seq::<bool>::empty())
    }

    /// The child that the bit `b` leads to; a leaf stays where it is.
    pub open spec fn child(self, b: bool) -> HuffmanTree {
        match self {
            HuffmanTree::Node { l, r, .. } => if b {
                *r
            } else {
                *l
            },
            HuffmanTree::Leaf { .. } => self,
        }
    }

    /// What the decoder emits from the node `cur` on, for the bits that are
    /// left; `None` if the bits end on an inner node.
    pub open spec fn decode_walk(self, cur: HuffmanTree, bits: Seq<bool>) -> Option<Seq<char>>
        decreases bits.len(),
    {
        if bits.len() == 0 {
            match cur {
                HuffmanTree::Leaf { char, .. } => Some(seq![char]),
                HuffmanTree::Node { .. } => None,
            }
        } else {
            match cur {
                HuffmanTree::Leaf { char, .. } => match self.decode_walk(
                    self.child(bits[0]),
                    bits.drop_first(),
                ) {
                    Some(rest) => Some(seq![char] + rest),
                    None => None,
                },
                HuffmanTree::Node { .. } => self.decode_walk(cur.child(bits[0]), bits.drop_first()),
            }
        }
    }

    /// The text that `bits` decode to, or `None` if they end inside a code.
    pub open spec fn decoded(self, bits: Seq<bool>) -> Option<Seq<char>> {
        self.decode_walk(self, bits)
    }

    /// The symbols that have a code are those of the tree.
    pub proof fn lemma_codes_dom(self, prefix: Seq<bool>, c: char)
        ensures
            self.codes_from(prefix).contains_key(c) <==> self.has_symbol(c),
        decreases self,
    {
        match self {
            HuffmanTree::Node { l, r, .. } => {
                l.lemma_codes_dom(prefix.push(false), c);
                r.lemma_codes_dom(prefix.push(true), c);
            },
            HuffmanTree::Leaf { char, .. } => {
                lemma_code_injective(char, c);
            },
        }
    }
}

/// The codes of the symbols of a text, one after the other; `None` if a
/// symbol has no code.
pub open spec fn code_seq(codes: Map<char, Seq<bool>>, text: Seq<char>) -> Option<Seq<bool>>
    decreases text.len(),
{
    if text.len() == 0 {
        Some(Seq::<bool>::empty())
    } else {
        match code_seq(codes, text.drop_last()) {
            Some(bits) => if codes.contains_key(text.last()) {
                Some(bits + codes[text.last()])
            } else {
                None
            },
            None => None,
        }
    }
}

/// The sum of the lengths of the codes of the symbols of a text that have
/// a code: the sum over the symbols of frequency times length of the code.
pub open spec fn code_len(codes: Map<char, Seq<bool>>, text: Seq<char>) -> nat
    decreases text.len(),
{
    if text.len() == 0 {
        0
    } else {
        code_len(codes, text.drop_last()) + if codes.contains_key(text.last()) {
            codes[text.last()].len()
        } else {
            0nat
        }
    }
}

/// What the encoder writes for the symbol `c`: its code; but one 0 bit if
/// the code is empty and the symbol is not the first of the text.
pub open spec fn written(codes: Map<char, Seq<bool>>, c: char, first: bool) -> Seq<bool> {
    if codes[c].len() == 0 && !first {
        Seq::<bool>::empty().push(false)
    } else {
        codes[c]
    }
}

/// The bits that a text is encoded to with a code table: what is written
/// for each of its symbols, one after the other; `None` if a symbol has no
/// code.
pub open spec fn encoded(codes: Map<char, Seq<bool>>, text: Seq<char>) -> Option<Seq<bool>>
    decreases text.len(),
{
    if text.len() == 0 {
        Some(Seq::<bool>::empty())
    } else {
        match encoded(codes, text.drop_last()) {
            Some(bits) => if codes.contains_key(text.last()) {
                Some(bits + written(codes, text.last(), text.len() == 1))
            } else {
                None
            },
            None => None,
        }
    }
}

/// The number of bits that are written for the symbols of a text that
/// have a code.
pub open spec fn encoded_len(codes: Map<char, Seq<bool>>, text: Seq<char>) -> nat
    decreases text.len(),
{
    if text.len() == 0 {
        0
    } else {
        encoded_len(codes, text.drop_last()) + if codes.contains_key(text.last()) {
            written(codes, text.last(), text.len() == 1).len()
        } else {
            0nat
        }
    }
}

/// An encoded text is as long as what is written for its symbols together.
pub proof fn lemma_encoded_len(codes: Map<char, Seq<bool>>, text: Seq<char>)
    ensures
        encoded(codes, text) matches Some(bits) ==> bits.len() == encoded_len(codes, text),
    decreases text.len(),
{
    if text.len() > 0 {
        lemma_encoded_len(codes, text.drop_last());
    }
}

/// For a prefix of a text no more bits are written than for the whole
/// text.
pub proof fn lemma_encoded_len_prefix(codes: Map<char, Seq<bool>>, text: Seq<char>, i: int)
    requires
        0 <= i <= text.len(),
    ensures
        encoded_len(codes, text.take(i)) <= encoded_len(codes, text),
    decreases text.len(),
{
    if i < text.len() {
        lemma_encoded_len_prefix(codes, text.drop_last(), i);
        assert(text.drop_last().take(i) =~= text.take(i));
    } else {
        assert(text.take(i) =~= text);
    }
}

/// A text with a prefix that cannot be encoded cannot be encoded.
pub proof fn lemma_encoded_none(codes: Map<char, Seq<bool>>, text: Seq<char>, i: int)
    requires
        0 <= i <= text.len(),
        encoded(codes, text.take(i)) is None,
    ensures
        encoded(codes, text) is None,
    decreases text.len(),
{
    if i < text.len() {
        assert(text.drop_last().take(i) =~= text.take(i));
        lemma_encoded_none(codes, text.drop_last(), i);
    } else {
        assert(text.take(i) =~= text);
    }
}

/// A text that can be encoded holds symbols with a code only.
pub proof fn lemma_encoded_symbols(codes: Map<char, Seq<bool>>, text: Seq<char>)
    requires
        encoded(codes, text) is Some,
    ensures
        forall|i: int| 0 <= i < text.len() ==> codes.contains_key(#[trigger] text[i]),
    decreases text.len(),
{
    if text.len() > 0 {
        lemma_encoded_symbols(codes, text.drop_last());
        assert forall|i: int| 0 <= i < text.len() implies codes.contains_key(#[trigger] text[i]) by {
            if i < text.len() - 1 {
                assert(text.drop_last()[i] == text[i]);
            }
        }
    }
}

/// Where no symbol of the text has the empty code, the text is encoded to
/// the codes of its symbols, one after the other.
pub proof fn lemma_encoded_plain(codes: Map<char, Seq<bool>>, text: Seq<char>)
    requires
        forall|i: int|
            0 <= i < text.len() && codes.contains_key(#[trigger] text[i]) ==> codes[text[i]].len()
                > 0,
    ensures
        encoded(codes, text) == code_seq(codes, text),
        encoded_len(codes, text) == code_len(codes, text),
    decreases text.len(),
{
    if text.len() > 0 {
        let front = text.drop_last();
        assert forall|i: int|
            0 <= i < front.len() && codes.contains_key(#[trigger] front[i]) implies codes[front[i]].len()
            > 0 by {
            assert(front[i] == text[i]);
        }
        lemma_encoded_plain(codes, front);
        assert(text.last() == text[text.len() - 1]);
    }
}

/// Enters the codes of the tree `t`, whose root is reached by `code`, into
/// the table.
fn collect_codes(t: &HuffmanTree, code: BitVec, codes: &mut HashMap<u32, BitVec>)
    requires
        bit_seq(code).len() + t.height() <= usize::MAX,
    ensures
        forall|k: u32| #[trigger]
            final(codes)@.contains_key(k) <==> old(codes)@.contains_key(k) || t.has_code(k),
        forall|k: u32|
            old(codes)@.contains_key(k) && !t.has_code(k) ==> #[trigger] final(codes)@[k] == old(
                codes,
            )@[k],
        forall|c: char| #[trigger]
            t.has_symbol(c) ==> bit_seq(final(codes)@[c as u32]) == t.codes_from(bit_seq(code))[c],
    decreases t,
{
    broadcast use vstd::std_specs::hash::group_hash_axioms;

    match t {
        HuffmanTree::Leaf { char: c, .. } => {
            let key: u32 = *c as u32;
            codes.insert(key, code);
            proof {
                assert forall|d: char| #[trigger] t.has_symbol(d) implies bit_seq(
                    final(codes)@[d as u32],
                ) == t.codes_from(bit_seq(code))[d] by {
                    lemma_code_injective(*c, d);
                }
            }
        },
        HuffmanTree::Node { l, r, .. } => {
            let mut left_code = bits_clone(&code);
            let mut right_code = bits_clone(&code);
            bits_push(&mut left_code, false);
            bits_push(&mut right_code, true);
            collect_codes(l, left_code, codes);
            collect_codes(r, right_code, codes);
            proof {
                let p = bit_seq(code);
                assert forall|d: char| #[trigger] t.has_symbol(d) implies bit_seq(
                    final(codes)@[d as u32],
                ) == t.codes_from(p)[d] by {
                    l.lemma_codes_dom(p.push(false), d);
                    r.lemma_codes_dom(p.push(true), d);
                    if !r.has_symbol(d) {
                        assert(l.has_symbol(d));
                    }
                }
            }
        },
    }
}

impl HuffmanTree {
    /// The code table of the tree, keyed by the scalar value of each symbol.
    pub fn encode_code(&self) -> (codes: HashMap<u32, BitVec>)
        requires
            self.height() <= usize::MAX,
        ensures
            forall|k: u32| #[trigger] codes@.contains_key(k) <==> self.has_code(k),
            forall|c: char| #[trigger]
                self.has_symbol(c) ==> bit_seq(codes@[c as u32]) == self.codes()[c],
            prefix_free(self.codes()),
    {
        let mut codes: HashMap<u32, BitVec> = HashMap::new();
        collect_codes(self, bits_new(), &mut codes);
        proof {
            lemma_prefix_free(*self);
        }
        codes
    }

    /// Encodes a text: what is written for each of its symbols, one after
    /// the other. A symbol that the tree does not hold is refused.
    pub fn encode(&self, s: &str) -> (res: Result<BitVec, HuffmanError>)
        requires
            self.height() <= usize::MAX,
            encoded_len(self.codes(), s@) <= usize::MAX,
        ensures
            match encoded(self.codes(), s@) {
                Some(bits) => res is Ok && bit_seq(res->Ok_0) == bits,
                None => res == Err::<BitVec, HuffmanError>(HuffmanError::UnknownSymbol),
            },
    {
        broadcast use vstd::std_specs::hash::group_hash_axioms;

        let table = self.encode_code();
        let mut result = bits_new();
        let mut first = true;
        for c in it: s.chars()
            invariant
                it.seq() == s@,
                encoded_len(self.codes(), s@) <= usize::MAX,
                forall|k: u32| #[trigger] table@.contains_key(k) <==> self.has_code(k),
                forall|c: char| #[trigger]
                    self.has_symbol(c) ==> bit_seq(table@[c as u32]) == self.codes()[c],
                encoded(self.codes(), s@.take(it.index())) == Some(bit_seq(result)),
                first <==> it.index() == 0,
        {
            let ghost i = it.index();
            let ghost before = s@.take(i);
            let ghost after = s@.take(i + 1);
            proof {
                assert(after.drop_last() =~= before);
                self.lemma_codes_dom(Seq::<bool>::empty(), c);
                lemma_encoded_len(self.codes(), before);
                lemma_encoded_len_prefix(self.codes(), s@, i + 1);
            }
            let key: u32 = c as u32;
            if let Some(v) = table.get(&key) {
                if bits_len(v) == 0 && !first {
                    bits_push(&mut result, false);
                } else {
                    bits_extend(&mut result, v);
                }
            } else {
                proof {
                    lemma_encoded_none(self.codes(), s@, i + 1);
                }
                return Err(HuffmanError::UnknownSymbol);
            }
            first = false;
        }
        proof {
            assert(s@.take(s@.len() as int) =~= s@);
        }
        Ok(result)
    }

    /// The number of bits that a text takes when it is encoded. `None` if
    /// a symbol of the text has no code, or if the number is beyond what a
    /// bit vector can hold.
    pub fn encoded_size(&self, s: &str) -> (size: Option<usize>)
        requires
            self.height() <= usize::MAX,
        ensures
            match size {
                Some(n) => encoded(self.codes(), s@) is Some && n == encoded_len(
                    self.codes(),
                    s@,
                ),
                None => encoded(self.codes(), s@) is None || encoded_len(self.codes(), s@)
                    > usize::MAX,
            },
    {
        broadcast use vstd::std_specs::hash::group_hash_axioms;

        let table = self.encode_code();
        let mut total: usize = 0;
        let mut first = true;
        for c in it: s.chars()
            invariant
                it.seq() == s@,
                forall|k: u32| #[trigger] table@.contains_key(k) <==> self.has_code(k),
                forall|c: char| #[trigger]
                    self.has_symbol(c) ==> bit_seq(table@[c as u32]) == self.codes()[c],
                encoded(self.codes(), s@.take(it.index())) is Some,
                total == encoded_len(self.codes(), s@.take(it.index())),
                first <==> it.index() == 0,
        {
            let ghost i = it.index();
            let ghost before = s@.take(i);
            let ghost after = s@.take(i + 1);
            proof {
                assert(after.drop_last() =~= before);
                self.lemma_codes_dom(Seq::<bool>::empty(), c);
                lemma_encoded_len_prefix(self.codes(), s@, i + 1);
            }
            let key: u32 = c as u32;
            if let Some(v) = table.get(&key) {
                let len: usize = if bits_len(v) == 0 && !first {
                    1
                } else {
                    bits_len(v)
                };
                if total > usize::MAX - len {
                    return None;
                }
                total = total + len;
            } else {
                proof {
                    lemma_encoded_none(self.codes(), s@, i + 1);
                }
                return None;
            }
            first = false;
        }
        proof {
            assert(s@.take(s@.len() as int) =~= s@);
        }
        Some(total)
    }

    /// Decodes a sequence of bits by walking the tree. Bits that end inside
    /// a code are refused.
    pub fn decode(&self, from: &BitVec) -> (res: Result<String, HuffmanError>)
        ensures
            match self.decoded(bit_seq(*from)) {
                Some(text) => res is Ok && res->Ok_0@ == text,
                None => res == Err::<String, HuffmanError>(HuffmanError::TruncatedInput),
            },
    {
        let ghost bits = bit_seq(*from);
        let n = bits_len(from);
        let mut result = String::new();
        let mut cur: &HuffmanTree = self;
        let mut i: usize = 0;
        proof {
            assert(bits.skip(0) =~= bits);
        }
        while i < n
            invariant
                bits == bit_seq(*from),
                n == bits.len(),
                i <= n,
                self.decoded(bits) == match self.decode_walk(*cur, bits.skip(i as int)) {
                    Some(rest) => Some(result@ + rest),
                    None => None,
                },
            decreases n - i,
        {
            let ghost rest = bits.skip(i as int);
            let ghost emitted = result@;
            proof {
                assert(rest.drop_first() =~= bits.skip(i + 1));
            }
            let bit = match bits_get(from, i) {
                Some(b) => b,
                None => false,
            };
            if let HuffmanTree::Leaf { char: c, .. } = cur {
                push_char(&mut result, *c);
                cur = self;
                proof {
                    assert forall|t: Seq<char>| (emitted + (seq![*c] + t)) == #[trigger] (emitted.push(*c) + t) by {
                        assert((emitted + (seq![*c] + t)) =~= (emitted.push(*c) + t));
                    }
                }
            }
            cur = match cur {
                HuffmanTree::Node { l, r, .. } => if bit {
                    &**r
                } else {
                    &**l
                },
                HuffmanTree::Leaf { .. } => cur,
            };
            i = i + 1;
        }
        proof {
            assert(bits.skip(i as int).len() == 0);
        }
        match cur {
            HuffmanTree::Leaf { char: c, .. } => {
                push_char(&mut result, *c);
                Ok(result)
            },
            HuffmanTree::Node { .. } => Err(HuffmanError::TruncatedInput),
        }
    }
}

} // verus!
