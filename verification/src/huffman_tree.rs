//! The code tree and the quantities that its contracts speak of.

use vstd::multiset::Multiset;
use vstd::prelude::*;

verus! {

/// What can go wrong while building a tree, encoding or decoding.
#[derive(Debug, Clone, Copy, PartialEq, Eq)]
pub enum HuffmanError {
    /// A tree was asked for a text without symbols.
    EmptyInput,
    /// The text to encode holds a symbol that has no code.
    UnknownSymbol,
    /// The bits to decode end in the middle of a code.
    TruncatedInput,
}

/// A binary code tree. A leaf stands for one symbol; an inner node joins
/// two subtrees, `l` reached by bit 0 and `r` by bit 1.
#[derive(Debug, PartialEq, Eq)]
pub enum HuffmanTree {
    Node { freq: u32, l: Box<HuffmanTree>, r: Box<HuffmanTree> },
    Leaf { char: char, freq: u32 },
}

impl HuffmanTree {
    /// The frequency stored at the root.
    pub open spec fn root_freq(self) -> nat {
        match self {
            HuffmanTree::Node { freq, .. } => freq as nat,
            HuffmanTree::Leaf { freq, .. } => freq as nat,
        }
    }

    /// The sum of the frequencies of all leaves.
    pub open spec fn weight(self) -> nat
        decreases self,
    {
        match self {
            HuffmanTree::Node { l, r, .. } => l.weight() + r.weight(),
            HuffmanTree::Leaf { freq, .. } => freq as nat,
        }
    }

    /// Every leaf has a positive frequency, and every inner node stores the
    /// sum of the frequencies stored at its two children.
    pub open spec fn wf(self) -> bool
        decreases self,
    {
        match self {
            HuffmanTree::Node { freq, l, r } => freq == l.root_freq() + r.root_freq() && l.wf()
                && r.wf(),
            HuffmanTree::Leaf { freq, .. } => freq > 0,
        }
    }

    /// The leaves from left to right, each as its symbol and frequency.
    pub open spec fn leaves(self) -> Seq<(char, nat)>
        decreases self,
    {
        match self {
            HuffmanTree::Node { l, r, .. } => l.leaves() + r.leaves(),
            HuffmanTree::Leaf { char, freq } => seq![(char, freq as nat)],
        }
    }

    /// The frequencies of the leaves, each as often as it occurs.
    pub open spec fn leaf_weights(self) -> Multiset<nat>
        decreases self,
    {
        match self {
            HuffmanTree::Node { l, r, .. } => l.leaf_weights().add(r.leaf_weights()),
            HuffmanTree::Leaf { freq, .. } => Multiset::<nat>::singleton(freq as nat),
        }
    }

    /// The length of the longest path from the root to a leaf.
    pub open spec fn height(self) -> nat
        decreases self,
    {
        match self {
            HuffmanTree::Node { l, r, .. } => 1 + if l.height() >= r.height() {
                l.height()
            } else {
                r.height()
            },
            HuffmanTree::Leaf { .. } => 0,
        }
    }

    /// The sum over the leaves of frequency times depth, for a tree whose
    /// root lies at depth `depth`.
    pub open spec fn cost_at(self, depth: nat) -> nat
        decreases self,
    {
        match self {
            HuffmanTree::Node { l, r, .. } => l.cost_at(depth + 1) + r.cost_at(depth + 1),
            HuffmanTree::Leaf { freq, .. } => freq as nat * depth,
        }
    }

    /// The weighted path length: the sum over the leaves of frequency times
    /// code length.
    pub open spec fn cost(self) -> nat {
        self.cost_at(0)
    }

    /// Whether some leaf carries the symbol with scalar value `k`.
    pub open spec fn has_code(self, k: u32) -> bool
        decreases self,
    {
        match self {
            HuffmanTree::Node { l, r, .. } => l.has_code(k) || r.has_code(k),
            HuffmanTree::Leaf { char, .. } => char as u32 == k,
        }
    }

    /// Whether some leaf carries the symbol `c`.
    pub open spec fn has_symbol(self, c: char) -> bool {
        self.has_code(c as u32)
    }

    /// Whether no symbol stands on two leaves of the tree.
    pub open spec fn distinct(self) -> bool
        decreases self,
    {
        match self {
            HuffmanTree::Node { l, r, .. } => l.distinct() && r.distinct() && forall|k: u32|
                !(#[trigger] l.has_code(k) && #[trigger] r.has_code(k)),
            HuffmanTree::Leaf { .. } => true,
        }
    }

    /// In a well-formed tree the root stores the sum of all leaf
    /// frequencies, which is positive.
    pub proof fn lemma_wf_weight(self)
        requires
            self.wf(),
        ensures
            self.root_freq() == self.weight(),
            self.weight() > 0,
        decreases self,
    {
        match self {
            HuffmanTree::Node { l, r, .. } => {
                l.lemma_wf_weight();
                r.lemma_wf_weight();
            },
            HuffmanTree::Leaf { .. } => {},
        }
    }

    /// A well-formed tree is lower than its weight, every leaf counting at
    /// least once; so its height fits in 32 bits.
    pub proof fn lemma_wf_height(self)
        requires
            self.wf(),
        ensures
            self.height() < self.weight(),
            self.height() < u32::MAX,
        decreases self,
    {
        self.lemma_wf_weight();
        match self {
            HuffmanTree::Node { l, r, .. } => {
                l.lemma_wf_height();
                r.lemma_wf_height();
            },
            HuffmanTree::Leaf { .. } => {},
        }
    }

    /// The frequency stored at the root.
    pub fn root_frequency(&self) -> (f: u32)
        ensures
            f == self.root_freq(),
    {
        match self {
            HuffmanTree::Node { freq, .. } => *freq,
            HuffmanTree::Leaf { freq, .. } => *freq,
        }
    }
}

/// Orders two trees by the frequency at their roots: the first of the pair
/// returned has the larger one, and `x` comes first when they are equal.
pub fn max_and_min(x: HuffmanTree, y: HuffmanTree) -> (pair: (HuffmanTree, HuffmanTree))
    ensures
        pair == if x.root_freq() >= y.root_freq() {
            (x, y)
        } else {
            (y, x)
        },
{
    if x.root_frequency() >= y.root_frequency() {
        (x, y)
    } else {
        (y, x)
    }
}

} // verus!
