//! Huffman coding: a prefix code is built from the symbol frequencies of a
//! text, the text is encoded with it to a bit vector, and the bits are
//! decoded again by walking the code tree.
//!
//! The executable part is small: [`huffman_tree::HuffmanTree::new`] builds
//! the tree of a text, `encode_code` derives its code table, `encode` and
//! `decode` map between texts and bit vectors. Each of these has a contract
//! that says exactly what it returns.
//!
//! Beside them stand the laws that the contracts add up to:
//! - `round_trip`: what was encoded with a tree is decoded by it to the
//!   same text;
//! - `paths`: no code is a prefix of the code of another symbol;
//! - `text_tree`: the tree of a text is well-formed, and its leaves are
//!   the symbols of the text with their frequencies;
//! - `optimal` and `shortest`: no code tree and no prefix-free code for
//!   the same frequencies is shorter.
//!
//! The bit vector is that of the crate `bit_vec`; what is assumed of it is
//! stated in `bits`.

pub mod bits;
pub mod codec;
pub mod exchange;
pub mod forest;
pub mod frequency;
pub mod huffman_tree;
pub mod optimal;
pub mod paths;
pub mod prefix_tree;
pub mod round_trip;
pub mod shape;
pub mod shortest;
pub mod text;
pub mod text_cost;
pub mod text_tree;
