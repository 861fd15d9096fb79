use bit_vec::BitVec;
use huffman::forest::min_position;
use huffman::frequency::{frequencies, leaves_of};
use huffman::huffman_tree::{max_and_min, HuffmanError, HuffmanTree};

fn leaf(c: char, freq: u32) -> HuffmanTree {
    HuffmanTree::Leaf { char: c, freq }
}

fn node(freq: u32, l: HuffmanTree, r: HuffmanTree) -> HuffmanTree {
    HuffmanTree::Node { freq, l: Box::new(l), r: Box::new(r) }
}

fn bits(s: &str) -> BitVec {
    let mut v = BitVec::new();
    for c in s.chars() {
        v.push(c == '1');
    }
    v
}

fn code_of(tree: &HuffmanTree, c: char) -> BitVec {
    tree.encode_code().get(&(c as u32)).unwrap().clone()
}

#[test]
fn text_aaabbc_tree() {
    let tree = HuffmanTree::new("aaabbc").unwrap();
    let expected = node(6, leaf('a', 3), node(3, leaf('b', 2), leaf('c', 1)));
    assert_eq!(tree, expected);
}

#[test]
fn text_aaabbc_frequencies() {
    let m = frequencies("aaabbc");
    assert_eq!(m.len(), 3);
    assert_eq!(m.get(&('a' as u32)), Some(&3));
    assert_eq!(m.get(&('b' as u32)), Some(&2));
    assert_eq!(m.get(&('c' as u32)), Some(&1));
}

#[test]
fn text_aaabbc_code_lengths() {
    let tree = HuffmanTree::new("aaabbc").unwrap();
    let table = tree.encode_code();
    assert_eq!(table.len(), 3);
    assert_eq!(table.get(&('a' as u32)).unwrap().len(), 1);
    assert_eq!(table.get(&('b' as u32)).unwrap().len(), 2);
    assert_eq!(table.get(&('c' as u32)).unwrap().len(), 2);
}

#[test]
fn text_aaabbc_codes() {
    let tree = HuffmanTree::new("aaabbc").unwrap();
    assert_eq!(code_of(&tree, 'a'), bits("0"));
    assert_eq!(code_of(&tree, 'b'), bits("10"));
    assert_eq!(code_of(&tree, 'c'), bits("11"));
}

#[test]
fn text_aaabbc_encode_and_decode() {
    let tree = HuffmanTree::new("aaabbc").unwrap();
    let encoded = tree.encode("aaabbc").unwrap();
    assert_eq!(encoded.len(), 9);
    assert_eq!(encoded, bits("000101011"));
    assert_eq!(encoded.to_bytes().len(), 2);
    assert_eq!(tree.decode(&encoded), Ok(String::from("aaabbc")));
}

#[test]
fn empty_input_has_no_tree() {
    assert_eq!(HuffmanTree::new(""), Err(HuffmanError::EmptyInput));
}

#[test]
fn merge_all_refuses_an_empty_forest() {
    assert_eq!(HuffmanTree::merge_all(Vec::new()), Err(HuffmanError::EmptyInput));
}

#[test]
fn merge_all_keeps_a_single_tree() {
    let forest = vec![node(5, leaf('x', 2), leaf('y', 3))];
    assert_eq!(
        HuffmanTree::merge_all(forest),
        Ok(node(5, leaf('x', 2), leaf('y', 3)))
    );
}

#[test]
fn merge_all_joins_the_two_least_first() {
    let forest = vec![leaf('a', 5), leaf('b', 1), leaf('c', 7), leaf('d', 2)];
    let expected = node(
        15,
        node(8, leaf('a', 5), node(3, leaf('d', 2), leaf('b', 1))),
        leaf('c', 7),
    );
    assert_eq!(HuffmanTree::merge_all(forest), Ok(expected));
}

#[test]
fn single_symbol_text_gives_a_single_leaf() {
    let tree = HuffmanTree::new("aaaa").unwrap();
    assert_eq!(tree, leaf('a', 4));
    let table = tree.encode_code();
    assert_eq!(table.len(), 1);
    assert_eq!(table.get(&('a' as u32)), Some(&BitVec::new()));
}

#[test]
fn single_symbol_text_round_trips() {
    let tree = HuffmanTree::new("aaaa").unwrap();
    let encoded = tree.encode("aaaa").unwrap();
    assert_eq!(encoded, bits("000"));
    assert_eq!(tree.decode(&encoded), Ok(String::from("aaaa")));
}

#[test]
fn single_symbol_texts_of_every_length_round_trip() {
    let tree = HuffmanTree::new("zz").unwrap();
    let mut text = String::new();
    for n in 1..40 {
        text.push('z');
        let encoded = tree.encode(&text).unwrap();
        assert_eq!(encoded.len(), n - 1);
        assert_eq!(tree.decode(&encoded), Ok(text.clone()));
    }
}

#[test]
fn one_symbol_long_text_round_trips() {
    let tree = HuffmanTree::new("a").unwrap();
    assert_eq!(tree, leaf('a', 1));
    let encoded = tree.encode("a").unwrap();
    assert_eq!(encoded.len(), 0);
    assert_eq!(tree.decode(&encoded), Ok(String::from("a")));
}

#[test]
fn single_leaf_emits_once_per_bit_and_once_at_the_end() {
    let tree = leaf('z', 1);
    assert_eq!(tree.decode(&bits("010")), Ok(String::from("zzzz")));
    assert_eq!(tree.decode(&bits("")), Ok(String::from("z")));
}

#[test]
fn unknown_symbol_is_refused() {
    let tree = HuffmanTree::new("ab").unwrap();
    assert_eq!(tree.encode("abc"), Err(HuffmanError::UnknownSymbol));
    assert_eq!(tree.encode("c"), Err(HuffmanError::UnknownSymbol));
}

#[test]
fn truncated_bits_are_refused() {
    let tree = HuffmanTree::new("aaabbc").unwrap();
    assert_eq!(tree.decode(&bits("1")), Err(HuffmanError::TruncatedInput));
    assert_eq!(tree.decode(&bits("0101")), Err(HuffmanError::TruncatedInput));
    assert_eq!(tree.decode(&bits("")), Err(HuffmanError::TruncatedInput));
}

#[test]
fn decode_walks_left_on_zero_and_right_on_one() {
    let tree = node(2, leaf('l', 1), leaf('r', 1));
    assert_eq!(tree.decode(&bits("0")), Ok(String::from("l")));
    assert_eq!(tree.decode(&bits("1")), Ok(String::from("r")));
    assert_eq!(tree.decode(&bits("0110")), Ok(String::from("lrrl")));
}

#[test]
fn equal_frequencies_are_merged_in_order() {
    let tree = HuffmanTree::new("abcd").unwrap();
    let expected = node(
        4,
        node(2, leaf('a', 1), leaf('b', 1)),
        node(2, leaf('c', 1), leaf('d', 1)),
    );
    assert_eq!(tree, expected);
    assert_eq!(tree.encode("abcd").unwrap(), bits("00011011"));
}

#[test]
fn leaves_come_in_order_of_first_occurrence() {
    let leaves = leaves_of("banana");
    assert_eq!(leaves, vec![leaf('b', 1), leaf('a', 3), leaf('n', 2)]);
}

#[test]
fn leaves_of_an_empty_text() {
    assert_eq!(leaves_of(""), Vec::<HuffmanTree>::new());
    assert_eq!(frequencies("").len(), 0);
}

#[test]
fn min_position_takes_the_first_of_equals() {
    let forest = vec![leaf('a', 3), leaf('b', 1), leaf('c', 1), leaf('d', 2)];
    assert_eq!(min_position(&forest), 1);
    let single = vec![leaf('a', 3)];
    assert_eq!(min_position(&single), 0);
}

#[test]
fn max_and_min_orders_by_root_frequency() {
    assert_eq!(max_and_min(leaf('a', 1), leaf('b', 2)), (leaf('b', 2), leaf('a', 1)));
    assert_eq!(max_and_min(leaf('a', 2), leaf('b', 1)), (leaf('a', 2), leaf('b', 1)));
    assert_eq!(max_and_min(leaf('a', 2), leaf('b', 2)), (leaf('a', 2), leaf('b', 2)));
}

#[test]
fn root_frequency_reads_the_root() {
    assert_eq!(leaf('a', 7).root_frequency(), 7);
    assert_eq!(node(9, leaf('a', 4), leaf('b', 5)).root_frequency(), 9);
}

#[test]
fn inner_nodes_hold_the_sum_of_their_children() {
    fn check(t: &HuffmanTree) -> u32 {
        match t {
            HuffmanTree::Leaf { freq, .. } => *freq,
            HuffmanTree::Node { freq, l, r } => {
                let sum = check(l) + check(r);
                assert_eq!(*freq, sum);
                sum
            }
        }
    }
    let text = "the quick brown fox jumps over the lazy dog";
    let tree = HuffmanTree::new(text).unwrap();
    assert_eq!(check(&tree), text.chars().count() as u32);
}

#[test]
fn leaf_frequencies_are_the_counts() {
    fn collect(t: &HuffmanTree, out: &mut Vec<(char, u32)>) {
        match t {
            HuffmanTree::Leaf { char, freq } => out.push((*char, *freq)),
            HuffmanTree::Node { l, r, .. } => {
                collect(l, out);
                collect(r, out);
            }
        }
    }
    let tree = HuffmanTree::new("mississippi").unwrap();
    let mut found = Vec::new();
    collect(&tree, &mut found);
    found.sort();
    assert_eq!(found, vec![('i', 4), ('m', 1), ('p', 2), ('s', 4)]);
}

#[test]
fn round_trip_of_a_longer_text() {
    let text = "it was the best of times, it was the worst of times";
    let tree = HuffmanTree::new(text).unwrap();
    let encoded = tree.encode(text).unwrap();
    assert_eq!(tree.decode(&encoded), Ok(String::from(text)));
}

#[test]
fn round_trip_of_symbols_beyond_ascii() {
    let text = "żółw 🐢 ślimak 🐌 żółw";
    let tree = HuffmanTree::new(text).unwrap();
    let encoded = tree.encode(text).unwrap();
    assert_eq!(tree.decode(&encoded), Ok(String::from(text)));
}

#[test]
fn no_code_is_a_prefix_of_another() {
    let tree = HuffmanTree::new("abracadabra").unwrap();
    let table = tree.encode_code();
    let codes: Vec<Vec<bool>> = table.values().map(|v| v.iter().collect()).collect();
    assert_eq!(codes.len(), 5);
    for (i, a) in codes.iter().enumerate() {
        for (j, b) in codes.iter().enumerate() {
            if i != j {
                assert!(!(a.len() <= b.len() && b[..a.len()] == a[..]));
            }
        }
    }
}

#[test]
fn encoded_length_is_the_weighted_path_length() {
    let tree = HuffmanTree::new("abracadabra").unwrap();
    let encoded = tree.encode("abracadabra").unwrap();
    assert_eq!(encoded.len(), 23);
}

#[test]
fn duplicate_symbols_take_the_rightmost_code() {
    let tree = node(3, leaf('a', 1), node(2, leaf('b', 1), leaf('a', 1)));
    assert_eq!(code_of(&tree, 'a'), bits("11"));
    assert_eq!(code_of(&tree, 'b'), bits("10"));
}

#[test]
fn encoded_size_counts_the_bits() {
    let tree = HuffmanTree::new("aaabbc").unwrap();
    assert_eq!(tree.encoded_size("aaabbc"), Some(9));
    assert_eq!(tree.encoded_size("cab"), Some(5));
    assert_eq!(tree.encoded_size(""), Some(0));
    assert_eq!(tree.encoded_size("abcd"), None);
    let single = HuffmanTree::new("aaaa").unwrap();
    assert_eq!(single.encoded_size("aaaa"), Some(3));
    assert_eq!(single.encoded_size("a"), Some(0));
    assert_eq!(single.encoded_size(""), Some(0));
    assert_eq!(single.encoded_size("ab"), None);
}

#[test]
fn encoding_the_empty_text_gives_no_bits() {
    let tree = HuffmanTree::new("ab").unwrap();
    assert_eq!(tree.encode(""), Ok(BitVec::new()));
}

#[test]
fn no_other_tree_for_the_same_frequencies_costs_less() {
    fn cost(t: &HuffmanTree, depth: u64) -> u64 {
        match t {
            HuffmanTree::Leaf { freq, .. } => u64::from(*freq) * depth,
            HuffmanTree::Node { l, r, .. } => cost(l, depth + 1) + cost(r, depth + 1),
        }
    }
    let tree = HuffmanTree::new("aaaaabbrrcd").unwrap();
    assert_eq!(cost(&tree, 0), 23);
    let balanced = node(
        11,
        node(7, leaf('a', 5), leaf('b', 2)),
        node(4, leaf('r', 2), node(2, leaf('c', 1), leaf('d', 1))),
    );
    assert_eq!(cost(&balanced, 0), 24);
    let chain = node(
        11,
        leaf('a', 5),
        node(6, leaf('b', 2), node(4, leaf('r', 2), node(2, leaf('c', 1), leaf('d', 1)))),
    );
    assert_eq!(cost(&chain, 0), 23);
    let upside_down = node(
        11,
        leaf('d', 1),
        node(10, leaf('c', 1), node(9, leaf('r', 2), node(7, leaf('b', 2), leaf('a', 5)))),
    );
    assert_eq!(cost(&upside_down, 0), 37);
}

#[test]
fn own_code_is_no_longer_than_a_fixed_length_code() {
    let text = "aaaaabbrrcd";
    let tree = HuffmanTree::new(text).unwrap();
    let own = tree.encode(text).unwrap().len();
    assert_eq!(own, 23);
    let fixed = node(
        11,
        node(
            9,
            node(7, leaf('a', 5), leaf('b', 2)),
            node(3, leaf('r', 2), leaf('c', 1)),
        ),
        node(1, leaf('d', 1), leaf('x', 0)),
    );
    assert_eq!(fixed.encode(text).unwrap().len(), 32);
}

#[test]
fn decoding_inverts_encoding_bit_by_bit() {
    let tree = HuffmanTree::new("aaabbc").unwrap();
    assert_eq!(tree.decode(&bits("0")), Ok(String::from("a")));
    assert_eq!(tree.decode(&bits("10")), Ok(String::from("b")));
    assert_eq!(tree.decode(&bits("11")), Ok(String::from("c")));
    assert_eq!(tree.decode(&bits("11100")), Ok(String::from("cba")));
    assert_eq!(tree.encode("cba"), Ok(bits("11100")));
}
