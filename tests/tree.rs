use std::collections::HashMap;
use wz::{huffman, BitSequence, Node};

#[test]
fn test_single_encoding() {
    let byte = 1;
    let mut freq: HashMap<u8, u64> = HashMap::new();
    freq.insert(byte, 1);

    let mut expected_encoding: HashMap<u8, BitSequence> = HashMap::new();
    expected_encoding.insert(byte, BitSequence::from_bits(&[0]));
    let actual_encoding: HashMap<u8, BitSequence> = huffman(&freq).unwrap().gen_encoding();

    assert_eq!(expected_encoding, actual_encoding);
}

#[test]
fn test_encoding() {
    let mut freq: HashMap<u8, u64> = HashMap::new();
    freq.insert(1, 11);
    freq.insert(0, 4);
    freq.insert(2, 5);
    freq.insert(3, 6);
    freq.insert(4, 1);
    freq.insert(6, 1);
    freq.insert(7, 1);
    freq.insert(5, 2);
    freq.insert(8, 1);
    freq.insert(9, 1);
    let encoding = huffman(&freq).unwrap().gen_encoding();

    assert_eq!(2, encoding.get(&1).unwrap().length());
    assert_eq!(3, encoding.get(&0).unwrap().length());
    assert_eq!(3, encoding.get(&2).unwrap().length());
    assert_eq!(2, encoding.get(&3).unwrap().length());
    assert_eq!(4, encoding.get(&5).unwrap().length());
    assert_eq!(5, encoding.get(&4).unwrap().length());
    assert_eq!(5, encoding.get(&8).unwrap().length());
    assert_eq!(4, encoding.get(&9).unwrap().length());
    assert_eq!(5, encoding.get(&7).unwrap().length());
    assert_eq!(5, encoding.get(&6).unwrap().length());
}

#[test]
fn empty_table_has_no_tree() {
    assert!(huffman(&HashMap::new()).is_none());
}

#[test]
fn tie_break_puts_smaller_byte_left() {
    for _ in 0..5 {
        let mut freq: HashMap<u8, u64> = HashMap::new();
        freq.insert(200, 1);
        freq.insert(13, 1);
        let encoding = huffman(&freq).unwrap().gen_encoding();
        assert_eq!(&BitSequence::from_bits(&[0]), encoding.get(&13).unwrap());
        assert_eq!(&BitSequence::from_bits(&[1]), encoding.get(&200).unwrap());
    }
}

#[test]
fn merges_least_counts_first() {
    let mut freq: HashMap<u8, u64> = HashMap::new();
    freq.insert(b'a', 5);
    freq.insert(b'b', 1);
    freq.insert(b'c', 1);
    let tree = huffman(&freq).unwrap();
    // b and c merge first (b left), then the pair (count 2) goes left of a.
    let encoding = tree.gen_encoding();
    assert_eq!(&BitSequence::from_bits(&[0, 0]), encoding.get(&b'b').unwrap());
    assert_eq!(&BitSequence::from_bits(&[0, 1]), encoding.get(&b'c').unwrap());
    assert_eq!(&BitSequence::from_bits(&[1]), encoding.get(&b'a').unwrap());
    match tree {
        Node::Internal { .. } => {}
        Node::Leaf { .. } => panic!("expected an internal root"),
    }
}

#[test]
fn decoding_lists_codes_left_to_right() {
    let mut freq: HashMap<u8, u64> = HashMap::new();
    freq.insert(b'a', 5);
    freq.insert(b'b', 1);
    freq.insert(b'c', 1);
    let decoding = huffman(&freq).unwrap().gen_decoding();
    assert_eq!(3, decoding.len());
    assert_eq!((BitSequence::from_bits(&[0, 0]), b'b'), decoding[0]);
    assert_eq!((BitSequence::from_bits(&[0, 1]), b'c'), decoding[1]);
    assert_eq!((BitSequence::from_bits(&[1]), b'a'), decoding[2]);
}

#[test]
fn decode_walks_the_tree() {
    let mut freq: HashMap<u8, u64> = HashMap::new();
    freq.insert(b'a', 5);
    freq.insert(b'b', 1);
    freq.insert(b'c', 1);
    let tree = huffman(&freq).unwrap();
    let bits = BitSequence::from_bits(&[1, 0, 1, 0, 0, 1]);
    assert_eq!(b"acba".to_vec(), tree.decode(&bits));
}

#[test]
fn lone_leaf_decodes_zero_bits_until_a_one() {
    let mut freq: HashMap<u8, u64> = HashMap::new();
    freq.insert(42, 3);
    let tree = huffman(&freq).unwrap();
    let bits = BitSequence::from_bits(&[0, 0, 1, 0]);
    assert_eq!(vec![42, 42], tree.decode(&bits));
}

#[test]
fn node_counts_and_smallest_byte() {
    let mut freq: HashMap<u8, u64> = HashMap::new();
    freq.insert(9, 4);
    freq.insert(3, u64::MAX);
    freq.insert(200, 6);
    let tree = huffman(&freq).unwrap();
    assert_eq!(u64::MAX as u128 + 10, tree.freq());
    assert_eq!(3, tree.min_byte());
}

#[test]
fn ranks_build_the_same_tree_as_counts() {
    let mut ranks: HashMap<u8, u8> = HashMap::new();
    ranks.insert(b'x', 2);
    ranks.insert(b'y', 0);
    ranks.insert(b'z', 1);
    let tree = wz::prepare_huffman(&ranks).unwrap();
    let encoding = tree.gen_encoding();
    assert_eq!(&BitSequence::from_bits(&[0, 0]), encoding.get(&b'y').unwrap());
    assert_eq!(&BitSequence::from_bits(&[0, 1]), encoding.get(&b'z').unwrap());
    assert_eq!(&BitSequence::from_bits(&[1]), encoding.get(&b'x').unwrap());
    assert!(wz::prepare_huffman(&HashMap::new()).is_none());
}
