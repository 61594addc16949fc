use std::collections::HashMap;
use wz::{compress, decompress, BitSequence, ByteStream, FormatError, Wzfile};

#[test]
fn test_no_len() {
    let expected = Wzfile::new(HashMap::new(), BitSequence::new());

    let to = Wzfile::new(HashMap::new(), BitSequence::new()).to_stream();
    let from = Wzfile::from_stream(&to).unwrap();

    assert_eq!(expected, from);
}

fn real_deal() -> Wzfile {
    let mut map: HashMap<u8, u64> = HashMap::new();
    for i in 0..20 {
        map.insert(i, i as u64 * i as u64);
    }

    let mut seq = BitSequence::new();
    for i in 0..33 {
        seq.append_bit(i % 2);
    }

    Wzfile::new(map, seq)
}

#[test]
fn test_real_deal() {
    let expected = real_deal();

    let to = real_deal().to_stream();
    let from = Wzfile::from_stream(&to).unwrap();

    assert_eq!(expected, from);
}

#[test]
fn deconstruct_returns_the_parts() {
    let (map, seq) = real_deal().deconstruct();
    assert_eq!(20, map.len());
    assert_eq!(Some(&361), map.get(&19));
    assert_eq!(33, seq.length());
}

#[test]
fn single_symbol_layout() {
    assert_eq!(vec![3, 0, 1, 5, 3, 1, 3, 0], compress(&[5, 5, 5]));
}

#[test]
fn two_symbol_layout() {
    assert_eq!(vec![5, 0, 1, 97, 1, 98, 1, 1, 2, 2], compress(b"ab"));
}

#[test]
fn empty_input() {
    assert_eq!(Vec::<u8>::new(), compress(&[]));
    assert_eq!(Ok(Vec::new()), decompress(&[]));
}

#[test]
fn round_trip_text() {
    let input = b"abracadabra, said the magician to the rabbit".to_vec();
    let packed = compress(&input);
    assert!(packed.len() > 0);
    assert_eq!(Ok(input), decompress(&packed));
}

#[test]
fn round_trip_every_byte_value() {
    let mut input = Vec::new();
    for i in 0..=255u8 {
        for _ in 0..(i as usize % 7 + 1) {
            input.push(i);
        }
    }
    assert_eq!(Ok(input.clone()), decompress(&compress(&input)));
}

#[test]
fn round_trip_skewed_counts() {
    let mut input = Vec::new();
    let mut n = 1;
    for b in 0..20u8 {
        for _ in 0..n {
            input.push(b);
        }
        n = n * 2;
    }
    assert_eq!(Ok(input.clone()), decompress(&compress(&input)));
}

#[test]
fn compress_is_deterministic() {
    let input = b"mississippi river banks".to_vec();
    assert_eq!(compress(&input), compress(&input));
}

#[test]
fn single_symbol_file() {
    let input = vec![7u8; 1000];
    let counts = wz::gen_frequency(&input);
    let encoding = wz::huffman(&counts).unwrap().gen_encoding();
    assert_eq!(1, encoding.len());
    assert_eq!(&BitSequence::from_bits(&[0]), encoding.get(&7).unwrap());
    assert_eq!(Ok(input), decompress(&compress(&vec![7u8; 1000])));
}

#[test]
fn truncated_container_fails() {
    let packed = compress(b"hello, world");
    let cut = &packed[..packed.len() - 1];
    assert_eq!(Err(FormatError::Malformed), decompress(cut));
    let packed = compress(&[5, 5, 5]);
    assert_eq!(Err(FormatError::Malformed), decompress(&packed[..packed.len() - 1]));
}

#[test]
fn trailing_byte_fails() {
    let mut packed = compress(b"hello");
    packed.push(0);
    assert_eq!(Err(FormatError::Malformed), decompress(&packed));
}

#[test]
fn oversized_table_length_fails() {
    assert_eq!(Err(FormatError::Malformed), decompress(&[0xff, 0xff, 1]));
    assert_eq!(Err(FormatError::Malformed), decompress(&[7]));
}

#[test]
fn empty_table_decompresses_to_nothing() {
    assert_eq!(Ok(Vec::new()), decompress(&[1, 0, 1, 1, 0]));
}
