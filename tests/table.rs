use std::collections::HashMap;
use wz::{gen_frequency, trim_map, ByteFreq, ByteStream, Freqmap};

#[test]
fn test_empty_to() {
    // An empty map would have size 1
    let bytes = vec![1];
    let to = Freqmap::from_stream(&bytes).unwrap();
    let from = to.to_stream();
    assert_eq!(bytes, from);
}

#[test]
fn test_to_from() {
    let mut map = HashMap::new();
    map.insert(0, 52);
    map.insert(4, 14);
    map.insert(1, 22);

    let from = Freqmap::new(map.clone()).to_stream();
    let to = Freqmap::from_stream(&from).unwrap();

    let to_map = to.take();
    assert_eq!(map, to_map);
}

#[test]
fn test_trim_map() {
    let mut map = HashMap::new();
    map.insert(1, 12);
    map.insert(2, 512);
    assert_eq!(2, trim_map(&map));

    map.insert(3, 18446744073709551615);
    assert_eq!(8, trim_map(&map));
}

#[test]
fn table_bytes_are_in_byte_order() {
    let mut map = HashMap::new();
    map.insert(4, 14);
    map.insert(0, 300);
    assert_eq!(vec![2, 0, 0x2c, 0x01, 4, 14, 0], Freqmap::new(map).to_stream());
}

#[test]
fn table_cut_inside_an_entry_is_refused() {
    assert!(Freqmap::from_stream(&[1, 7]).is_none());
    assert!(Freqmap::from_stream(&[2, 7, 1]).is_none());
    assert!(Freqmap::from_stream(&[]).is_none());
    assert!(Freqmap::from_stream(&[9]).is_none());
}

#[test]
fn counts_every_byte() {
    let counts = gen_frequency(&[3, 1, 3, 3, 0]);
    let mut expected = HashMap::new();
    expected.insert(3, 3);
    expected.insert(1, 1);
    expected.insert(0, 1);
    assert_eq!(expected, counts);
    assert!(gen_frequency(&[]).is_empty());
}

#[test]
fn byte_freq_accessors() {
    let bf = ByteFreq::new(9, 40);
    assert_eq!(9, bf.byte());
    assert_eq!(40, bf.freq());
}
