use wz::BitSequence;

#[test]
fn bitsequence_test_construct() {
    BitSequence::new();
}

#[test]
fn bitsequence_test_append_get() {
    let mut seq = BitSequence::new();

    seq.append_bit(0);
    seq.append_bit(1);
    seq.append_bit(0);
    assert_eq!(0, seq.get_bit(0).unwrap());
    assert_eq!(1, seq.get_bit(1).unwrap());

    for _ in 0..32 {
        seq.append_bit(1);
    }
    assert_eq!(1, seq.get_bit(32).unwrap());
    assert_eq!(1, seq.get_bit(1).unwrap());
    assert_eq!(0, seq.get_bit(0).unwrap());
}

#[test]
fn test_iter() {
    let mut seq = BitSequence::new();
    for i in 0..64 {
        seq.append_bit(i % 2);
    }

    let mut iter = seq.iter();
    for i in 0..64 {
        assert_eq!(iter.next().unwrap(), i % 2);
    }
}

#[test]
fn test_append_all() {
    let mut seq1 = BitSequence::new();
    for i in 0..64 {
        seq1.append_bit(i % 2);
    }

    let mut seq2 = BitSequence::new();
    for i in 0..64 {
        seq2.append_bit((i + 1) % 2);
    }

    seq1.append_all(&mut seq2.iter());
    assert_eq!(0, seq1.get_bit(127).unwrap());
}

#[test]
fn test_append_seq() {
    let mut seq1 = BitSequence::new();
    for i in 0..64 {
        seq1.append_bit(i % 2);
    }

    let mut seq2 = BitSequence::new();
    for i in 0..64 {
        seq2.append_bit((i + 1) % 2);
    }

    seq1.append_seq(&seq2);
    assert_eq!(0, seq1.get_bit(127).unwrap());
}

#[test]
fn test_empty_bitseq() {
    let seq = BitSequence::new();
    let from = seq.to_stream();
    let to = BitSequence::from_stream(&from).unwrap();
    assert_eq!(0, to.length());
}

#[test]
fn test_real_bitseq() {
    let mut seq = BitSequence::new();
    for _ in 0..10 {
        seq.append_bit(0);
    }
    seq.append_bit(1);

    let bytes = seq.clone().to_stream();
    let from = BitSequence::from_stream(&bytes).unwrap();

    assert_eq!(seq, from);
}

#[test]
fn bit_addressing_across_a_byte_boundary() {
    let seq = BitSequence::from_bits(&[1, 0, 1, 1, 0, 0, 0, 0, 1]);
    assert_eq!(9, seq.length());
    assert_eq!(2, seq.storage_bytes().len());
    assert_eq!(vec![0b0000_1101, 0b0000_0001], seq.storage_bytes());
    assert_eq!(Some(1), seq.get_bit(8));
    assert_eq!(None, seq.get_bit(9));
}

#[test]
fn get_bit_past_the_end_is_none() {
    let seq = BitSequence::new();
    assert_eq!(None, seq.get_bit(0));
    let seq = BitSequence::from_bits(&[0]);
    assert_eq!(Some(0), seq.get_bit(0));
    assert_eq!(None, seq.get_bit(1));
}

#[test]
fn get_bits_lists_every_bit() {
    let seq = BitSequence::from_bits(&[1, 1, 0, 1]);
    assert_eq!(vec![1, 1, 0, 1], seq.get_bits());
}

#[test]
fn stream_form_is_count_then_storage() {
    let seq = BitSequence::from_bits(&[1, 0, 0, 0, 0, 0, 0, 0, 1, 1]);
    assert_eq!(vec![10, 0, 0, 0, 0, 0, 0, 0, 0b0000_0001, 0b0000_0011], seq.to_stream());
}

#[test]
fn stream_with_wrong_storage_length_is_refused() {
    assert!(BitSequence::from_stream(&[9, 0, 0, 0, 0, 0, 0, 0, 1]).is_none());
    assert!(BitSequence::from_stream(&[1, 0, 0, 0, 0, 0, 0, 0, 1, 0]).is_none());
    assert!(BitSequence::from_stream(&[0, 0, 0]).is_none());
}

#[test]
fn stream_pad_bits_are_cleared() {
    let seq = BitSequence::from_stream(&[3, 0, 0, 0, 0, 0, 0, 0, 0xff]).unwrap();
    assert_eq!(BitSequence::from_bits(&[1, 1, 1]), seq);
    assert_eq!(vec![0b0000_0111], seq.storage_bytes());
}

#[test]
fn duplicate_is_independent() {
    let seq = BitSequence::from_bits(&[1, 0]);
    let mut copy = seq.duplicate();
    copy.append_bit(1);
    assert_eq!(2, seq.length());
    assert_eq!(3, copy.length());
    assert_eq!(Some(1), copy.get_bit(2));
}

#[test]
fn iterator_resumes_where_it_stopped() {
    let source = BitSequence::from_bits(&[1, 0, 1]);
    let mut iter = source.iter();
    assert_eq!(Some(1), iter.next());
    let mut seq = BitSequence::new();
    seq.append_all(&mut iter);
    assert_eq!(vec![0, 1], seq.get_bits());
    assert_eq!(None, iter.next());
}
