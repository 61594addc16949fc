//! The two entry points: compress bytes into a container, and decompress it back.

use vstd::prelude::*;
use crate::bitsequence::{BitSequence, code_view, encode_all};
use crate::bytestream::ByteStream;
use crate::freq::{frequency_of, gen_frequency, lemma_occurrences_positive};
use crate::node::{
    Node, decode_bits, encoding_of, huffman, huffman_tree, leading_false, leaf_paths,
    lemma_lone_leaf, lemma_map_of_paths, lemma_tree_codes, lemma_walk_path, map_of_paths, paths, walk,
};
use crate::wzfile::{
    Wzfile, container_bytes, lemma_container_round_trip, lemma_container_truncated,
    parse_container,
};

verus! {

/// Why a container could not be read.
#[derive(Debug, PartialEq, Eq, Clone, Copy)]
pub enum FormatError {
    /// A declared length runs past the end, a width is out of range, or bytes are left
    /// over.
    Malformed,
}

/// The container that `compress` produces for `b`: empty for empty input, else the
/// frequency table of `b` with the codes of its bytes under that table's tree.
pub open spec fn compress_spec(b: Seq<u8>) -> Seq<u8> {
    if b.len() == 0 {
        Seq::empty()
    } else {
        let m = frequency_of(b);
        container_bytes(m, encode_all(encoding_of(huffman_tree(m).unwrap()), b))
    }
}

/// The bytes that a container decodes to; `None` where it is malformed. Empty input and
/// an empty table give empty output.
pub open spec fn decompress_spec(c: Seq<u8>) -> Option<Seq<u8>> {
    if c.len() == 0 {
        Some(Seq::empty())
    } else {
        match parse_container(c) {
            None => None,
            Some((m, bits)) => match huffman_tree(m) {
                None => Some(Seq::empty()),
                Some(t) => Some(decode_bits(t, bits)),
            },
        }
    }
}

/// The largest input `compress` takes: with codes of at most 255 bits, the payload's
/// bit count then fits in 64 bits.
pub const MAX_INPUT_LEN: u64 = 0xff_ffff_ffff_ffff;

proof fn lemma_encode_all_len(codes: Map<u8, Seq<bool>>, s: Seq<u8>)
    requires
        forall|i: int| 0 <= i < s.len() ==> codes[#[trigger] s[i]].len() <= 255,
    ensures
        encode_all(codes, s).len() <= 255 * s.len(),
    decreases s.len(),
{
    if s.len() > 0 {
        let s0 = s.drop_last();
        assert forall|i: int| 0 <= i < s0.len() implies codes[#[trigger] s0[i]].len() <= 255 by {
            assert(s0[i] == s[i]);
        }
        lemma_encode_all_len(codes, s0);
    }
}

/// The tree of a non-empty input codes every one of its bytes, and its payload fits in
/// a 64-bit bit count.
proof fn lemma_input_codes(b: Seq<u8>)
    requires
        0 < b.len() <= MAX_INPUT_LEN,
    ensures
        huffman_tree(frequency_of(b)) is Some,
        crate::node::depth(huffman_tree(frequency_of(b)).unwrap()) <= 255,
        forall|i: int|
            0 <= i < b.len() ==> encoding_of(huffman_tree(frequency_of(b)).unwrap()).contains_key(
                #[trigger] b[i],
            ),
        encode_all(encoding_of(huffman_tree(frequency_of(b)).unwrap()), b).len() <= u64::MAX,
{
    let m = frequency_of(b);
    lemma_occurrences_positive(b, b[0]);
    assert(m.contains_key(b[0]));
    lemma_tree_codes(m);
    let enc = encoding_of(huffman_tree(m).unwrap());
    assert forall|i: int| 0 <= i < b.len() implies enc.contains_key(#[trigger] b[i]) by {
        lemma_occurrences_positive(b, b[i]);
        assert(m.contains_key(b[i]));
    }
    lemma_encode_all_len(enc, b);
}

/// Compress `bytes` into a container; empty input gives empty output.
pub fn compress(bytes: &[u8]) -> (r: Vec<u8>)
    requires
        bytes@.len() <= MAX_INPUT_LEN,
    ensures
        r@ == compress_spec(bytes@),
{
    let ordering = gen_frequency(bytes);
    let heap = huffman(&ordering);
    let tree = match heap {
        Some(t) => t,
        None => {
            proof {
                if bytes@.len() > 0 {
                    lemma_input_codes(bytes@);
                }
            }
            return Vec::new();
        },
    };
    proof {
        if bytes@.len() == 0 {
            assert(ordering@ =~= Map::<u8, u64>::empty());
            assert(crate::node::leaves(ordering@) =~= Seq::empty()) by {
                lemma_no_leaves(ordering@, 256);
            }
        }
        lemma_input_codes(bytes@);
    }
    let encoding = tree.gen_encoding();
    let seq = BitSequence::translate(bytes, &encoding);
    Wzfile::new(ordering, seq).to_stream()
}

proof fn lemma_no_leaves(m: Map<u8, u64>, k: int)
    requires
        m == Map::<u8, u64>::empty(),
    ensures
        crate::node::leaves_upto(m, k) == Seq::<crate::node::Node>::empty(),
    decreases k,
{
    if k > 0 {
        lemma_no_leaves(m, k - 1);
    }
}

/// Decompress a container; `Err` where it is malformed.
pub fn decompress(bytes: &[u8]) -> (r: Result<Vec<u8>, FormatError>)
    ensures
        match r {
            Ok(v) => decompress_spec(bytes@) == Some(v@),
            Err(_) => decompress_spec(bytes@) is None,
        },
{
    if bytes.len() == 0 {
        return Ok(Vec::new());
    }
    let file = match Wzfile::from_stream(bytes) {
        Some(f) => f,
        None => {
            return Err(FormatError::Malformed);
        },
    };
    let (ordering, seq) = file.deconstruct();
    match huffman(&ordering) {
        None => Ok(Vec::new()),
        Some(tree) => Ok(tree.decode(&seq)),
    }
}


/// Walking the codes of `s` down an internal root gives `s`.
proof fn lemma_walk_encoded(root: Node, s: Seq<u8>, rest: Seq<bool>)
    requires
        root is Internal,
        forall|i: int|
            0 <= i < s.len() ==> map_of_paths(paths(root, Seq::empty())).contains_key(
                #[trigger] s[i],
            ),
    ensures
        walk(root, root, encode_all(map_of_paths(paths(root, Seq::empty())), s) + rest) == s
            + walk(root, root, rest),
    decreases s.len(),
{
    let l = paths(root, Seq::empty());
    let enc = map_of_paths(l);
    if s.len() == 0 {
        assert(encode_all(enc, s) + rest =~= rest);
        assert(s + walk(root, root, rest) =~= walk(root, root, rest));
    } else {
        let s0 = s.drop_last();
        let x = s.last();
        assert(enc.contains_key(s[s.len() - 1]));
        assert forall|i: int| 0 <= i < s0.len() implies enc.contains_key(#[trigger] s0[i]) by {
            assert(s0[i] == s[i]);
        }
        lemma_walk_encoded(root, s0, enc[x] + rest);
        assert(encode_all(enc, s) + rest =~= encode_all(enc, s0) + (enc[x] + rest));
        lemma_map_of_paths(l);
        let i = choose|i: int| 0 <= i < l.len() && #[trigger] l[i] == (enc[x], x);
        lemma_walk_path(root, root, Seq::empty(), i, rest);
        assert(l[i].0.skip(0) =~= l[i].0);
        assert(s0 + (seq![x] + walk(root, root, rest)) =~= s + walk(root, root, rest));
    }
}

/// Under a lone leaf every code is the single bit `0`.
proof fn lemma_encode_single(enc: Map<u8, Seq<bool>>, s: Seq<u8>)
    requires
        forall|i: int| 0 <= i < s.len() ==> enc[#[trigger] s[i]] == seq![false],
    ensures
        encode_all(enc, s) == Seq::new(s.len(), |i: int| false),
    decreases s.len(),
{
    if s.len() > 0 {
        let s0 = s.drop_last();
        assert forall|i: int| 0 <= i < s0.len() implies enc[#[trigger] s0[i]] == seq![false] by {
            assert(s0[i] == s[i]);
        }
        lemma_encode_single(enc, s0);
        assert(enc[s[s.len() - 1]] == seq![false]);
        assert(encode_all(enc, s) =~= Seq::new(s.len(), |i: int| false));
    }
}

proof fn lemma_leading_false_all(n: nat)
    ensures
        leading_false(Seq::new(n, |i: int| false)) == n,
    decreases n,
{
    if n > 0 {
        lemma_leading_false_all((n - 1) as nat);
        assert(Seq::new(n, |i: int| false).drop_first() =~= Seq::new((n - 1) as nat, |i: int| false));
    }
}

/// Decoding the codes of a non-empty input under its own tree gives the input.
proof fn lemma_decode_encoded(b: Seq<u8>)
    requires
        0 < b.len() <= MAX_INPUT_LEN,
    ensures
        decode_bits(
            huffman_tree(frequency_of(b)).unwrap(),
            encode_all(encoding_of(huffman_tree(frequency_of(b)).unwrap()), b),
        ) == b,
{
    lemma_input_codes(b);
    let t = huffman_tree(frequency_of(b)).unwrap();
    let enc = encoding_of(t);
    match t {
        Node::Leaf { contents } => {
            let l = leaf_paths(t);
            assert(l == seq![(seq![false], contents.byte)]);
            assert(l.drop_last() =~= Seq::<(Seq<bool>, u8)>::empty());
            assert(map_of_paths(l.drop_last()) == Map::<u8, Seq<bool>>::empty());
            assert(l.last() == (seq![false], contents.byte));
            assert(enc =~= Map::<u8, Seq<bool>>::empty().insert(contents.byte, seq![false]));
            assert forall|i: int| 0 <= i < b.len() implies enc[#[trigger] b[i]] == seq![false]
                && b[i] == contents.byte by {
                assert(enc.contains_key(b[i]));
            }
            lemma_encode_single(enc, b);
            lemma_leading_false_all(b.len());
            assert(decode_bits(t, encode_all(enc, b)) =~= b);
        },
        Node::Internal { .. } => {
            lemma_walk_encoded(t, b, Seq::empty());
            assert(encode_all(enc, b) + Seq::<bool>::empty() =~= encode_all(enc, b));
            assert(b + walk(t, t, Seq::empty()) =~= b);
        },
    }
}

/// Round trip: decompressing what `compress` makes of a non-empty input gives the input.
pub proof fn lemma_round_trip(b: Seq<u8>)
    requires
        0 < b.len() <= MAX_INPUT_LEN,
    ensures
        decompress_spec(compress_spec(b)) == Some(b),
{
    lemma_input_codes(b);
    let m = frequency_of(b);
    let bits = encode_all(encoding_of(huffman_tree(m).unwrap()), b);
    lemma_container_round_trip(m, bits);
    lemma_decode_encoded(b);
    let c = compress_spec(b);
    assert(c.len() > 0) by {
        assert(c.len() >= 3);
    }
}

/// Empty input compresses to nothing, and nothing decompresses to empty output.
pub proof fn lemma_empty_input()
    ensures
        compress_spec(Seq::empty()) == Seq::<u8>::empty(),
        decompress_spec(Seq::empty()) == Some(Seq::<u8>::empty()),
{
}

/// Compression depends on the input bytes alone: equal inputs give byte-identical
/// containers.
pub proof fn lemma_deterministic(a: Seq<u8>, b: Seq<u8>)
    requires
        a == b,
    ensures
        compress_spec(a) == compress_spec(b),
{
}

/// A container of a non-empty input, cut short by its last byte, fails to decompress.
pub proof fn lemma_truncation_fails(b: Seq<u8>)
    requires
        0 < b.len() <= MAX_INPUT_LEN,
    ensures
        decompress_spec(compress_spec(b).drop_last()) is None,
{
    lemma_input_codes(b);
    let m = frequency_of(b);
    let bits = encode_all(encoding_of(huffman_tree(m).unwrap()), b);
    lemma_container_round_trip(m, bits);
    let c = compress_spec(b);
    assert(c.len() >= 4);
    lemma_container_truncated(c);
}


/// A file of one repeated byte: its encode map gives that byte the single bit `0`, and
/// it decompresses back to itself.
pub proof fn lemma_single_symbol_file(x: u8, n: nat)
    requires
        0 < n <= MAX_INPUT_LEN,
    ensures
        encoding_of(huffman_tree(frequency_of(Seq::new(n, |i: int| x))).unwrap()) == map![x => seq![false]],
        decompress_spec(compress_spec(Seq::new(n, |i: int| x))) == Some(Seq::new(n, |i: int| x)),
{
    let s = Seq::new(n, |i: int| x);
    let m = frequency_of(s);
    assert forall|y: u8| #[trigger] m.contains_key(y) <==> y == x by {
        lemma_occurrences_positive(s, y);
        if y == x {
            assert(s[0] == x);
        }
    }
    lemma_lone_leaf(m, x);
    lemma_round_trip(s);
}

} // verus!
