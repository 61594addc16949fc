//! The container: a frequency table and an encoded payload, as one byte blob.
//!
//! Layout, integers little-endian: the table's length in two bytes, the table, the
//! width of the payload's bit count in one byte, the bit count in that many bytes, then
//! the packed payload.

use std::collections::HashMap;
use vstd::prelude::*;
use vstd::slice::slice_subrange;
use crate::bitsequence::{BitSequence, bytes_for, lemma_unpack_pack, pack, unpack};
use crate::bytestream::{
    ByteStream, LONG_LEN, le_bytes, le_value, lemma_le_round_trip, lemma_min_width, lemma_pow256_8,
    lemma_pow256_monotonic, long_to_bytes, min_byte_size, min_width, pow256, slice_to_long,
};
use crate::freqmap::{
    Freqmap, MAP_SIZE_FIELD_LEN, MAX_MAP_SIZE, lemma_table_bytes_len, lemma_table_round_trip,
    parse_table, table_bytes,
};

verus! {

/// The byte form of a container holding table `m` and payload `bits`.
pub open spec fn container_bytes(m: Map<u8, u64>, bits: Seq<bool>) -> Seq<u8> {
    let t = table_bytes(m);
    let w = min_width(bits.len());
    le_bytes(t.len(), 2) + t + seq![w as u8] + le_bytes(bits.len(), w) + pack(bits)
}

/// The table and payload a container holds; `None` where a declared length runs past
/// the end, a width exceeds eight bytes, the table is malformed, or bytes are left over.
pub open spec fn parse_container(s: Seq<u8>) -> Option<(Map<u8, u64>, Seq<bool>)> {
    if s.len() < 2 {
        None
    } else {
        let t = le_value(s.take(2)) as int;
        if t > MAX_MAP_SIZE || s.len() < t + 3 {
            None
        } else {
            match parse_table(s.subrange(2, t + 2)) {
                None => None,
                Some(m) => {
                    let w = s[t + 2] as int;
                    if w > 8 || s.len() < t + 3 + w {
                        None
                    } else {
                        let n = le_value(s.subrange(t + 3, t + 3 + w));
                        if s.len() - (t + 3 + w) != bytes_for(n) {
                            None
                        } else {
                            Some((m, unpack(n, s.skip(t + 3 + w))))
                        }
                    }
                },
            }
        }
    }
}

/// A value below `256^k` is at most `k` bytes wide.
pub proof fn lemma_min_width_at_most(v: nat, k: nat)
    requires
        v < pow256(k),
    ensures
        min_width(v) <= k || (v == 0 && k == 0),
{
    lemma_min_width(v);
    if min_width(v) > k && k > 0 {
        lemma_pow256_monotonic(k, (min_width(v) - 1) as nat);
    }
    if k == 0 {
        assert(pow256(0) == 1);
    }
}

/// Reading the byte form of a container gives back its table and payload.
pub proof fn lemma_container_round_trip(m: Map<u8, u64>, bits: Seq<bool>)
    requires
        bits.len() <= u64::MAX,
    ensures
        parse_container(container_bytes(m, bits)) == Some((m, bits)),
{
    let t = table_bytes(m);
    let tl = t.len();
    let n = bits.len();
    let w = min_width(n);
    lemma_table_bytes_len(m);
    lemma_pow256_8();
    lemma_le_round_trip(tl, 2);
    lemma_min_width(n);
    lemma_le_round_trip(n, w);
    lemma_unpack_pack(bits);
    lemma_table_round_trip(m);
    let h = le_bytes(tl, 2);
    let s = container_bytes(m, bits);
    assert(s == h + t + seq![w as u8] + le_bytes(n, w) + pack(bits));
    let ti = tl as int;
    assert(s.take(2) =~= h);
    assert(s.subrange(2, ti + 2) =~= t);
    assert(s[ti + 2] == w as u8);
    assert(s.subrange(ti + 3, ti + 3 + w) =~= le_bytes(n, w));
    assert(s.skip(ti + 3 + w) =~= pack(bits));
}

/// A well-formed container, cut short by its last byte, is malformed.
pub proof fn lemma_container_truncated(s: Seq<u8>)
    requires
        parse_container(s) is Some,
    ensures
        parse_container(s.drop_last()) is None,
{
    let c = s.drop_last();
    if c.len() >= 2 {
        assert(c.take(2) =~= s.take(2));
        let t = le_value(s.take(2)) as int;
        if t <= MAX_MAP_SIZE && c.len() >= t + 3 {
            assert(c.subrange(2, t + 2) =~= s.subrange(2, t + 2));
            assert(c[t + 2] == s[t + 2]);
            let w = s[t + 2] as int;
            if w <= 8 && c.len() >= t + 3 + w {
                assert(c.subrange(t + 3, t + 3 + w) =~= s.subrange(t + 3, t + 3 + w));
            }
        }
    }
}

/// A frequency table with the payload it encodes.
#[derive(Debug, PartialEq)]
pub struct Wzfile {
    map: Freqmap,
    seq: BitSequence,
}

impl View for Wzfile {
    type V = (Map<u8, u64>, Seq<bool>);

    closed spec fn view(&self) -> (Map<u8, u64>, Seq<bool>) {
        (self.map@, self.seq@)
    }
}

impl Wzfile {
    #[verifier::type_invariant]
    closed spec fn payload_wf(&self) -> bool {
        self.seq.wf()
    }

    /// A container of table `map` and payload `seq`.
    pub fn new(map: HashMap<u8, u64>, seq: BitSequence) -> (r: Self)
        requires
            seq.wf(),
        ensures
            r@ == (map@, seq@),
    {
        Wzfile { map: Freqmap::new(map), seq }
    }

    /// Take the container apart into its table and payload.
    pub fn deconstruct(self) -> (r: (HashMap<u8, u64>, BitSequence))
        ensures
            r.0@ == self@.0,
            r.1@ == self@.1,
            r.1.wf(),
    {
        proof {
            use_type_invariant(&self);
        }
        let map = self.map.take();
        let seq = self.seq;
        (map, seq)
    }
}

impl ByteStream for Wzfile {
    type Data = Wzfile;

    /// Read a container by a strict cursor; `None` where `parse_container` finds it
    /// malformed.
    fn from_stream(bytes: &[u8]) -> (r: Option<Wzfile>)
        ensures
            match r {
                Some(f) => parse_container(bytes@) == Some(f@),
                None => parse_container(bytes@) is None,
            },
    {
        let len = bytes.len();
        if len < MAP_SIZE_FIELD_LEN {
            return None;
        }
        let map_len = slice_to_long(slice_subrange(bytes, 0, MAP_SIZE_FIELD_LEN));
        proof {
            assert(bytes@.subrange(0, 2) =~= bytes@.take(2));
        }
        if map_len > MAX_MAP_SIZE as u64 {
            return None;
        }
        let map_len = map_len as usize;
        let mut i: usize = MAP_SIZE_FIELD_LEN;
        if len - i < map_len + 1 {
            return None;
        }
        let map = match Freqmap::from_stream(slice_subrange(bytes, i, i + map_len)) {
            Some(m) => m,
            None => {
                return None;
            },
        };
        i = i + map_len;
        let seq_len_len = bytes[i] as usize;
        i = i + 1;
        if seq_len_len > LONG_LEN || len - i < seq_len_len {
            return None;
        }
        let seq_len = slice_to_long(slice_subrange(bytes, i, i + seq_len_len));
        i = i + seq_len_len;
        let need: u64 = seq_len / 8 + if seq_len % 8 != 0 {
            1
        } else {
            0
        };
        if (len - i) as u64 != need {
            return None;
        }
        let seq = BitSequence::from(seq_len, slice_subrange(bytes, i, len));
        proof {
            assert(bytes@.subrange(i as int, len as int) =~= bytes@.skip(i as int));
        }
        Some(Wzfile::new(map.take(), seq))
    }

    /// The byte form of the container, `container_bytes`.
    fn to_stream(self) -> (r: Vec<u8>)
        ensures
            r@ == container_bytes(self@.0, self@.1),
    {
        proof {
            use_type_invariant(&self);
        }
        let (data, seq) = self.deconstruct();
        let mut map_bytes = Freqmap::new(data).to_stream();
        proof {
            lemma_table_bytes_len(self@.0);
            lemma_pow256_8();
            lemma_min_width_at_most(map_bytes@.len(), 2);
        }
        let mut retval = long_to_bytes(map_bytes.len() as u64, MAP_SIZE_FIELD_LEN as u8);
        retval.append(&mut map_bytes);
        let size = seq.length();
        let size_width = min_byte_size(size);
        retval.push(size_width);
        let mut size_bytes = long_to_bytes(size, size_width);
        retval.append(&mut size_bytes);
        let mut storage = seq.storage_bytes();
        retval.append(&mut storage);
        retval
    }
}

} // verus!
