//! The frequency table and its byte form.

use std::collections::HashMap;
use vstd::prelude::*;
use vstd::slice::slice_subrange;
use crate::bytestream::{
    ByteStream, LONG_LEN, le_bytes, le_value, lemma_le_round_trip, lemma_min_width,
    lemma_pow256_monotonic, long_to_bytes, min_byte_size, min_width, pow256, slice_to_long,
};

verus! {

broadcast use vstd::std_specs::hash::group_hash_axioms;

/// The most bytes a serialized table can take: nine for each of 256 entries, and one for
/// the width field.
pub const MAX_MAP_SIZE: usize = 2305;

/// Width of the field that holds the length of a serialized table.
pub const MAP_SIZE_FIELD_LEN: usize = 2;

/// The largest minimal width among the counts of bytes below `k`, and at least one.
pub open spec fn width_upto(m: Map<u8, u64>, k: int) -> nat
    decreases k,
{
    if k <= 0 {
        1
    } else {
        let w = width_upto(m, k - 1);
        let b = (k - 1) as u8;
        if m.contains_key(b) && min_width(m[b] as nat) > w {
            min_width(m[b] as nat)
        } else {
            w
        }
    }
}

/// The width that every count of the table is written with.
pub open spec fn table_width(m: Map<u8, u64>) -> nat {
    width_upto(m, 256)
}

/// The entries for the bytes below `k`, in increasing byte order: the byte, then its
/// count in `w` little-endian bytes.
pub open spec fn entries_upto(m: Map<u8, u64>, w: nat, k: int) -> Seq<u8>
    decreases k,
{
    if k <= 0 {
        Seq::empty()
    } else {
        entries_upto(m, w, k - 1) + entry(m, w, (k - 1) as u8)
    }
}

/// The entry of byte `b`, empty where `b` is absent.
pub open spec fn entry(m: Map<u8, u64>, w: nat, b: u8) -> Seq<u8> {
    if m.contains_key(b) {
        seq![b] + le_bytes(m[b] as nat, w)
    } else {
        Seq::empty()
    }
}

/// The byte form of a table: its width, then its entries.
pub open spec fn table_bytes(m: Map<u8, u64>) -> Seq<u8> {
    seq![table_width(m) as u8] + entries_upto(m, table_width(m), 256)
}

/// Reads entries of `w`-byte counts, each overriding any earlier one of the same byte;
/// `None` where the last entry is cut short.
pub open spec fn parse_entries(s: Seq<u8>, w: nat, acc: Map<u8, u64>) -> Option<Map<u8, u64>>
    decreases s.len(),
{
    if s.len() == 0 {
        Some(acc)
    } else if s.len() < w + 1 {
        None
    } else {
        parse_entries(s.skip((w + 1) as int), w, acc.insert(s[0], le_value(s.subrange(1, (w + 1) as int)) as u64))
    }
}

/// The table a byte form holds; `None` where it is empty, declares a width above eight,
/// or ends inside an entry.
pub open spec fn parse_table(s: Seq<u8>) -> Option<Map<u8, u64>> {
    if s.len() == 0 || s[0] > 8 {
        None
    } else {
        parse_entries(s.skip(1), s[0] as nat, Map::empty())
    }
}

/// The entries of `m` for the bytes below `k`.
pub open spec fn restrict_below(m: Map<u8, u64>, k: int) -> Map<u8, u64> {
    Map::new(|b: u8| m.contains_key(b) && (b as int) < k, |b: u8| m[b])
}

pub proof fn lemma_width_upto(m: Map<u8, u64>, k: int)
    ensures
        1 <= width_upto(m, k) <= 8,
        forall|b: u8| #![trigger m[b]]
            m.contains_key(b) && (b as int) < k ==> min_width(m[b] as nat) <= width_upto(m, k),
    decreases k,
{
    if k > 0 {
        lemma_width_upto(m, k - 1);
        lemma_min_width(m[(k - 1) as u8] as nat);
    }
}

pub proof fn lemma_entries_len(m: Map<u8, u64>, w: nat, k: int)
    requires
        0 <= k,
    ensures
        entries_upto(m, w, k).len() <= k * (w + 1),
    decreases k,
{
    if k > 0 {
        lemma_entries_len(m, w, k - 1);
        let b = (k - 1) as u8;
        if m.contains_key(b) {
            lemma_le_len(m[b] as nat, w);
        }
        assert(k * (w + 1) == (k - 1) * (w + 1) + w + 1) by (nonlinear_arith);
    }
}

proof fn lemma_le_len(v: nat, n: nat)
    ensures
        le_bytes(v, n).len() == n,
    decreases n,
{
    if n > 0 {
        lemma_le_len(v / 256, (n - 1) as nat);
    }
}

/// The byte form of a table is at most `MAX_MAP_SIZE` long.
pub proof fn lemma_table_bytes_len(m: Map<u8, u64>)
    ensures
        table_bytes(m).len() <= MAX_MAP_SIZE,
{
    lemma_width_upto(m, 256);
    lemma_entries_len(m, table_width(m), 256);
    assert(256 * (table_width(m) + 1) <= 2304) by (nonlinear_arith)
        requires
            table_width(m) <= 8,
    ;
}

proof fn lemma_parse_entries_upto(m: Map<u8, u64>, w: nat, k: int, rest: Seq<u8>, acc: Map<u8, u64>)
    requires
        0 <= k <= 256,
        forall|b: u8| #![trigger m[b]] m.contains_key(b) ==> min_width(m[b] as nat) <= w,
    ensures
        parse_entries(entries_upto(m, w, k) + rest, w, acc) == parse_entries(
            rest,
            w,
            acc.union_prefer_right(restrict_below(m, k)),
        ),
    decreases k,
{
    if k == 0 {
        assert(entries_upto(m, w, k) + rest =~= rest);
        assert(acc.union_prefer_right(restrict_below(m, k)) =~= acc);
    } else {
        let b = (k - 1) as u8;
        let e = entry(m, w, b);
        assert(entries_upto(m, w, k) + rest =~= entries_upto(m, w, k - 1) + (e + rest));
        lemma_parse_entries_upto(m, w, k - 1, e + rest, acc);
        let a = acc.union_prefer_right(restrict_below(m, k - 1));
        if m.contains_key(b) {
            lemma_min_width(m[b] as nat);
            lemma_pow256_monotonic(min_width(m[b] as nat), w);
            lemma_le_round_trip(m[b] as nat, w);
            let s = e + rest;
            assert(s[0] == b);
            assert(s.subrange(1, (w + 1) as int) =~= le_bytes(m[b] as nat, w));
            assert(s.skip((w + 1) as int) =~= rest);
            assert(a.insert(b, m[b]) =~= acc.union_prefer_right(restrict_below(m, k)));
        } else {
            assert(e + rest =~= rest);
            assert(a =~= acc.union_prefer_right(restrict_below(m, k)));
        }
    }
}

/// Reading the byte form of a table gives the table back.
pub proof fn lemma_table_round_trip(m: Map<u8, u64>)
    ensures
        parse_table(table_bytes(m)) == Some(m),
{
    lemma_width_upto(m, 256);
    let w = table_width(m);
    let s = table_bytes(m);
    assert(s.skip(1) =~= entries_upto(m, w, 256) + Seq::<u8>::empty());
    lemma_parse_entries_upto(m, w, 256, Seq::empty(), Map::empty());
    assert(Map::<u8, u64>::empty().union_prefer_right(restrict_below(m, 256)) =~= m);
}

/// A frequency table: a count for each byte that occurs.
#[derive(Debug, Clone, PartialEq)]
pub struct Freqmap {
    data: HashMap<u8, u64>,
}

impl View for Freqmap {
    type V = Map<u8, u64>;

    closed spec fn view(&self) -> Map<u8, u64> {
        self.data@
    }
}

impl Freqmap {
    /// Wrap a table for serialization.
    pub fn new(map: HashMap<u8, u64>) -> (r: Self)
        ensures
            r@ == map@,
    {
        Freqmap { data: map }
    }

    /// The table held.
    pub fn take(self) -> (r: HashMap<u8, u64>)
        ensures
            r@ == self@,
    {
        self.data
    }
}

/// The fewest bytes that hold every count of the table, and at least one.
pub fn trim_map(map: &HashMap<u8, u64>) -> (r: u8)
    ensures
        r == table_width(map@),
        1 <= r <= 8,
{
    let mut size: u8 = 1;
    let mut b: u16 = 0;
    while b < 256
        invariant
            b <= 256,
            size == width_upto(map@, b as int),
            1 <= size <= 8,
        decreases 256 - b,
    {
        let byte = b as u8;
        match map.get(&byte) {
            Some(v) => {
                let w = min_byte_size(*v);
                if w > size {
                    size = w;
                }
            },
            None => {},
        }
        b = b + 1;
    }
    size
}

impl ByteStream for Freqmap {
    type Data = Freqmap;

    /// Read a table from its byte form; `None` where `parse_table` finds it malformed.
    fn from_stream(bytes: &[u8]) -> (r: Option<Freqmap>)
        ensures
            match r {
                Some(f) => parse_table(bytes@) == Some(f@),
                None => parse_table(bytes@) is None,
            },
    {
        if bytes.len() == 0 {
            return None;
        }
        let size = bytes[0];
        if size as usize > LONG_LEN {
            return None;
        }
        let mut map: HashMap<u8, u64> = HashMap::new();
        let n = bytes.len();
        let step: usize = size as usize + 1;
        let mut i: usize = 1;
        proof {
            assert(bytes@.skip(1) =~= bytes@.subrange(1, n as int));
        }
        while i < n
            invariant
                n == bytes@.len(),
                1 <= i <= n,
                size <= 8,
                step == size + 1,
                bytes@.len() > 0 && bytes@[0] == size,
                parse_table(bytes@) == parse_entries(
                    bytes@.subrange(i as int, n as int),
                    size as nat,
                    map@,
                ),
            decreases n - i,
        {
            let ghost s = bytes@.subrange(i as int, n as int);
            if n - i < step {
                return None;
            }
            let byte = bytes[i];
            let val = slice_to_long(slice_subrange(bytes, i + 1, i + step));
            proof {
                assert(s.subrange(1, size + 1) =~= bytes@.subrange(i + 1, (i + step) as int));
                assert(s.skip(size + 1) =~= bytes@.subrange((i + step) as int, n as int));
            }
            map.insert(byte, val);
            i = i + step;
        }
        proof {
            assert(bytes@.subrange(i as int, n as int) =~= Seq::<u8>::empty());
        }
        Some(Freqmap::new(map))
    }

    /// The byte form of the table, `table_bytes`.
    fn to_stream(self) -> (r: Vec<u8>)
        ensures
            r@ == table_bytes(self@),
    {
        let data = self.take();
        let size = trim_map(&data);
        let mut r: Vec<u8> = Vec::new();
        r.push(size);
        proof {
            lemma_width_upto(data@, 256);
        }
        let mut b: u16 = 0;
        while b < 256
            invariant
                b <= 256,
                size == table_width(data@),
                1 <= size <= 8,
                forall|x: u8| #![trigger data@[x]]
                    data@.contains_key(x) ==> min_width(data@[x] as nat) <= size,
                r@ == seq![size] + entries_upto(data@, size as nat, b as int),
            decreases 256 - b,
        {
            let byte = b as u8;
            match data.get(&byte) {
                Some(v) => {
                    r.push(byte);
                    let mut bytes = long_to_bytes(*v, size);
                    r.append(&mut bytes);
                },
                None => {},
            }
            proof {
                assert(r@ =~= seq![size] + entries_upto(data@, size as nat, b + 1));
            }
            b = b + 1;
        }
        r
    }
}

} // verus!
