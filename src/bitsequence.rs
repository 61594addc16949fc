//! A growable sequence of bits, packed least-significant-bit first into bytes.

use std::collections::HashMap;
use vstd::prelude::*;
use vstd::slice::slice_subrange;
use crate::bytestream::{le_bytes, le_value, long_to_bytes, lemma_min_width, slice_to_long};

verus! {

/// Whether bit `k` (0 is the least significant) of `byte` is set.
pub open spec fn bit_of(byte: u8, k: u8) -> bool {
    (byte >> k) & 1u8 == 1u8
}

/// The bits read from packed storage: bit `i` is bit `i % 8` of byte `i / 8`.
pub open spec fn unpack(n: nat, storage: Seq<u8>) -> Seq<bool> {
    Seq::new(n, |i: int| bit_of(storage[i / 8], (i % 8) as u8))
}

/// Number of bytes needed to hold `n` bits.
pub open spec fn bytes_for(n: nat) -> nat {
    (n + 7) / 8
}

proof fn lemma_bit_of_or(b: u8, k: u8, j: u8)
    requires
        k < 8,
        j < 8,
    ensures
        bit_of(b | (1u8 << k), j) == (j == k || bit_of(b, j)),
{
    assert(((b | (1u8 << k)) >> j) & 1u8 == 1u8 <==> (j == k || (b >> j) & 1u8 == 1u8))
        by (bit_vector)
        requires
            k < 8,
            j < 8,
    ;
}

proof fn lemma_bit_of_zero(j: u8)
    ensures
        !bit_of(0u8, j),
{
    assert((0u8 >> j) & 1u8 != 1u8) by (bit_vector);
}

proof fn lemma_bit_of_mask(b: u8, k: u8, j: u8)
    requires
        0 < k < 8,
        j < 8,
    ensures
        bit_of(b & (0xffu8 >> ((8 - k) as u8)), j) == (j < k && bit_of(b, j)),
{
    assert(((b & (0xffu8 >> ((8 - k) as u8))) >> j) & 1u8 == 1u8 <==> (j < k && (b >> j) & 1u8
        == 1u8)) by (bit_vector)
        requires
            0 < k < 8,
            j < 8,
    ;
}

/// Bit `i` of `bits`, or `false` past its end.
pub open spec fn bit_at(bits: Seq<bool>, i: int) -> bool {
    0 <= i < bits.len() && bits[i]
}

/// The byte whose bits, least significant first, are `b0` to `b7`.
pub open spec fn byte_of_bits(
    b0: bool,
    b1: bool,
    b2: bool,
    b3: bool,
    b4: bool,
    b5: bool,
    b6: bool,
    b7: bool,
) -> u8 {
    (if b0 { 1u8 } else { 0u8 }) | (if b1 { 2u8 } else { 0u8 }) | (if b2 { 4u8 } else { 0u8 }) | (
    if b3 { 8u8 } else { 0u8 }) | (if b4 { 16u8 } else { 0u8 }) | (if b5 { 32u8 } else { 0u8 }) | (
    if b6 { 64u8 } else { 0u8 }) | (if b7 { 128u8 } else { 0u8 })
}

/// The packed storage of `bits`: eight bits to a byte, least significant first, with
/// the unused bits of the last byte clear.
pub open spec fn pack(bits: Seq<bool>) -> Seq<u8> {
    Seq::new(
        bytes_for(bits.len()),
        |j: int|
            byte_of_bits(
                bit_at(bits, 8 * j),
                bit_at(bits, 8 * j + 1),
                bit_at(bits, 8 * j + 2),
                bit_at(bits, 8 * j + 3),
                bit_at(bits, 8 * j + 4),
                bit_at(bits, 8 * j + 5),
                bit_at(bits, 8 * j + 6),
                bit_at(bits, 8 * j + 7),
            ),
    )
}

proof fn lemma_byte_of_own_bits(x: u8)
    ensures
        x == byte_of_bits(
            bit_of(x, 0),
            bit_of(x, 1),
            bit_of(x, 2),
            bit_of(x, 3),
            bit_of(x, 4),
            bit_of(x, 5),
            bit_of(x, 6),
            bit_of(x, 7),
        ),
{
    assert(x == (if (x >> 0u8) & 1u8 == 1u8 { 1u8 } else { 0u8 }) | (if (x >> 1u8) & 1u8 == 1u8 {
        2u8
    } else {
        0u8
    }) | (if (x >> 2u8) & 1u8 == 1u8 { 4u8 } else { 0u8 }) | (if (x >> 3u8) & 1u8 == 1u8 {
        8u8
    } else {
        0u8
    }) | (if (x >> 4u8) & 1u8 == 1u8 { 16u8 } else { 0u8 }) | (if (x >> 5u8) & 1u8 == 1u8 {
        32u8
    } else {
        0u8
    }) | (if (x >> 6u8) & 1u8 == 1u8 { 64u8 } else { 0u8 }) | (if (x >> 7u8) & 1u8 == 1u8 {
        128u8
    } else {
        0u8
    })) by (bit_vector);
}

proof fn lemma_bits_of_byte(b0: bool, b1: bool, b2: bool, b3: bool, b4: bool, b5: bool, b6: bool, b7: bool)
    ensures
        bit_of(byte_of_bits(b0, b1, b2, b3, b4, b5, b6, b7), 0) == b0,
        bit_of(byte_of_bits(b0, b1, b2, b3, b4, b5, b6, b7), 1) == b1,
        bit_of(byte_of_bits(b0, b1, b2, b3, b4, b5, b6, b7), 2) == b2,
        bit_of(byte_of_bits(b0, b1, b2, b3, b4, b5, b6, b7), 3) == b3,
        bit_of(byte_of_bits(b0, b1, b2, b3, b4, b5, b6, b7), 4) == b4,
        bit_of(byte_of_bits(b0, b1, b2, b3, b4, b5, b6, b7), 5) == b5,
        bit_of(byte_of_bits(b0, b1, b2, b3, b4, b5, b6, b7), 6) == b6,
        bit_of(byte_of_bits(b0, b1, b2, b3, b4, b5, b6, b7), 7) == b7,
{
    let x = byte_of_bits(b0, b1, b2, b3, b4, b5, b6, b7);
    assert(x == (if b0 { 1u8 } else { 0u8 }) | (if b1 { 2u8 } else { 0u8 }) | (if b2 {
        4u8
    } else {
        0u8
    }) | (if b3 { 8u8 } else { 0u8 }) | (if b4 { 16u8 } else { 0u8 }) | (if b5 {
        32u8
    } else {
        0u8
    }) | (if b6 { 64u8 } else { 0u8 }) | (if b7 { 128u8 } else { 0u8 }));
    assert(((x >> 0u8) & 1u8 == 1u8) == b0 && ((x >> 1u8) & 1u8 == 1u8) == b1 && ((x >> 2u8) & 1u8
        == 1u8) == b2 && ((x >> 3u8) & 1u8 == 1u8) == b3 && ((x >> 4u8) & 1u8 == 1u8) == b4 && ((x
        >> 5u8) & 1u8 == 1u8) == b5 && ((x >> 6u8) & 1u8 == 1u8) == b6 && ((x >> 7u8) & 1u8 == 1u8)
        == b7) by (bit_vector)
        requires
            x == (if b0 { 1u8 } else { 0u8 }) | (if b1 { 2u8 } else { 0u8 }) | (if b2 {
                4u8
            } else {
                0u8
            }) | (if b3 { 8u8 } else { 0u8 }) | (if b4 { 16u8 } else { 0u8 }) | (if b5 {
                32u8
            } else {
                0u8
            }) | (if b6 { 64u8 } else { 0u8 }) | (if b7 { 128u8 } else { 0u8 }),
    ;
}

/// Unpacking the packed storage of a bit sequence gives the sequence back.
pub proof fn lemma_unpack_pack(bits: Seq<bool>)
    ensures
        pack(bits).len() == bytes_for(bits.len()),
        unpack(bits.len(), pack(bits)) == bits,
{
    let p = pack(bits);
    assert forall|i: int| 0 <= i < bits.len() implies #[trigger] bit_of(p[i / 8], (i % 8) as u8)
        == bits[i] by {
        let j = i / 8;
        lemma_bits_of_byte(
            bit_at(bits, 8 * j),
            bit_at(bits, 8 * j + 1),
            bit_at(bits, 8 * j + 2),
            bit_at(bits, 8 * j + 3),
            bit_at(bits, 8 * j + 4),
            bit_at(bits, 8 * j + 5),
            bit_at(bits, 8 * j + 6),
            bit_at(bits, 8 * j + 7),
        );
    }
    assert(unpack(bits.len(), p) =~= bits);
}

/// A sequence of bits in the order they were appended.
///
/// The bits live in `bytes`, eight to a byte, least significant bit first; the bits of
/// the last byte past `num_bits` are always zero.
#[derive(Clone, PartialEq, Debug)]
pub struct BitSequence {
    num_bits: u64,
    bytes: Vec<u8>,
}

impl View for BitSequence {
    type V = Seq<bool>;

    closed spec fn view(&self) -> Seq<bool> {
        unpack(self.num_bits as nat, self.bytes@)
    }
}

impl BitSequence {
    /// Storage holds exactly the bytes the bits need, and the unused high bits of the
    /// last byte are clear.
    pub closed spec fn wf(&self) -> bool {
        &&& self.bytes@.len() == bytes_for(self.num_bits as nat)
        &&& forall|i: int|
            self.num_bits <= i < self.bytes@.len() * 8 ==> !bit_of(
                #[trigger] self.bytes@[i / 8],
                (i % 8) as u8,
            )
    }

    /// The packed storage.
    pub closed spec fn storage(&self) -> Seq<u8> {
        self.bytes@
    }

    /// Create a new, empty sequence.
    pub fn new() -> (r: Self)
        ensures
            r.wf(),
            r@ == Seq::<bool>::empty(),
    {
        let r = BitSequence { num_bits: 0, bytes: Vec::new() };
        assert(r@ =~= Seq::<bool>::empty());
        r
    }

    /// Append one bit, which must be 0 or 1.
    pub fn append_bit(&mut self, bit: u8)
        requires
            old(self).wf(),
            bit == 0 || bit == 1,
            old(self)@.len() < u64::MAX,
        ensures
            final(self).wf(),
            final(self)@ == old(self)@.push(bit == 1),
    {
        let ghost old_bytes = self.bytes@;
        let ghost n = self.num_bits as int;
        let byte_index = self.num_bits / 8;
        if byte_index >= self.bytes.len() as u64 {
            self.bytes.push(0);
        }
        let ghost mid_bytes = self.bytes@;
        assert(mid_bytes.len() == bytes_for((n + 1) as nat));
        let idx = byte_index as usize;
        let bit_index = (self.num_bits % 8) as u8;
        if bit != 0 {
            let mask: u8 = 1u8 << bit_index;
            let cur = self.bytes[idx];
            self.bytes.set(idx, cur | mask);
        }
        self.num_bits = self.num_bits + 1;
        proof {
            assert forall|i: int| 0 <= i < mid_bytes.len() * 8 implies bit_of(
                #[trigger] self.bytes@[i / 8],
                (i % 8) as u8,
            ) == (if i == n {
                bit == 1
            } else if i < n {
                bit_of(old_bytes[i / 8], (i % 8) as u8)
            } else {
                false
            }) by {
                let j = (i % 8) as u8;
                if i / 8 == idx as int {
                    if i / 8 >= old_bytes.len() {
                        lemma_bit_of_zero(j);
                        assert(i >= n);
                    }
                    if bit != 0 {
                        lemma_bit_of_or(mid_bytes[idx as int], bit_index, j);
                    }
                } else {
                    assert(i / 8 < old_bytes.len());
                    assert(self.bytes@[i / 8] == old_bytes[i / 8]);
                }
            }
            assert(self@ =~= old(self)@.push(bit == 1));
        }
    }

    proof fn lemma_bit_in_storage(&self, j: int, k: u8)
        requires
            self.wf(),
            0 <= j < self.bytes@.len(),
            k < 8,
        ensures
            bit_of(self.bytes@[j], k) == bit_at(self@, 8 * j + k),
    {
        let i = 8 * j + k;
        assert(i / 8 == j && i % 8 == k);
    }

    /// The storage of a well-formed sequence is the packing of its bits.
    pub proof fn lemma_storage(&self)
        requires
            self.wf(),
        ensures
            self.storage() == pack(self@),
    {
        let b = self.bytes@;
        assert forall|j: int| 0 <= j < b.len() implies #[trigger] b[j] == pack(self@)[j] by {
            lemma_byte_of_own_bits(b[j]);
            self.lemma_bit_in_storage(j, 0);
            self.lemma_bit_in_storage(j, 1);
            self.lemma_bit_in_storage(j, 2);
            self.lemma_bit_in_storage(j, 3);
            self.lemma_bit_in_storage(j, 4);
            self.lemma_bit_in_storage(j, 5);
            self.lemma_bit_in_storage(j, 6);
            self.lemma_bit_in_storage(j, 7);
        }
        assert(b =~= pack(self@));
    }

    /// The bit at `index`, or `None` past the end.
    pub fn get_bit(&self, index: u64) -> (r: Option<u8>)
        requires
            self.wf(),
        ensures
            r == (if index < self@.len() {
                Some(if self@[index as int] { 1u8 } else { 0u8 })
            } else {
                None
            }),
    {
        if index >= self.num_bits {
            return None;
        }
        let len = self.bytes.len();
        assert(index / 8 < len);
        let byte_index = (index / 8) as usize;
        let bit_index = (index % 8) as u8;
        assert(byte_index as int == index as int / 8);
        assert(bit_index as int == index as int % 8);
        let byte = self.bytes[byte_index];
        assert(self@[index as int] == bit_of(self.bytes@[index as int / 8], (index as int % 8) as u8));
        assert((byte >> bit_index) & 1u8 == 0 <==> !((byte >> bit_index) & 1u8 == 1u8))
            by (bit_vector);
        if (byte >> bit_index) & 1u8 == 0 {
            Some(0)
        } else {
            Some(1)
        }
    }

    /// Number of bits held.
    pub fn length(&self) -> (r: u64)
        ensures
            r == self@.len(),
    {
        self.num_bits
    }

    /// All bits, each as 0 or 1.
    pub fn get_bits(&self) -> (r: Vec<u8>)
        requires
            self.wf(),
        ensures
            r@ == bits_as_bytes(self@),
    {
        let mut bits: Vec<u8> = Vec::new();
        let mut i: u64 = 0;
        while i < self.num_bits
            invariant
                self.wf(),
                i <= self@.len(),
                bits@ == bits_as_bytes(self@.take(i as int)),
            decreases self@.len() - i,
        {
            let b = self.get_bit(i);
            bits.push(b.unwrap());
            proof {
                assert(self@.take(i + 1).drop_last() =~= self@.take(i as int));
            }
            i = i + 1;
        }
        proof {
            assert(self@.take(i as int) =~= self@);
        }
        bits
    }

    /// A sequence of the given bits, each 0 or 1.
    pub fn from_bits(bits: &[u8]) -> (r: Self)
        requires
            bits@.len() < u64::MAX,
            forall|i: int| 0 <= i < bits@.len() ==> #[trigger] bits@[i] == 0 || bits@[i] == 1,
        ensures
            r.wf(),
            r@ == bools_of_bytes(bits@),
    {
        let mut seq = Self::new();
        seq.append_bits(bits);
        proof {
            assert(Seq::<bool>::empty() + bools_of_bytes(bits@) =~= bools_of_bytes(bits@));
        }
        seq
    }

    /// A sequence of `num_bits` bits read from packed storage of the right length; the
    /// unused bits of its last byte are ignored.
    pub fn from(num_bits: u64, bytes: &[u8]) -> (r: Self)
        requires
            bytes@.len() == bytes_for(num_bits as nat),
        ensures
            r.wf(),
            r@ == unpack(num_bits as nat, bytes@),
    {
        let mut storage: Vec<u8> = Vec::new();
        let n = bytes.len();
        let mut j: usize = 0;
        while j < n
            invariant
                n == bytes@.len(),
                j <= n,
                storage@ == bytes@.take(j as int),
            decreases n - j,
        {
            storage.push(bytes[j]);
            proof {
                assert(storage@ =~= bytes@.take(j + 1));
            }
            j = j + 1;
        }
        proof {
            assert(storage@ =~= bytes@);
        }
        let rem = (num_bits % 8) as u8;
        if rem != 0 {
            let last = storage[n - 1];
            let mask: u8 = 0xffu8 >> (8 - rem);
            storage.set(n - 1, last & mask);
            proof {
                assert forall|k: u8| k < 8 implies #[trigger] bit_of(storage@[n - 1], k) == (k < rem
                    && bit_of(bytes@[n - 1], k)) by {
                    lemma_bit_of_mask(last, rem, k);
                }
            }
        }
        let r = BitSequence { num_bits, bytes: storage };
        proof {
            assert forall|i: int| 0 <= i < r.bytes@.len() * 8 implies bit_of(
                #[trigger] r.bytes@[i / 8],
                (i % 8) as u8,
            ) == (i < num_bits && bit_of(bytes@[i / 8], (i % 8) as u8)) by {
                assert(num_bits == 8 * (num_bits / 8) + rem);
                assert(i == 8 * (i / 8) + i % 8);
                if i / 8 == n - 1 && rem != 0 {
                    assert(i < num_bits <==> ((i % 8) as u8) < rem);
                    assert(bit_of(r.bytes@[n - 1], (i % 8) as u8) == ((i % 8) < rem && bit_of(
                        bytes@[n - 1],
                        (i % 8) as u8,
                    )));
                }
            }
            assert(r@ =~= unpack(num_bits as nat, bytes@));
        }
        r
    }

    /// An independent copy of this sequence.
    pub fn duplicate(&self) -> (r: Self)
        requires
            self.wf(),
        ensures
            r.wf(),
            r@ == self@,
    {
        let r = Self::from(self.num_bits, self.bytes.as_slice());
        proof {
            assert(r@ =~= self@);
        }
        r
    }

    /// Append bits, each 0 or 1, in order.
    pub fn append_bits(&mut self, bits: &[u8])
        requires
            old(self).wf(),
            old(self)@.len() + bits@.len() <= u64::MAX,
            forall|i: int| 0 <= i < bits@.len() ==> #[trigger] bits@[i] == 0 || bits@[i] == 1,
        ensures
            final(self).wf(),
            final(self)@ == old(self)@ + bools_of_bytes(bits@),
    {
        let n = bits.len();
        let mut i: usize = 0;
        while i < n
            invariant
                n == bits@.len(),
                i <= n,
                self.wf(),
                old(self)@.len() + bits@.len() <= u64::MAX,
                forall|k: int| 0 <= k < bits@.len() ==> #[trigger] bits@[k] == 0 || bits@[k] == 1,
                self@ == old(self)@ + bools_of_bytes(bits@.take(i as int)),
            decreases n - i,
        {
            self.append_bit(bits[i]);
            proof {
                assert(old(self)@ + bools_of_bytes(bits@.take(i + 1)) =~= old(self)@
                    + bools_of_bytes(bits@.take(i as int)).push(bits@[i as int] == 1));
            }
            i = i + 1;
        }
        proof {
            assert(bits@.take(n as int) =~= bits@);
        }
    }

    /// Append all bits of `seq`.
    pub fn append_seq(&mut self, seq: &BitSequence)
        requires
            old(self).wf(),
            seq.wf(),
            old(self)@.len() + seq@.len() <= u64::MAX,
        ensures
            final(self).wf(),
            final(self)@ == old(self)@ + seq@,
    {
        let bits = seq.get_bits();
        proof {
            assert forall|i: int| 0 <= i < bits@.len() implies #[trigger] bits@[i] == 0 || bits@[i]
                == 1 by {}
        }
        self.append_bits(bits.as_slice());
        proof {
            assert(bools_of_bytes(bits_as_bytes(seq@)) =~= seq@);
        }
    }

    /// An iterator over the bits, from the first.
    pub fn iter(&self) -> (r: BitIterator<'_>)
        requires
            self.wf(),
        ensures
            r.valid(),
            r.source() == self@,
            r.position() == 0,
    {
        BitIterator { sequence: self, index: 0 }
    }

    /// Append the bits that `iter` has not yet handed out, and exhaust it.
    pub fn append_all(&mut self, iter: &mut BitIterator)
        requires
            old(self).wf(),
            old(iter).valid(),
            old(self)@.len() + old(iter).source().len() <= u64::MAX,
        ensures
            final(self).wf(),
            final(iter).valid(),
            final(iter).source() == old(iter).source(),
            final(iter).position() == old(iter).source().len(),
            final(self)@ == old(self)@ + old(iter).source().skip(old(iter).position() as int),
    {
        let ghost src = iter.source();
        let ghost start = iter.position() as int;
        loop
            invariant
                self.wf(),
                iter.valid(),
                iter.source() == src,
                0 <= start <= iter.position() <= src.len(),
                old(self)@.len() + src.len() <= u64::MAX,
                self@.len() == old(self)@.len() + iter.position() - start,
                self@ == old(self)@ + src.subrange(start, iter.position() as int),
            ensures
                self.wf(),
                iter.valid(),
                iter.source() == src,
                iter.position() == src.len(),
                self@ == old(self)@ + src.subrange(start, src.len() as int),
            decreases src.len() - iter.position(),
        {
            let ghost pos = iter.position() as int;
            match iter.next() {
                Some(bit) => {
                    self.append_bit(bit);
                    proof {
                        assert(src.subrange(start, pos + 1) =~= src.subrange(start, pos).push(
                            src[pos],
                        ));
                    }
                },
                None => {
                    break ;
                },
            }
        }
        proof {
            assert(src.subrange(start, src.len() as int) =~= src.skip(start));
        }
    }

    /// The bit count, eight bytes little-endian, then the packed storage.
    pub fn to_stream(&self) -> (r: Vec<u8>)
        requires
            self.wf(),
        ensures
            r@ == bits_stream(self@),
    {
        proof {
            lemma_min_width(self.num_bits as nat);
            self.lemma_storage();
        }
        let mut r = long_to_bytes(self.num_bits, 8);
        let n = self.bytes.len();
        let mut j: usize = 0;
        let ghost head = r@;
        while j < n
            invariant
                n == self.bytes@.len(),
                j <= n,
                r@ == head + self.bytes@.take(j as int),
            decreases n - j,
        {
            r.push(self.bytes[j]);
            proof {
                assert(head + self.bytes@.take(j + 1) =~= (head + self.bytes@.take(j as int)).push(
                    self.bytes@[j as int],
                ));
            }
            j = j + 1;
        }
        proof {
            assert(self.bytes@.take(n as int) =~= self.bytes@);
        }
        r
    }

    /// Rebuild a sequence from `bits_stream` form; `None` where the storage is not
    /// exactly as long as the bit count asks.
    pub fn from_stream(bytes: &[u8]) -> (r: Option<Self>)
        ensures
            match r {
                Some(seq) => seq.wf() && parse_bits_stream(bytes@) == Some(seq@),
                None => parse_bits_stream(bytes@) is None,
            },
    {
        if bytes.len() < 8 {
            return None;
        }
        let num_bits = slice_to_long(slice_subrange(bytes, 0, 8));
        let rest = slice_subrange(bytes, 8, bytes.len());
        let need: u64 = num_bits / 8 + if num_bits % 8 != 0 {
            1
        } else {
            0
        };
        if rest.len() as u64 != need {
            return None;
        }
        Some(Self::from(num_bits, rest))
    }
    /// The packed storage: eight bits to a byte, least significant first.
    pub fn storage_bytes(&self) -> (r: Vec<u8>)
        requires
            self.wf(),
        ensures
            r@ == pack(self@),
    {
        proof {
            self.lemma_storage();
        }
        let n = self.bytes.len();
        let mut r: Vec<u8> = Vec::new();
        let mut j: usize = 0;
        while j < n
            invariant
                n == self.bytes@.len(),
                j <= n,
                r@ == self.bytes@.take(j as int),
            decreases n - j,
        {
            r.push(self.bytes[j]);
            proof {
                assert(r@ =~= self.bytes@.take(j + 1));
            }
            j = j + 1;
        }
        proof {
            assert(self.bytes@.take(n as int) =~= self.bytes@);
        }
        r
    }

    /// The codes of `bytes`, one after another; every byte must have a code.
    pub fn translate(bytes: &[u8], encoding: &HashMap<u8, BitSequence>) -> (r: Self)
        requires
            map_wf(encoding@),
            forall|i: int| 0 <= i < bytes@.len() ==> encoding@.contains_key(#[trigger] bytes@[i]),
            encode_all(code_view(encoding@), bytes@).len() <= u64::MAX,
        ensures
            r.wf(),
            r@ == encode_all(code_view(encoding@), bytes@),
    {
        let ghost codes = code_view(encoding@);
        let mut retval = BitSequence::new();
        let n = bytes.len();
        let mut i: usize = 0;
        proof {
            assert(bytes@.take(0) =~= Seq::<u8>::empty());
        }
        while i < n
            invariant
                n == bytes@.len(),
                i <= n,
                codes == code_view(encoding@),
                map_wf(encoding@),
                forall|k: int| 0 <= k < bytes@.len() ==> encoding@.contains_key(#[trigger] bytes@[k]),
                encode_all(codes, bytes@).len() <= u64::MAX,
                retval.wf(),
                retval@ == encode_all(codes, bytes@.take(i as int)),
            decreases n - i,
        {
            let b = bytes[i];
            assert(encoding@.contains_key(bytes@[i as int]));
            let code = encoding.get(&b).unwrap();
            proof {
                assert(bytes@.take(i + 1).drop_last() =~= bytes@.take(i as int));
                lemma_encode_all_prefix(codes, bytes@, i + 1);
                assert(code@ == codes[b]);
            }
            retval.append_seq(code);
            i = i + 1;
        }
        proof {
            assert(bytes@.take(n as int) =~= bytes@);
        }
        retval
    }
}

/// The bits of a map of bit sequences.
pub open spec fn code_view(m: Map<u8, BitSequence>) -> Map<u8, Seq<bool>> {
    m.map_values(|v: BitSequence| v@)
}

/// Every bit sequence of the map is well formed.
pub open spec fn map_wf(m: Map<u8, BitSequence>) -> bool {
    forall|k: u8| m.contains_key(k) ==> (#[trigger] m[k]).wf()
}

/// The codes of the bytes of `s`, one after another.
pub open spec fn encode_all(codes: Map<u8, Seq<bool>>, s: Seq<u8>) -> Seq<bool>
    decreases s.len(),
{
    if s.len() == 0 {
        Seq::empty()
    } else {
        encode_all(codes, s.drop_last()) + codes[s.last()]
    }
}

/// The encoding of a prefix is no longer than the encoding of the whole.
pub proof fn lemma_encode_all_prefix(codes: Map<u8, Seq<bool>>, s: Seq<u8>, i: int)
    requires
        0 <= i <= s.len(),
    ensures
        encode_all(codes, s.take(i)).len() <= encode_all(codes, s).len(),
    decreases s.len(),
{
    if i < s.len() {
        assert(s.drop_last().take(i) =~= s.take(i));
        lemma_encode_all_prefix(codes, s.drop_last(), i);
    } else {
        assert(s.take(i) =~= s);
    }

}

/// A bit sequence as bytes that are 0 or 1.
pub open spec fn bits_as_bytes(bits: Seq<bool>) -> Seq<u8> {
    bits.map_values(|b: bool| if b { 1u8 } else { 0u8 })
}

/// Bytes that are 0 or 1 as bits.
pub open spec fn bools_of_bytes(bits: Seq<u8>) -> Seq<bool> {
    bits.map_values(|b: u8| b == 1)
}

/// The stream form of a bit sequence: its length in eight little-endian bytes, then its
/// packed storage.
pub open spec fn bits_stream(bits: Seq<bool>) -> Seq<u8> {
    le_bytes(bits.len(), 8) + pack(bits)
}

/// The bits that a stream holds, if its storage is exactly as long as its bit count asks.
pub open spec fn parse_bits_stream(s: Seq<u8>) -> Option<Seq<bool>> {
    if s.len() < 8 {
        None
    } else {
        let n = le_value(s.take(8));
        if s.len() - 8 == bytes_for(n) {
            Some(unpack(n, s.skip(8)))
        } else {
            None
        }
    }
}

/// Hands out the bits of a sequence one by one.
pub struct BitIterator<'a> {
    sequence: &'a BitSequence,
    index: u64,
}

impl<'a> BitIterator<'a> {
    /// The iterator walks a well-formed sequence and stands within it.
    pub closed spec fn valid(&self) -> bool {
        self.sequence.wf() && self.index <= self.sequence@.len()
    }

    /// The bits walked.
    pub closed spec fn source(&self) -> Seq<bool> {
        self.sequence@
    }

    /// Index of the next bit to hand out.
    pub closed spec fn position(&self) -> nat {
        self.index as nat
    }

    /// The next bit, or `None` once all have been handed out.
    pub fn next(&mut self) -> (r: Option<u8>)
        requires
            old(self).valid(),
        ensures
            final(self).valid(),
            final(self).source() == old(self).source(),
            r == (if old(self).position() < old(self).source().len() {
                Some(if old(self).source()[old(self).position() as int] { 1u8 } else { 0u8 })
            } else {
                None
            }),
            final(self).position() == if old(self).position() < old(self).source().len() {
                old(self).position() + 1
            } else {
                old(self).position() + 0
            },
    {
        let r = self.sequence.get_bit(self.index);
        if r.is_some() {
            self.index = self.index + 1;
        }
        r
    }
}

} // verus!
