//! Little-endian integers of variable width, and the serialization trait.

use vstd::prelude::*;

verus! {

/// Width in bytes of a full 64-bit integer.
pub const LONG_LEN: usize = 8;

/// `256` raised to the power `n`.
pub open spec fn pow256(n: nat) -> nat
    decreases n,
{
    if n == 0 {
        1
    } else {
        256 * pow256((n - 1) as nat)
    }
}

/// The unsigned value of a little-endian byte sequence.
pub open spec fn le_value(s: Seq<u8>) -> nat
    decreases s.len(),
{
    if s.len() == 0 {
        0
    } else {
        s[0] as nat + 256 * le_value(s.drop_first())
    }
}

/// The `n` low-order bytes of `v`, least significant first.
pub open spec fn le_bytes(v: nat, n: nat) -> Seq<u8>
    decreases n,
{
    if n == 0 {
        Seq::empty()
    } else {
        seq![(v % 256) as u8] + le_bytes(v / 256, (n - 1) as nat)
    }
}

/// The fewest bytes that hold `v` without a leading zero byte; zero takes one byte.
pub open spec fn min_width(v: nat) -> nat
    decreases v,
{
    if v < 256 {
        1
    } else {
        1 + min_width(v / 256)
    }
}

pub proof fn lemma_pow256_monotonic(a: nat, b: nat)
    requires
        a <= b,
    ensures
        1 <= pow256(a) <= pow256(b),
    decreases b,
{
    if b > 0 {
        if a < b {
            lemma_pow256_monotonic(a, (b - 1) as nat);
        } else {
            lemma_pow256_monotonic((a - 1) as nat, (b - 1) as nat);
        }
    }
}

pub proof fn lemma_pow256_8()
    ensures
        pow256(8) == 0x1_0000_0000_0000_0000,
        pow256(2) == 0x1_0000,
        pow256(1) == 256,
{
    reveal_with_fuel(pow256, 9);
}

pub proof fn lemma_le_value_bound(s: Seq<u8>)
    ensures
        le_value(s) < pow256(s.len()),
    decreases s.len(),
{
    if s.len() > 0 {
        lemma_le_value_bound(s.drop_first());
    }
}

/// Writing `n` bytes of a value below `256^n` and reading them back gives the value.
pub proof fn lemma_le_round_trip(v: nat, n: nat)
    requires
        v < pow256(n),
    ensures
        le_bytes(v, n).len() == n,
        le_value(le_bytes(v, n)) == v,
    decreases n,
{
    if n > 0 {
        lemma_le_round_trip(v / 256, (n - 1) as nat);
        assert(le_bytes(v, n).drop_first() =~= le_bytes(v / 256, (n - 1) as nat));
    }
}

/// A value is below `256` raised to its width and, when wider than one byte, at least
/// `256` raised to its width less one; a 64-bit value is at most eight bytes wide.
pub proof fn lemma_min_width(v: nat)
    ensures
        1 <= min_width(v),
        v < pow256(min_width(v)),
        min_width(v) > 1 ==> pow256((min_width(v) - 1) as nat) <= v,
        v < 0x1_0000_0000_0000_0000 ==> min_width(v) <= 8,
    decreases v,
{
    lemma_pow256_8();
    if v >= 256 {
        lemma_min_width(v / 256);
        if min_width(v) > 8 {
            lemma_pow256_monotonic(8, (min_width(v) - 1) as nat);
        }
    }
}

/// What can be written to, and rebuilt from, a stream of bytes.
pub trait ByteStream: Sized {
    type Data;

    /// Rebuild a value from its bytes, or `None` where they are malformed.
    fn from_stream(bytes: &[u8]) -> Option<Self::Data>;

    /// The bytes of this value.
    fn to_stream(self) -> Vec<u8>;
}

/// Read a little-endian value of at most eight bytes.
pub fn slice_to_long(bytes: &[u8]) -> (r: u64)
    requires
        bytes@.len() <= LONG_LEN,
    ensures
        r == le_value(bytes@),
{
    let n = bytes.len();
    let mut r: u64 = 0;
    let mut i: usize = n;
    proof {
        assert(bytes@.subrange(n as int, n as int) =~= Seq::<u8>::empty());
    }
    while i > 0
        invariant
            n == bytes@.len(),
            n <= 8,
            i <= n,
            r == le_value(bytes@.subrange(i as int, n as int)),
        decreases i,
    {
        i = i - 1;
        proof {
            let s = bytes@.subrange(i as int, n as int);
            assert(s.drop_first() =~= bytes@.subrange(i + 1, n as int));
            lemma_le_value_bound(bytes@.subrange(i + 1, n as int));
            lemma_pow256_monotonic((n - i - 1) as nat, 7);
            assert(pow256(7) == 0x1_0000_0000_0000_00) by {
                reveal_with_fuel(pow256, 8);
            }
        }
        r = r * 256 + bytes[i] as u64;
    }
    proof {
        assert(bytes@.subrange(0, n as int) =~= bytes@);
    }
    r
}

/// Write `value` little-endian into exactly `size` bytes; `size` must be at least the
/// value's minimal width.
pub fn long_to_bytes(value: u64, size: u8) -> (r: Vec<u8>)
    requires
        0 < size <= LONG_LEN,
        size >= min_width(value as nat),
    ensures
        r@ == le_bytes(value as nat, size as nat),
{
    let mut r: Vec<u8> = Vec::new();
    let mut v: u64 = value;
    let mut i: u8 = 0;
    while i < size
        invariant
            i <= size,
            r@ + le_bytes(v as nat, (size - i) as nat) == le_bytes(value as nat, size as nat),
        decreases size - i,
    {
        let ghost m = (size - i) as nat;
        proof {
            assert(le_bytes(v as nat, m) == seq![(v % 256) as u8] + le_bytes(
                (v / 256) as nat,
                (m - 1) as nat,
            ));
        }
        r.push((v % 256) as u8);
        v = v / 256;
        i = i + 1;
        proof {
            assert(r@ + le_bytes(v as nat, (size - i) as nat) =~= le_bytes(value as nat, size as nat));
        }
    }
    proof {
        assert(r@ =~= r@ + le_bytes(v as nat, 0));
    }
    r
}

/// The minimal width of `value`: the fewest bytes without a leading zero byte, and one
/// for zero.
pub fn min_byte_size(value: u64) -> (r: u8)
    ensures
        r == min_width(value as nat),
        1 <= r <= 8,
{
    let mut w: u8 = 1;
    let mut v: u64 = value;
    proof {
        lemma_pow256_8();
    }
    while v >= 256
        invariant
            1 <= w <= 8,
            v < pow256((9 - w) as nat),
            min_width(value as nat) == w - 1 + min_width(v as nat),
        decreases v,
    {
        proof {
            lemma_pow256_8();
            if w >= 8 {
                assert(false);
            }
            assert(pow256((9 - w) as nat) == 256 * pow256((8 - w) as nat));
        }
        v = v / 256;
        w = w + 1;
    }
    w
}

} // verus!
