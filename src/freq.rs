//! Counting how often each byte occurs.

use std::collections::HashMap;
use vstd::prelude::*;

verus! {

broadcast use vstd::std_specs::hash::group_hash_axioms;

/// How many times `b` occurs in `s`.
pub open spec fn occurrences(s: Seq<u8>, b: u8) -> nat
    decreases s.len(),
{
    if s.len() == 0 {
        0
    } else {
        occurrences(s.drop_last(), b) + if s.last() == b {
            1nat
        } else {
            0nat
        }
    }
}

/// The frequency table of `s`: each byte that occurs, with its count.
pub open spec fn frequency_of(s: Seq<u8>) -> Map<u8, u64> {
    Map::new(|b: u8| occurrences(s, b) > 0, |b: u8| occurrences(s, b) as u64)
}

pub proof fn lemma_occurrences_bound(s: Seq<u8>, b: u8)
    ensures
        occurrences(s, b) <= s.len(),
    decreases s.len(),
{
    if s.len() > 0 {
        lemma_occurrences_bound(s.drop_last(), b);
    }
}

/// A byte occurs exactly when some position holds it.
pub proof fn lemma_occurrences_positive(s: Seq<u8>, b: u8)
    ensures
        occurrences(s, b) > 0 <==> exists|i: int| 0 <= i < s.len() && s[i] == b,
    decreases s.len(),
{
    if s.len() > 0 {
        lemma_occurrences_positive(s.drop_last(), b);
        if occurrences(s.drop_last(), b) > 0 {
            let i = choose|i: int| 0 <= i < s.drop_last().len() && s.drop_last()[i] == b;
            assert(s[i] == b);
        }
        if exists|i: int| 0 <= i < s.len() && s[i] == b {
            let i = choose|i: int| 0 <= i < s.len() && s[i] == b;
            if i < s.len() - 1 {
                assert(s.drop_last()[i] == b);
            }
        }
    }
}

/// Count the occurrences of each byte of `bytes`.
pub fn gen_frequency(bytes: &[u8]) -> (r: HashMap<u8, u64>)
    ensures
        r@ == frequency_of(bytes@),
{
    let mut map: HashMap<u8, u64> = HashMap::new();
    let n = bytes.len();
    let mut i: usize = 0;
    proof {
        assert(map@ =~= frequency_of(bytes@.take(0)));
    }
    while i < n
        invariant
            n == bytes@.len(),
            i <= n,
            map@ == frequency_of(bytes@.take(i as int)),
        decreases n - i,
    {
        let b = bytes[i];
        let ghost prev = bytes@.take(i as int);
        let ghost next = bytes@.take(i + 1);
        proof {
            assert(next.drop_last() =~= prev);
            lemma_occurrences_bound(prev, b);
        }
        let count: u64 = match map.get(&b) {
            Some(c) => *c + 1,
            None => 1,
        };
        map.insert(b, count);
        i = i + 1;
        proof {
            assert(map@ =~= frequency_of(next));
        }
    }
    proof {
        assert(bytes@.take(n as int) =~= bytes@);
    }
    map
}

} // verus!
