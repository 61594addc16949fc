//! The Huffman tree: its deterministic construction, and the codes read off it.

use std::collections::HashMap;
use vstd::prelude::*;
use crate::bitsequence::{BitSequence, code_view, map_wf};
use crate::bytefreq::ByteFreq;

verus! {

broadcast use vstd::std_specs::hash::group_hash_axioms;

/// A node of the tree: an internal node owns its two children, a leaf holds a byte and
/// its count.
#[derive(PartialEq, Eq, Debug)]
pub enum Node {
    Internal { left: Box<Node>, right: Box<Node> },
    Leaf { contents: ByteFreq },
}

/// The sum of the counts of the leaves below `n`.
pub open spec fn node_freq(n: Node) -> nat
    decreases n,
{
    match n {
        Node::Internal { left, right } => node_freq(*left) + node_freq(*right),
        Node::Leaf { contents } => contents.frequency as nat,
    }
}

/// The smallest byte among the leaves below `n`.
pub open spec fn node_min(n: Node) -> u8
    decreases n,
{
    match n {
        Node::Internal { left, right } => {
            let l = node_min(*left);
            let r = node_min(*right);
            if l < r {
                l
            } else {
                r
            }
        },
        Node::Leaf { contents } => contents.byte,
    }
}

/// The order in which nodes leave the working set: by count, and on equal counts by
/// smallest byte.
pub open spec fn precedes(a: Node, b: Node) -> bool {
    node_freq(a) < node_freq(b) || (node_freq(a) == node_freq(b) && node_min(a) < node_min(b))
}

/// Index of the first least node among the first `k` of `s`.
pub open spec fn min_index_upto(s: Seq<Node>, k: int) -> int
    decreases k,
{
    if k <= 1 {
        0
    } else {
        let m = min_index_upto(s, k - 1);
        if precedes(s[k - 1], s[m]) {
            k - 1
        } else {
            m
        }
    }
}

/// Index of the least node of `s`.
pub open spec fn min_index(s: Seq<Node>) -> int {
    min_index_upto(s, s.len() as int)
}

/// One round of construction: take out the least node, then the least of the rest, and
/// put back an internal node with the first as its left child and the second as its
/// right.
pub open spec fn merge_step(s: Seq<Node>) -> Seq<Node> {
    let a = s[min_index(s)];
    let s1 = s.remove(min_index(s));
    let b = s1[min_index(s1)];
    s1.remove(min_index(s1)).push(Node::Internal { left: Box::new(a), right: Box::new(b) })
}

/// Merge rounds on a working set of `n` nodes until at most one is left.
pub open spec fn build(s: Seq<Node>, n: nat) -> Option<Node>
    decreases n,
{
    if n <= 1 {
        if s.len() == 0 {
            None
        } else {
            Some(s[0])
        }
    } else {
        build(merge_step(s), (n - 1) as nat)
    }
}

/// One leaf for each byte below `k` that the table holds, in increasing byte order.
pub open spec fn leaves_upto(m: Map<u8, u64>, k: int) -> Seq<Node>
    decreases k,
{
    if k <= 0 {
        Seq::empty()
    } else if m.contains_key((k - 1) as u8) {
        leaves_upto(m, k - 1).push(
            Node::Leaf { contents: ByteFreq { byte: (k - 1) as u8, frequency: m[(k - 1) as u8] } },
        )
    } else {
        leaves_upto(m, k - 1)
    }
}

/// The leaves of a table's tree.
pub open spec fn leaves(m: Map<u8, u64>) -> Seq<Node> {
    leaves_upto(m, 256)
}

/// The tree of a table; `None` for the empty table.
pub open spec fn huffman_tree(m: Map<u8, u64>) -> Option<Node> {
    build(leaves(m), leaves(m).len())
}

/// The sum of the counts of all nodes of `s`.
pub open spec fn total_freq(s: Seq<Node>) -> nat
    decreases s.len(),
{
    if s.len() == 0 {
        0
    } else {
        total_freq(s.drop_last()) + node_freq(s.last())
    }
}

proof fn lemma_total_freq_remove(s: Seq<Node>, i: int)
    requires
        0 <= i < s.len(),
    ensures
        total_freq(s.remove(i)) + node_freq(s[i]) == total_freq(s),
    decreases s.len(),
{
    if i == s.len() - 1 {
        assert(s.remove(i) =~= s.drop_last());
    } else {
        lemma_total_freq_remove(s.drop_last(), i);
        assert(s.remove(i).drop_last() =~= s.drop_last().remove(i));
    }
}

proof fn lemma_total_freq_push(s: Seq<Node>, x: Node)
    ensures
        total_freq(s.push(x)) == total_freq(s) + node_freq(x),
{
    assert(s.push(x).drop_last() =~= s);
}

proof fn lemma_leaves_upto(m: Map<u8, u64>, k: int)
    requires
        0 <= k <= 256,
    ensures
        leaves_upto(m, k).len() <= k,
        total_freq(leaves_upto(m, k)) <= k * 0xffff_ffff_ffff_ffff,
    decreases k,
{
    if k > 0 {
        lemma_leaves_upto(m, k - 1);
        let b = (k - 1) as u8;
        if m.contains_key(b) {
            lemma_total_freq_push(
                leaves_upto(m, k - 1),
                Node::Leaf { contents: ByteFreq { byte: b, frequency: m[b] } },
            );
        }
    }
}

proof fn lemma_min_index_upto(s: Seq<Node>, k: int)
    ensures
        k >= 1 ==> 0 <= min_index_upto(s, k) < k,
    decreases k,
{
    if k > 1 {
        lemma_min_index_upto(s, k - 1);
    }
}

/// A round of construction leaves one node fewer.
pub proof fn lemma_merge_step_len(s: Seq<Node>)
    requires
        s.len() >= 2,
    ensures
        merge_step(s).len() == s.len() - 1,
{
    lemma_min_index_upto(s, s.len() as int);
    let s1 = s.remove(min_index(s));
    lemma_min_index_upto(s1, s1.len() as int);
}

/// The counts and smallest bytes kept beside the working set are those of its nodes.
spec fn keyed(nodes: Seq<Node>, freqs: Seq<u128>, mins: Seq<u8>) -> bool {
    &&& freqs.len() == nodes.len()
    &&& mins.len() == nodes.len()
    &&& forall|i: int|
        #![trigger nodes[i]]
        0 <= i < nodes.len() ==> freqs[i] == node_freq(nodes[i]) && mins[i] == node_min(nodes[i])
}

fn leaf(contents: ByteFreq) -> (r: Node)
    ensures
        r == (Node::Leaf { contents }),
{
    Node::Leaf { contents }
}

fn internal(left: Box<Node>, right: Box<Node>) -> (r: Node)
    ensures
        r == (Node::Internal { left, right }),
{
    Node::Internal { left, right }
}

/// The index of the least node of the working set, whose counts and smallest bytes are
/// kept beside it.
fn least(nodes: &Vec<Node>, freqs: &Vec<u128>, mins: &Vec<u8>) -> (r: usize)
    requires
        nodes@.len() >= 1,
        keyed(nodes@, freqs@, mins@),
    ensures
        r == min_index(nodes@),
        r < nodes@.len(),
{
    let mut best: usize = 0;
    let mut k: usize = 1;
    let n = nodes.len();
    while k < n
        invariant
            n == nodes@.len(),
            1 <= k <= n,
            keyed(nodes@, freqs@, mins@),
            best == min_index_upto(nodes@, k as int),
            best < k,
        decreases n - k,
    {
        assert(freqs@[k as int] == node_freq(nodes@[k as int]));
        assert(freqs@[best as int] == node_freq(nodes@[best as int]));
        if freqs[k] < freqs[best] || (freqs[k] == freqs[best] && mins[k] < mins[best]) {
            best = k;
        }
        k = k + 1;
    }
    best
}

/// Build the tree of a frequency table: seed a leaf per entry, then repeatedly merge the
/// two least nodes, the first taken as left child. `None` for the empty table.
pub fn huffman(ordering: &HashMap<u8, u64>) -> (r: Option<Node>)
    ensures
        r == huffman_tree(ordering@),
{
    let mut work: Vec<Node> = Vec::new();
    let mut freqs: Vec<u128> = Vec::new();
    let mut mins: Vec<u8> = Vec::new();
    let mut b: u16 = 0;
    while b < 256
        invariant
            b <= 256,
            work@ == leaves_upto(ordering@, b as int),
            keyed(work@, freqs@, mins@),
        decreases 256 - b,
    {
        let byte = b as u8;
        let ghost old_work = work@;
        match ordering.get(&byte) {
            Some(count) => {
                work.push(leaf(ByteFreq::new(byte, *count)));
                freqs.push(*count as u128);
                mins.push(byte);
                proof {
                    assert forall|i: int| #![trigger work@[i]] 0 <= i < work@.len() implies freqs@[i]
                        == node_freq(work@[i]) && mins@[i] == node_min(work@[i]) by {
                        if i < work@.len() - 1 {
                            assert(work@[i] == old_work[i]);
                        }
                    }
                }
            },
            None => {},
        }
        b = b + 1;
    }
    proof {
        lemma_leaves_upto(ordering@, 256);
    }
    while work.len() > 1
        invariant
            build(work@, work@.len()) == huffman_tree(ordering@),
            keyed(work@, freqs@, mins@),
            total_freq(work@) <= 256 * 0xffff_ffff_ffff_ffff,
        decreases work@.len(),
    {
        let ghost s = work@;
        proof {
            lemma_merge_step_len(s);
        }
        let i = least(&work, &freqs, &mins);
        let a = work.remove(i);
        freqs.remove(i);
        mins.remove(i);
        let ghost s1 = work@;
        assert(keyed(work@, freqs@, mins@)) by {
            assert forall|k: int| #![trigger work@[k]] 0 <= k < work@.len() implies freqs@[k]
                == node_freq(work@[k]) && mins@[k] == node_min(work@[k]) by {
                if k < i {
                    assert(work@[k] == s[k]);
                } else {
                    assert(work@[k] == s[k + 1]);
                }
            }
        }
        let j = least(&work, &freqs, &mins);
        let c = work.remove(j);
        freqs.remove(j);
        mins.remove(j);
        proof {
            lemma_total_freq_remove(s, i as int);
            lemma_total_freq_remove(s1, j as int);
        }
        let parent = internal(Box::new(a), Box::new(c));
        proof {
            lemma_total_freq_push(work@, parent);
        }
        let parent_freq = parent.freq();
        let parent_min = parent.min_byte();
        work.push(parent);
        freqs.push(parent_freq);
        mins.push(parent_min);
        proof {
            assert(work@ =~= merge_step(s));
            let n = work@.len() - 1;
            assert forall|k: int| #![trigger work@[k]] 0 <= k < work@.len() implies freqs@[k]
                == node_freq(work@[k]) && mins@[k] == node_min(work@[k]) by {
                if k < n {
                    if k < j {
                        assert(work@[k] == s1[k]);
                    } else {
                        assert(work@[k] == s1[k + 1]);
                    }
                }
            }
        }
    }
    work.pop()
}

/// Build the tree of a table of byte ranks: ranks order the leaves as counts do.
pub fn prepare_huffman(ordering: &HashMap<u8, u8>) -> (r: Option<Node>)
    ensures
        r == huffman_tree(ordering@.map_values(|v: u8| v as u64)),
{
    let mut counts: HashMap<u8, u64> = HashMap::new();
    let mut b: u16 = 0;
    while b < 256
        invariant
            b <= 256,
            forall|x: u8| #[trigger]
                counts@.contains_key(x) <==> ordering@.contains_key(x) && (x as int) < b,
            forall|x: u8| #[trigger]
                counts@.contains_key(x) ==> counts@[x] == ordering@[x] as u64,
        decreases 256 - b,
    {
        let byte = b as u8;
        match ordering.get(&byte) {
            Some(rank) => {
                counts.insert(byte, *rank as u64);
            },
            None => {},
        }
        b = b + 1;
    }
    proof {
        assert(counts@ =~= ordering@.map_values(|v: u8| v as u64));
    }
    huffman(&counts)
}

/// Length of the longest path from `n` down to a leaf.
pub open spec fn depth(n: Node) -> nat
    decreases n,
{
    match n {
        Node::Internal { left, right } => {
            let l = depth(*left);
            let r = depth(*right);
            1 + if l < r {
                r
            } else {
                l
            }
        },
        Node::Leaf { .. } => 0,
    }
}

/// Each leaf below `n`, left to right, with its path from `n` after `prefix`: `false`
/// for a step left, `true` for a step right.
pub open spec fn paths(n: Node, prefix: Seq<bool>) -> Seq<(Seq<bool>, u8)>
    decreases n,
{
    match n {
        Node::Internal { left, right } => paths(*left, prefix.push(false)) + paths(
            *right,
            prefix.push(true),
        ),
        Node::Leaf { contents } => seq![(prefix, contents.byte)],
    }
}

/// The code of each leaf of a tree; a lone leaf gets the one-bit code `0`.
pub open spec fn leaf_paths(n: Node) -> Seq<(Seq<bool>, u8)> {
    match n {
        Node::Leaf { contents } => seq![(seq![false], contents.byte)],
        Node::Internal { .. } => paths(n, Seq::empty()),
    }
}

/// A map from each byte to the code of its last entry in `l`.
pub open spec fn map_of_paths(l: Seq<(Seq<bool>, u8)>) -> Map<u8, Seq<bool>>
    decreases l.len(),
{
    if l.len() == 0 {
        Map::empty()
    } else {
        map_of_paths(l.drop_last()).insert(l.last().1, l.last().0)
    }
}

/// The encode map of a tree: each byte to its code.
pub open spec fn encoding_of(n: Node) -> Map<u8, Seq<bool>> {
    map_of_paths(leaf_paths(n))
}

/// The bits of a list of (code, byte) pairs.
pub open spec fn pair_view(v: Seq<(BitSequence, u8)>) -> Seq<(Seq<bool>, u8)> {
    v.map_values(|e: (BitSequence, u8)| (e.0@, e.1))
}

/// Every bit sequence of the list is well formed.
pub open spec fn pairs_wf(v: Seq<(BitSequence, u8)>) -> bool {
    forall|i: int| 0 <= i < v.len() ==> (#[trigger] v[i]).0.wf()
}

/// Number of `false` bits before the first `true`.
pub open spec fn leading_false(bits: Seq<bool>) -> nat
    decreases bits.len(),
{
    if bits.len() == 0 || bits[0] {
        0
    } else {
        1 + leading_false(bits.drop_first())
    }
}

/// Walk `bits` down from `cur`: `false` steps left, `true` right; each leaf reached
/// gives its byte, and the walk starts again at `root`.
pub open spec fn walk(root: Node, cur: Node, bits: Seq<bool>) -> Seq<u8>
    decreases bits.len(),
{
    if bits.len() == 0 {
        Seq::empty()
    } else {
        match cur {
            Node::Internal { left, right } => {
                let next = if bits[0] {
                    *right
                } else {
                    *left
                };
                match next {
                    Node::Leaf { contents } => seq![contents.byte] + walk(
                        root,
                        root,
                        bits.drop_first(),
                    ),
                    Node::Internal { .. } => walk(root, next, bits.drop_first()),
                }
            },
            Node::Leaf { .. } => Seq::empty(),
        }
    }
}

/// The bytes that a payload decodes to. Under a lone leaf each `0` bit is its byte, up
/// to the first `1`, which matches no code and none after it can.
pub open spec fn decode_bits(tree: Node, bits: Seq<bool>) -> Seq<u8> {
    match tree {
        Node::Leaf { contents } => Seq::new(leading_false(bits), |i: int| contents.byte),
        Node::Internal { .. } => walk(tree, tree, bits),
    }
}

impl Node {
    /// The sum of the counts of the leaves below this node.
    pub fn freq(&self) -> (r: u128)
        requires
            node_freq(*self) <= u128::MAX,
        ensures
            r == node_freq(*self),
        decreases self,
    {
        match self {
            Node::Internal { left, right } => left.freq() + right.freq(),
            Node::Leaf { contents } => contents.freq() as u128,
        }
    }

    /// The smallest byte among the leaves below this node; it breaks ties between equal
    /// counts.
    pub fn min_byte(&self) -> (r: u8)
        ensures
            r == node_min(*self),
        decreases self,
    {
        match self {
            Node::Internal { left, right } => {
                let l = left.min_byte();
                let r = right.min_byte();
                if l < r {
                    l
                } else {
                    r
                }
            },
            Node::Leaf { contents } => contents.byte(),
        }
    }

    /// The encode map: each byte to the bits of the path from the root to its leaf.
    pub fn gen_encoding(&self) -> (r: HashMap<u8, BitSequence>)
        requires
            depth(*self) < u64::MAX,
        ensures
            code_view(r@) == encoding_of(*self),
            map_wf(r@),
    {
        let pairs = self.gen_decoding();
        let mut encoding: HashMap<u8, BitSequence> = HashMap::new();
        let n = pairs.len();
        let mut i: usize = 0;
        let mut pairs = pairs;
        let ghost all = pair_view(pairs@);
        proof {
            assert(code_view(encoding@) =~= map_of_paths(all.take(0)));
        }
        while pairs.len() > 0
            invariant
                n == all.len(),
                pairs@.len() + i == n,
                pairs_wf(pairs@),
                pair_view(pairs@) == all.skip(i as int),
                code_view(encoding@) == map_of_paths(all.take(i as int)),
                map_wf(encoding@),
            decreases pairs@.len(),
        {
            let ghost before = pairs@;
            let (code, byte) = pairs.remove(0);
            proof {
                assert(before[0].0.wf());
                assert(all[i as int] == (code@, byte)) by {
                    assert(pair_view(before)[0] == all.skip(i as int)[0]);
                }
                assert(pair_view(pairs@) =~= all.skip(i + 1)) by {
                    assert forall|k: int| 0 <= k < pairs@.len() implies pair_view(pairs@)[k]
                        == all.skip(i + 1)[k] by {
                        assert(pairs@[k] == before[k + 1]);
                        assert(pair_view(before)[k + 1] == all.skip(i as int)[k + 1]);
                    }
                }
                assert forall|k: int| 0 <= k < pairs@.len() implies (#[trigger] pairs@[k]).0.wf() by {
                    assert(pairs@[k] == before[k + 1]);
                }
                assert(all.take(i + 1).drop_last() =~= all.take(i as int));
            }
            encoding.insert(byte, code);
            i = i + 1;
            proof {
                assert(code_view(encoding@) =~= map_of_paths(all.take(i as int)));
            }
        }
        proof {
            assert(all.take(n as int) =~= all);
        }
        encoding
    }

    /// The decode list: each code with its byte, leaves left to right.
    pub fn gen_decoding(&self) -> (r: Vec<(BitSequence, u8)>)
        requires
            depth(*self) < u64::MAX,
        ensures
            pair_view(r@) == leaf_paths(*self),
            pairs_wf(r@),
    {
        let mut out: Vec<(BitSequence, u8)> = Vec::new();
        match self {
            Node::Internal { .. } => {
                self.visit_node(BitSequence::new(), &mut out);
                proof {
                    assert(pair_view(out@) =~= paths(*self, Seq::empty()));
                }
            },
            Node::Leaf { contents } => {
                let mut code = BitSequence::new();
                code.append_bit(0);
                out.push((code, contents.byte()));
                proof {
                    assert(code@ =~= seq![false]);
                    assert(pair_view(out@) =~= leaf_paths(*self));
                }
            },
        }
        out
    }

    /// Append to `out` each leaf below this node with its path after `path`.
    fn visit_node(&self, path: BitSequence, out: &mut Vec<(BitSequence, u8)>)
        requires
            path.wf(),
            path@.len() + depth(*self) <= u64::MAX,
            pairs_wf(old(out)@),
        ensures
            pair_view(final(out)@) == pair_view(old(out)@) + paths(*self, path@),
            pairs_wf(final(out)@),
        decreases self,
    {
        match self {
            Node::Internal { left, right } => {
                let mut left_path = path.duplicate();
                left_path.append_bit(0);
                let mut right_path = path.duplicate();
                right_path.append_bit(1);
                let ghost o0 = pair_view(out@);
                (**left).visit_node(left_path, out);
                let ghost o1 = pair_view(out@);
                (**right).visit_node(right_path, out);
                proof {
                    assert(pair_view(out@) =~= o0 + paths(*self, path@));
                }
            },
            Node::Leaf { contents } => {
                let ghost before = out@;
                out.push((path, contents.byte()));
                proof {
                    assert(pair_view(out@) =~= pair_view(before) + paths(*self, path@));
                    assert forall|i: int| 0 <= i < out@.len() implies (#[trigger] out@[i]).0.wf() by {
                        if i < before.len() {
                            assert(out@[i] == before[i]);
                        }
                    }
                }
            },
        }
    }

    /// Decode a payload by walking it down the tree, one output byte for each leaf reached.
    pub fn decode(&self, seq: &BitSequence) -> (r: Vec<u8>)
        requires
            seq.wf(),
        ensures
            r@ == decode_bits(*self, seq@),
    {
        let mut out: Vec<u8> = Vec::new();
        let n = seq.length();
        let ghost bits = seq@;
        match self {
            Node::Leaf { contents } => {
                let byte = contents.byte();
                let mut i: u64 = 0;
                let mut done = false;
                proof {
                    assert(bits.skip(0) =~= bits);
                    assert(out@ =~= Seq::new(0, |k: int| byte));
                }
                while i < n && !done
                    invariant
                        n == bits.len(),
                        bits == seq@,
                        seq.wf(),
                        i <= n,
                        leading_false(bits) == i + leading_false(bits.skip(i as int)),
                        done ==> leading_false(bits.skip(i as int)) == 0,
                        out@ == Seq::new(i as nat, |k: int| byte),
                    decreases (n - i) * 2 + if done {
                        0int
                    } else {
                        1int
                    },
                {
                    let bit = seq.get_bit(i);
                    if bit == Some(1u8) {
                        done = true;
                    } else {
                        proof {
                            assert(bits.skip(i as int).drop_first() =~= bits.skip(i + 1));
                        }
                        out.push(byte);
                        i = i + 1;
                        proof {
                            assert(out@ =~= Seq::new(i as nat, |k: int| byte));
                        }
                    }
                }
                proof {
                    if !done {
                        assert(bits.skip(i as int).len() == 0);
                    }
                    assert(out@ =~= decode_bits(*self, bits));
                }
            },
            Node::Internal { .. } => {
                let mut cur: &Node = self;
                let mut i: u64 = 0;
                proof {
                    assert(bits.skip(0) =~= bits);
                    assert(out@ + walk(*self, *self, bits) =~= walk(*self, *self, bits));
                }
                while i < n
                    invariant
                        n == bits.len(),
                        bits == seq@,
                        seq.wf(),
                        i <= n,
                        self is Internal,
                        cur is Internal,
                        out@ + walk(*self, *cur, bits.skip(i as int)) == walk(*self, *self, bits),
                    decreases n - i,
                {
                    let bit = seq.get_bit(i);
                    let ghost rest = bits.skip(i as int);
                    proof {
                        assert(rest.drop_first() =~= bits.skip(i + 1));
                        assert(rest[0] == bits[i as int]);
                    }
                    match cur {
                        Node::Internal { left, right } => {
                            let next: &Node = if bit == Some(1u8) {
                                &**right
                            } else {
                                &**left
                            };
                            proof {
                                assert(*next == if rest[0] {
                                    **right
                                } else {
                                    **left
                                });
                            }
                            match next {
                                Node::Leaf { contents } => {
                                    let ghost o = out@;
                                    proof {
                                        assert(walk(*self, *cur, rest) == seq![contents.byte] + walk(
                                            *self,
                                            *self,
                                            rest.drop_first(),
                                        ));
                                    }
                                    out.push(contents.byte());
                                    cur = self;
                                    proof {
                                        assert(out@ + walk(*self, *self, bits.skip(i + 1)) =~= o
                                            + (seq![contents.byte] + walk(
                                            *self,
                                            *self,
                                            bits.skip(i + 1),
                                        )));
                                    }
                                },
                                Node::Internal { .. } => {
                                    proof {
                                        assert(walk(*self, *cur, rest) == walk(
                                            *self,
                                            *next,
                                            rest.drop_first(),
                                        ));
                                    }
                                    cur = next;
                                },
                            }
                        },
                        Node::Leaf { .. } => {},
                    }
                    i = i + 1;
                }
                proof {
                    assert(bits.skip(i as int).len() == 0);
                    assert(out@ =~= out@ + walk(*self, *cur, bits.skip(i as int)));
                }
            },
        }
        out
    }
}


/// Number of leaves below `n`.
pub open spec fn leaf_count(n: Node) -> nat
    decreases n,
{
    match n {
        Node::Internal { left, right } => leaf_count(*left) + leaf_count(*right),
        Node::Leaf { .. } => 1,
    }
}

/// The bytes of the leaves below `n`.
pub open spec fn leaf_bytes(n: Node) -> Set<u8>
    decreases n,
{
    match n {
        Node::Internal { left, right } => leaf_bytes(*left).union(leaf_bytes(*right)),
        Node::Leaf { contents } => set![contents.byte],
    }
}

/// The number of leaves below all nodes of `s`.
pub open spec fn total_leaves(s: Seq<Node>) -> nat
    decreases s.len(),
{
    if s.len() == 0 {
        0
    } else {
        total_leaves(s.drop_last()) + leaf_count(s.last())
    }
}

/// The bytes of the leaves below all nodes of `s`.
pub open spec fn bytes_in(s: Seq<Node>) -> Set<u8>
    decreases s.len(),
{
    if s.len() == 0 {
        Set::empty()
    } else {
        bytes_in(s.drop_last()).union(leaf_bytes(s.last()))
    }
}

proof fn lemma_totals_remove(s: Seq<Node>, i: int)
    requires
        0 <= i < s.len(),
    ensures
        total_leaves(s.remove(i)) + leaf_count(s[i]) == total_leaves(s),
        bytes_in(s.remove(i)).union(leaf_bytes(s[i])) == bytes_in(s),
    decreases s.len(),
{
    if i == s.len() - 1 {
        assert(s.remove(i) =~= s.drop_last());
    } else {
        lemma_totals_remove(s.drop_last(), i);
        assert(s.remove(i).drop_last() =~= s.drop_last().remove(i));
        assert(bytes_in(s.remove(i)).union(leaf_bytes(s[i])) =~= bytes_in(s));
    }
}

proof fn lemma_totals_push(s: Seq<Node>, x: Node)
    ensures
        total_leaves(s.push(x)) == total_leaves(s) + leaf_count(x),
        bytes_in(s.push(x)) == bytes_in(s).union(leaf_bytes(x)),
{
    assert(s.push(x).drop_last() =~= s);
}

/// A round of construction keeps the leaves of the working set.
proof fn lemma_merge_step_totals(s: Seq<Node>)
    requires
        s.len() >= 2,
    ensures
        total_leaves(merge_step(s)) == total_leaves(s),
        bytes_in(merge_step(s)) == bytes_in(s),
{
    lemma_min_index_upto(s, s.len() as int);
    let i = min_index(s);
    let a = s[i];
    let s1 = s.remove(i);
    lemma_min_index_upto(s1, s1.len() as int);
    let j = min_index(s1);
    let b = s1[j];
    let s2 = s1.remove(j);
    lemma_totals_remove(s, i);
    lemma_totals_remove(s1, j);
    let parent = Node::Internal { left: Box::new(a), right: Box::new(b) };
    lemma_totals_push(s2, parent);
    assert(bytes_in(merge_step(s)) =~= bytes_in(s));
}

/// Construction ends in one tree holding every leaf of the working set.
proof fn lemma_build(s: Seq<Node>, n: nat)
    requires
        n == s.len(),
        n >= 1,
    ensures
        build(s, n) is Some,
        leaf_count(build(s, n).unwrap()) == total_leaves(s),
        leaf_bytes(build(s, n).unwrap()) == bytes_in(s),
    decreases n,
{
    if n == 1 {
        assert(s.drop_last() =~= Seq::<Node>::empty());
        assert(bytes_in(s.drop_last()) == Set::<u8>::empty());
        assert(total_leaves(s.drop_last()) == 0);
        assert(s.last() == s[0]);
        assert(bytes_in(s) =~= leaf_bytes(s[0]));
    } else {
        lemma_merge_step_len(s);
        lemma_merge_step_totals(s);
        lemma_build(merge_step(s), (n - 1) as nat);
    }
}

proof fn lemma_leaves_upto_totals(m: Map<u8, u64>, k: int)
    requires
        0 <= k <= 256,
    ensures
        total_leaves(leaves_upto(m, k)) == leaves_upto(m, k).len(),
        leaves_upto(m, k).len() <= k,
        bytes_in(leaves_upto(m, k)) == Set::new(|b: u8| m.contains_key(b) && (b as int) < k),
    decreases k,
{
    if k == 0 {
        assert(bytes_in(leaves_upto(m, k)) =~= Set::new(
            |b: u8| m.contains_key(b) && (b as int) < k,
        ));
    } else {
        lemma_leaves_upto_totals(m, k - 1);
        let b = (k - 1) as u8;
        if m.contains_key(b) {
            lemma_totals_push(
                leaves_upto(m, k - 1),
                Node::Leaf { contents: ByteFreq { byte: b, frequency: m[b] } },
            );
        }
        assert(bytes_in(leaves_upto(m, k)) =~= Set::new(
            |x: u8| m.contains_key(x) && (x as int) < k,
        ));
    }
}

proof fn lemma_depth_below_leaves(n: Node)
    ensures
        depth(n) + 1 <= leaf_count(n),
    decreases n,
{
    match n {
        Node::Internal { left, right } => {
            lemma_depth_below_leaves(*left);
            lemma_depth_below_leaves(*right);
        },
        Node::Leaf { .. } => {},
    }
}

/// Every path below `n` extends `prefix` by at least one and at most `depth(n)` bits,
/// and the paths reach exactly the bytes of the leaves.
proof fn lemma_paths(n: Node, prefix: Seq<bool>)
    ensures
        forall|i: int|
            0 <= i < paths(n, prefix).len() ==> (#[trigger] paths(n, prefix)[i]).0.len()
                <= prefix.len() + depth(n),
        forall|b: u8|
            leaf_bytes(n).contains(b) <==> exists|i: int|
                0 <= i < paths(n, prefix).len() && (#[trigger] paths(n, prefix)[i]).1 == b,
    decreases n,
{
    match n {
        Node::Internal { left, right } => {
            let pl = prefix.push(false);
            let pr = prefix.push(true);
            lemma_paths(*left, pl);
            lemma_paths(*right, pr);
            let l = paths(*left, pl);
            let r = paths(*right, pr);
            assert(paths(n, prefix) == l + r);
            assert forall|i: int| 0 <= i < (l + r).len() implies (#[trigger] (l + r)[i]).0.len()
                <= prefix.len() + depth(n) by {
                if i < l.len() {
                    assert((l + r)[i] == l[i]);
                } else {
                    assert((l + r)[i] == r[i - l.len()]);
                }
            }
            assert forall|b: u8| leaf_bytes(n).contains(b) implies exists|i: int|
                0 <= i < (l + r).len() && (#[trigger] (l + r)[i]).1 == b by {
                if leaf_bytes(*left).contains(b) {
                    let i = choose|i: int| 0 <= i < l.len() && (#[trigger] l[i]).1 == b;
                    assert((l + r)[i] == l[i]);
                } else {
                    assert(leaf_bytes(*right).contains(b));
                    let i = choose|i: int| 0 <= i < r.len() && (#[trigger] r[i]).1 == b;
                    assert((l + r)[l.len() + i] == r[i]);
                }
            }
            assert forall|b: u8|
                (exists|i: int| 0 <= i < (l + r).len() && (#[trigger] (l + r)[i]).1 == b) implies leaf_bytes(
                n,
            ).contains(b) by {
                let i = choose|i: int| 0 <= i < (l + r).len() && (#[trigger] (l + r)[i]).1 == b;
                if i < l.len() {
                    assert((l + r)[i] == l[i]);
                    assert(leaf_bytes(*left).contains(b));
                } else {
                    let k = i - l.len();
                    assert((l + r)[i] == r[k]);
                    assert(0 <= k < r.len() && r[k].1 == b);
                    assert(leaf_bytes(*right).contains(b));
                }
            }
        },
        Node::Leaf { contents } => {
            assert(paths(n, prefix)[0].1 == contents.byte);
        },
    }
}

/// The map holds exactly the bytes of the list, each with the code of one of its entries.
pub proof fn lemma_map_of_paths(l: Seq<(Seq<bool>, u8)>)
    ensures
        forall|b: u8|
            map_of_paths(l).contains_key(b) <==> exists|i: int|
                0 <= i < l.len() && (#[trigger] l[i]).1 == b,
        forall|b: u8|
            map_of_paths(l).contains_key(b) ==> exists|i: int|
                0 <= i < l.len() && #[trigger] l[i] == (map_of_paths(l)[b], b),
    decreases l.len(),
{
    if l.len() > 0 {
        let l0 = l.drop_last();
        lemma_map_of_paths(l0);
        assert forall|b: u8| map_of_paths(l).contains_key(b) implies exists|i: int|
            0 <= i < l.len() && #[trigger] l[i] == (map_of_paths(l)[b], b) by {
            if b == l.last().1 {
                assert(l[l.len() - 1] == (map_of_paths(l)[b], b));
            } else {
                let i = choose|i: int| 0 <= i < l0.len() && #[trigger] l0[i] == (map_of_paths(l0)[b], b);
                assert(l[i] == l0[i]);
            }
        }
        assert forall|b: u8| map_of_paths(l).contains_key(b) implies exists|i: int|
            0 <= i < l.len() && (#[trigger] l[i]).1 == b by {
            let i = choose|i: int| 0 <= i < l.len() && #[trigger] l[i] == (map_of_paths(l)[b], b);
        }
        assert forall|b: u8| (exists|i: int| 0 <= i < l.len() && (#[trigger] l[i]).1 == b) implies map_of_paths(
            l,
        ).contains_key(b) by {
            let i = choose|i: int| 0 <= i < l.len() && (#[trigger] l[i]).1 == b;
            if i < l.len() - 1 {
                assert(l0[i] == l[i]);
            }
        }
    }
}

/// The tree of a non-empty table: its codes are for exactly the table's bytes, each one
/// to 255 bits long, and its depth is at most 255.
pub proof fn lemma_tree_codes(m: Map<u8, u64>)
    requires
        exists|b: u8| m.contains_key(b),
    ensures
        huffman_tree(m) is Some,
        depth(huffman_tree(m).unwrap()) <= 255,
        forall|b: u8| #[trigger] encoding_of(huffman_tree(m).unwrap()).contains_key(b) <==> m.contains_key(b),
        forall|b: u8| #[trigger] encoding_of(huffman_tree(m).unwrap()).contains_key(b) ==> 1 <= encoding_of(
            huffman_tree(m).unwrap(),
        )[b].len() <= 255,
{
    let s = leaves(m);
    lemma_leaves_upto_totals(m, 256);
    let b0 = choose|b: u8| m.contains_key(b);
    assert(bytes_in(s).contains(b0));
    if s.len() == 0 {
        assert(bytes_in(s) =~= Set::empty());
    }
    lemma_build(s, s.len());
    let t = huffman_tree(m).unwrap();
    lemma_depth_below_leaves(t);
    let l = leaf_paths(t);
    lemma_map_of_paths(l);
    let enc = encoding_of(t);
    match t {
        Node::Leaf { contents } => {
            assert forall|b: u8| #[trigger] enc.contains_key(b) <==> m.contains_key(b) by {
                assert(l[0].1 == contents.byte);
                assert(leaf_bytes(t).contains(b) <==> b == contents.byte);
            }
            assert forall|b: u8| #[trigger] enc.contains_key(b) implies 1 <= enc[b].len() <= 255 by {
                let i = choose|i: int| 0 <= i < l.len() && #[trigger] l[i] == (enc[b], b);
            }
        },
        Node::Internal { left, right } => {
            lemma_paths(t, Seq::empty());
            assert(l == paths(t, Seq::empty()));
            assert forall|b: u8| #[trigger] enc.contains_key(b) <==> m.contains_key(b) by {
                if enc.contains_key(b) {
                    let i = choose|i: int| 0 <= i < l.len() && (#[trigger] l[i]).1 == b;
                    assert(leaf_bytes(t).contains(b));
                    assert(bytes_in(s).contains(b));
                }
                if m.contains_key(b) {
                    assert(bytes_in(s).contains(b));
                    assert(leaf_bytes(t).contains(b));
                    let i = choose|i: int| 0 <= i < l.len() && (#[trigger] l[i]).1 == b;
                }
            }
            assert forall|b: u8| #[trigger] enc.contains_key(b) implies 1 <= enc[b].len() <= 255 by {
                let i = choose|i: int| 0 <= i < l.len() && #[trigger] l[i] == (enc[b], b);
                lemma_path_nonempty(t, Seq::empty(), i);
            }
        },
    }
}

/// Each path below an internal node is longer than its prefix.
proof fn lemma_path_nonempty(n: Node, prefix: Seq<bool>, i: int)
    requires
        n is Internal,
        0 <= i < paths(n, prefix).len(),
    ensures
        paths(n, prefix)[i].0.len() > prefix.len(),
{
    lemma_path_extends(n, prefix, i);
}

/// Each path below `n` starts with `prefix`, and is longer than it under an internal node.
proof fn lemma_path_extends(n: Node, prefix: Seq<bool>, i: int)
    requires
        0 <= i < paths(n, prefix).len(),
    ensures
        paths(n, prefix)[i].0.len() >= prefix.len(),
        paths(n, prefix)[i].0.take(prefix.len() as int) == prefix,
        n is Internal ==> paths(n, prefix)[i].0.len() > prefix.len(),
    decreases n,
{
    match n {
        Node::Internal { left, right } => {
            let pl = prefix.push(false);
            let pr = prefix.push(true);
            let l = paths(*left, pl);
            let r = paths(*right, pr);
            if i < l.len() {
                lemma_path_extends(*left, pl, i);
                assert((l + r)[i] == l[i]);
                assert(l[i].0.take(prefix.len() as int) =~= l[i].0.take(pl.len() as int).take(
                    prefix.len() as int,
                ));
            } else {
                lemma_path_extends(*right, pr, i - l.len());
                assert((l + r)[i] == r[i - l.len()]);
                assert(r[i - l.len()].0.take(prefix.len() as int) =~= r[i - l.len()].0.take(
                    pr.len() as int,
                ).take(prefix.len() as int));
            }
        },
        Node::Leaf { .. } => {
            assert(prefix.take(prefix.len() as int) =~= prefix);
        },
    }
}


/// Walking the path of a leaf below an internal node `cur`, from `cur`, gives that
/// leaf's byte and brings the walk back to the root.
pub proof fn lemma_walk_path(root: Node, cur: Node, prefix: Seq<bool>, i: int, rest: Seq<bool>)
    requires
        cur is Internal,
        0 <= i < paths(cur, prefix).len(),
    ensures
        walk(root, cur, paths(cur, prefix)[i].0.skip(prefix.len() as int) + rest) == seq![
            paths(cur, prefix)[i].1,
        ] + walk(root, root, rest),
    decreases cur,
{
    let q = paths(cur, prefix)[i].0;
    let b = paths(cur, prefix)[i].1;
    let k = prefix.len() as int;
    lemma_path_extends(cur, prefix, i);
    match cur {
        Node::Internal { left, right } => {
            let pl = prefix.push(false);
            let pr = prefix.push(true);
            let l = paths(*left, pl);
            let r = paths(*right, pr);
            let (child, cp, j) = if i < l.len() {
                assert(paths(cur, prefix)[i] == l[i]);
                (*left, pl, i)
            } else {
                assert(paths(cur, prefix)[i] == r[i - l.len()]);
                (*right, pr, i - l.len())
            };
            assert(paths(child, cp)[j] == (q, b));
            lemma_path_extends(child, cp, j);
            assert(q[k] == cp[k]) by {
                assert(q.take(k + 1)[k] == cp[k]);
            }
            let x = q.skip(k) + rest;
            assert(x.drop_first() =~= q.skip(k + 1) + rest);
            assert(x[0] == cp[k]);
            match child {
                Node::Leaf { contents } => {
                    assert(paths(child, cp) == seq![(cp, contents.byte)]);
                    assert(q.skip(k + 1) =~= Seq::<bool>::empty());
                    assert(x.drop_first() =~= rest);
                },
                Node::Internal { .. } => {
                    lemma_walk_path(root, child, cp, j, rest);
                },
            }
        },
        Node::Leaf { .. } => {},
    }
}


/// The leaf of byte `y` under table `m`.
pub open spec fn leaf_of(m: Map<u8, u64>, y: u8) -> Node {
    Node::Leaf { contents: ByteFreq { byte: y, frequency: m[y] } }
}

/// The leaves of a table whose bytes are `a` and `b` (one byte where they are equal).
proof fn lemma_leaves_pair(m: Map<u8, u64>, a: u8, b: u8, k: int)
    requires
        a <= b,
        forall|y: u8| #[trigger] m.contains_key(y) <==> (y == a || y == b),
        0 <= k <= 256,
    ensures
        leaves_upto(m, k) == (if (a as int) < k {
            seq![leaf_of(m, a)]
        } else {
            Seq::empty()
        }) + (if a < b && (b as int) < k {
            seq![leaf_of(m, b)]
        } else {
            Seq::empty()
        }),
    decreases k,
{
    if k > 0 {
        lemma_leaves_pair(m, a, b, k - 1);
        let y = (k - 1) as u8;
        assert(m.contains_key(y) <==> (y == a || y == b));
        assert(leaves_upto(m, k) =~= (if (a as int) < k {
            seq![leaf_of(m, a)]
        } else {
            Seq::empty()
        }) + (if a < b && (b as int) < k {
            seq![leaf_of(m, b)]
        } else {
            Seq::empty()
        }));
    } else {
        assert(leaves_upto(m, k) =~= Seq::<Node>::empty() + Seq::<Node>::empty());
    }
}

/// Tie-break: of two bytes with equal counts, the smaller gets the code `0` and the
/// larger the code `1`.
pub proof fn lemma_tie_break(m: Map<u8, u64>, a: u8, b: u8)
    requires
        a < b,
        forall|y: u8| #[trigger] m.contains_key(y) <==> (y == a || y == b),
        m[a] == m[b],
    ensures
        huffman_tree(m) == Some(
            Node::Internal { left: Box::new(leaf_of(m, a)), right: Box::new(leaf_of(m, b)) },
        ),
        encoding_of(huffman_tree(m).unwrap()) == map![a => seq![false], b => seq![true]],
{
    lemma_leaves_pair(m, a, b, 256);
    let s = leaves(m);
    assert(s =~= seq![leaf_of(m, a), leaf_of(m, b)]);
    assert(node_freq(leaf_of(m, a)) == m[a] as nat);
    assert(node_freq(leaf_of(m, b)) == m[b] as nat);
    assert(node_min(leaf_of(m, a)) == a);
    assert(node_min(leaf_of(m, b)) == b);
    assert(!precedes(s[1], s[0]));
    assert(min_index_upto(s, 1) == 0);
    assert(min_index(s) == 0);
    let s1 = s.remove(0);
    assert(s1 =~= seq![leaf_of(m, b)]);
    assert(min_index(s1) == 0);
    let t = Node::Internal { left: Box::new(leaf_of(m, a)), right: Box::new(leaf_of(m, b)) };
    assert(s1.remove(0).push(t) =~= seq![t]);
    assert(merge_step(s) == seq![t]);
    assert(build(s, 2) == build(merge_step(s), 1));
    let l = leaf_paths(t);
    assert(paths(leaf_of(m, a), seq![false]) == seq![(seq![false], a)]);
    assert(paths(leaf_of(m, b), seq![true]) == seq![(seq![true], b)]);
    assert(Seq::<bool>::empty().push(false) =~= seq![false]);
    assert(Seq::<bool>::empty().push(true) =~= seq![true]);
    assert(l =~= seq![(seq![false], a), (seq![true], b)]);
    assert(l.drop_last() =~= seq![(seq![false], a)]);
    assert(l.drop_last().drop_last() =~= Seq::<(Seq<bool>, u8)>::empty());
    assert(map_of_paths(l.drop_last().drop_last()) == Map::<u8, Seq<bool>>::empty());
    assert(map_of_paths(l.drop_last()) =~= map![a => seq![false]]);
    assert(map_of_paths(l) =~= map![a => seq![false], b => seq![true]]);
}

/// A table of one byte gives a lone leaf, whose code is the single bit `0`.
pub proof fn lemma_lone_leaf(m: Map<u8, u64>, x: u8)
    requires
        forall|y: u8| #[trigger] m.contains_key(y) <==> y == x,
    ensures
        huffman_tree(m) == Some(leaf_of(m, x)),
        encoding_of(huffman_tree(m).unwrap()) == map![x => seq![false]],
{
    lemma_leaves_pair(m, x, x, 256);
    let s = leaves(m);
    assert(s =~= seq![leaf_of(m, x)]);
    let l = leaf_paths(leaf_of(m, x));
    assert(l.drop_last() =~= Seq::<(Seq<bool>, u8)>::empty());
    assert(map_of_paths(l.drop_last()) == Map::<u8, Seq<bool>>::empty());
    assert(l.last() == (seq![false], x));
    assert(map_of_paths(l) =~= map![x => seq![false]]);
}


/// Whether `q` is the code of some entry of the decode list `l`.
pub open spec fn is_code(l: Seq<(Seq<bool>, u8)>, q: Seq<bool>) -> bool {
    exists|i: int| 0 <= i < l.len() && (#[trigger] l[i]).0 == q
}

/// The byte of an entry of `l` whose code is `q`.
pub open spec fn byte_of_code(l: Seq<(Seq<bool>, u8)>, q: Seq<bool>) -> u8 {
    l[choose|i: int| 0 <= i < l.len() && (#[trigger] l[i]).0 == q].1
}

/// Decoding through a decode list: bits gather after `cur` until they form a code,
/// which gives its byte; gathering then starts again from no bits.
pub open spec fn match_codes(l: Seq<(Seq<bool>, u8)>, bits: Seq<bool>, cur: Seq<bool>) -> Seq<u8>
    decreases bits.len(),
{
    if bits.len() == 0 {
        Seq::empty()
    } else {
        let c = cur.push(bits[0]);
        if is_code(l, c) {
            seq![byte_of_code(l, c)] + match_codes(l, bits.drop_first(), Seq::empty())
        } else {
            match_codes(l, bits.drop_first(), c)
        }
    }
}

/// The node that the path `q` leads to from `n`, if it stays in the tree.
pub open spec fn subtree(n: Node, q: Seq<bool>) -> Option<Node>
    decreases q.len(),
{
    if q.len() == 0 {
        Some(n)
    } else {
        match n {
            Node::Internal { left, right } => subtree(
                if q[0] {
                    *right
                } else {
                    *left
                },
                q.drop_first(),
            ),
            Node::Leaf { .. } => None,
        }
    }
}

proof fn lemma_subtree_push(n: Node, q: Seq<bool>, x: bool)
    requires
        subtree(n, q) is Some,
    ensures
        subtree(n, q.push(x)) == subtree(subtree(n, q).unwrap(), seq![x]),
    decreases q.len(),
{
    if q.len() > 0 {
        match n {
            Node::Internal { left, right } => {
                let c = if q[0] {
                    *right
                } else {
                    *left
                };
                assert(q.push(x).drop_first() =~= q.drop_first().push(x));
                lemma_subtree_push(c, q.drop_first(), x);
            },
            Node::Leaf { .. } => {},
        }
    } else {
        assert(q.push(x) =~= seq![x]);
    }
}

/// The path of each entry below `n` leads from `n` to that entry's leaf.
proof fn lemma_path_reaches_leaf(n: Node, prefix: Seq<bool>, i: int)
    requires
        0 <= i < paths(n, prefix).len(),
    ensures
        subtree(n, paths(n, prefix)[i].0.skip(prefix.len() as int)) matches Some(
            Node::Leaf { contents },
        ) && contents.byte == paths(n, prefix)[i].1,
    decreases n,
{
    lemma_path_extends(n, prefix, i);
    let q = paths(n, prefix)[i].0;
    let k = prefix.len() as int;
    match n {
        Node::Internal { left, right } => {
            let pl = prefix.push(false);
            let pr = prefix.push(true);
            let l = paths(*left, pl);
            let r = paths(*right, pr);
            let (child, cp, j) = if i < l.len() {
                assert(paths(n, prefix)[i] == l[i]);
                (*left, pl, i)
            } else {
                assert(paths(n, prefix)[i] == r[i - l.len()]);
                (*right, pr, i - l.len())
            };
            lemma_path_extends(child, cp, j);
            lemma_path_reaches_leaf(child, cp, j);
            assert(q[k] == cp[k]) by {
                assert(q.take(k + 1)[k] == cp[k]);
            }
            assert(q.skip(k).drop_first() =~= q.skip(k + 1));
        },
        Node::Leaf { .. } => {
            assert(q.skip(k) =~= Seq::<bool>::empty());
        },
    }
}

/// A path from `n` to a leaf is, after `prefix`, the code of an entry for that leaf.
proof fn lemma_leaf_has_path(n: Node, prefix: Seq<bool>, q: Seq<bool>)
    requires
        subtree(n, q) matches Some(Node::Leaf { .. }),
    ensures
        exists|i: int|
            0 <= i < paths(n, prefix).len() && #[trigger] paths(n, prefix)[i] == (
                prefix + q,
                subtree(n, q).unwrap()->contents.byte,
            ),
    decreases q.len(),
{
    if q.len() == 0 {
        assert(prefix + q =~= prefix);
        match n {
            Node::Leaf { contents } => {
                assert(paths(n, prefix)[0] == (prefix + q, contents.byte));
            },
            Node::Internal { .. } => {},
        }
    } else {
        match n {
            Node::Internal { left, right } => {
                let x = q[0];
                let (child, cp) = if x {
                    (*right, prefix.push(true))
                } else {
                    (*left, prefix.push(false))
                };
                lemma_leaf_has_path(child, cp, q.drop_first());
                assert(cp + q.drop_first() =~= prefix + q);
                let l = paths(*left, prefix.push(false));
                let r = paths(*right, prefix.push(true));
                let j = choose|j: int|
                    0 <= j < paths(child, cp).len() && #[trigger] paths(child, cp)[j] == (
                        cp + q.drop_first(),
                        subtree(child, q.drop_first()).unwrap()->contents.byte,
                    );
                if x {
                    assert(paths(n, prefix)[l.len() + j] == r[j]);
                } else {
                    assert(paths(n, prefix)[j] == l[j]);
                }
            },
            Node::Leaf { .. } => {},
        }
    }
}

/// Under an internal root, a bit string is a code exactly when it leads to a leaf, and
/// then it gives that leaf's byte.
proof fn lemma_code_iff_leaf(t: Node, q: Seq<bool>)
    requires
        t is Internal,
    ensures
        is_code(paths(t, Seq::empty()), q) <==> subtree(t, q) matches Some(Node::Leaf { .. }),
        is_code(paths(t, Seq::empty()), q) ==> byte_of_code(paths(t, Seq::empty()), q)
            == subtree(t, q).unwrap()->contents.byte,
{
    let l = paths(t, Seq::empty());
    if is_code(l, q) {
        assert forall|j: int| 0 <= j < l.len() && (#[trigger] l[j]).0 == q implies subtree(
            t,
            q,
        ) matches Some(Node::Leaf { contents }) && l[j].1 == contents.byte by {
            lemma_path_reaches_leaf(t, Seq::empty(), j);
            assert(l[j].0.skip(0) =~= l[j].0);
        }
    }
    if subtree(t, q) matches Some(Node::Leaf { .. }) {
        lemma_leaf_has_path(t, Seq::empty(), q);
        assert(Seq::<bool>::empty() + q =~= q);
        let i = choose|i: int|
            0 <= i < l.len() && #[trigger] l[i] == (Seq::<bool>::empty() + q, subtree(
                t,
                q,
            ).unwrap()->contents.byte);
        assert(l[i].0 == q);
    }
}

proof fn lemma_walk_matches(t: Node, cur: Node, q: Seq<bool>, bits: Seq<bool>)
    requires
        t is Internal,
        cur is Internal,
        subtree(t, q) == Some(cur),
    ensures
        match_codes(paths(t, Seq::empty()), bits, q) == walk(t, cur, bits),
    decreases bits.len(),
{
    if bits.len() > 0 {
        let l = paths(t, Seq::empty());
        let x = bits[0];
        let c = q.push(x);
        lemma_subtree_push(t, q, x);
        lemma_code_iff_leaf(t, c);
        match cur {
            Node::Internal { left, right } => {
                let next = if x {
                    *right
                } else {
                    *left
                };
                assert(seq![x].drop_first() =~= Seq::<bool>::empty());
                assert(subtree(next, Seq::empty()) == Some(next));
                assert(subtree(cur, seq![x]) == subtree(next, seq![x].drop_first()));
                assert(subtree(cur, seq![x]) == Some(next));
                match next {
                    Node::Leaf { .. } => {
                        assert(subtree(t, Seq::empty()) == Some(t));
                        lemma_walk_matches(t, t, Seq::empty(), bits.drop_first());
                    },
                    Node::Internal { .. } => {
                        lemma_walk_matches(t, next, c, bits.drop_first());
                    },
                }
            },
            Node::Leaf { .. } => {},
        }
    }
}

proof fn lemma_single_code_matches(b: u8, bits: Seq<bool>, cur: Seq<bool>)
    requires
        cur.len() <= 1,
        cur.len() == 1 ==> cur[0],
    ensures
        match_codes(seq![(seq![false], b)], bits, cur) == if cur.len() == 0 {
            Seq::new(leading_false(bits), |i: int| b)
        } else {
            Seq::empty()
        },
    decreases bits.len(),
{
    let l = seq![(seq![false], b)];
    if bits.len() > 0 {
        let c = cur.push(bits[0]);
        if is_code(l, c) {
            let i = choose|i: int| 0 <= i < l.len() && (#[trigger] l[i]).0 == c;
            assert(c =~= seq![false]);
        }
        if cur.len() == 0 && !bits[0] {
            assert(c =~= seq![false]);
            assert(l[0].0 == c);
            lemma_single_code_matches(b, bits.drop_first(), Seq::empty());
            assert(seq![b] + Seq::new(leading_false(bits.drop_first()), |i: int| b) =~= Seq::new(
                leading_false(bits),
                |i: int| b,
            ));
        } else {
            assert(c.len() >= 2 || c[0]);
            assert(!is_code(l, c));
            if cur.len() == 0 {
                lemma_single_code_matches(b, bits.drop_first(), c);
                assert(Seq::new(leading_false(bits), |i: int| b) =~= Seq::<u8>::empty());
            } else {
                lemma_match_codes_long(l, bits.drop_first(), c);
            }
        }
    } else {
        assert(Seq::new(leading_false(bits), |i: int| b) =~= Seq::<u8>::empty());
    }
}

/// Gathered bits longer than every code never form one.
proof fn lemma_match_codes_long(l: Seq<(Seq<bool>, u8)>, bits: Seq<bool>, cur: Seq<bool>)
    requires
        forall|i: int| 0 <= i < l.len() ==> (#[trigger] l[i]).0.len() < cur.len(),
    ensures
        match_codes(l, bits, cur) == Seq::<u8>::empty(),
    decreases bits.len(),
{
    if bits.len() > 0 {
        let c = cur.push(bits[0]);
        if is_code(l, c) {
            let i = choose|i: int| 0 <= i < l.len() && (#[trigger] l[i]).0 == c;
        }
        lemma_match_codes_long(l, bits.drop_first(), c);
    }
}

/// Walking the tree decodes as the decode list does: gather bits until they form a code,
/// give its byte, and start again from the next bit.
pub proof fn lemma_decode_by_codes(t: Node, bits: Seq<bool>)
    ensures
        decode_bits(t, bits) == match_codes(leaf_paths(t), bits, Seq::empty()),
{
    match t {
        Node::Leaf { contents } => {
            lemma_single_code_matches(contents.byte, bits, Seq::empty());
        },
        Node::Internal { .. } => {
            lemma_walk_matches(t, t, Seq::empty(), bits);
        },
    }
}

} // verus!
