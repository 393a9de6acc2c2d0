use vstd::prelude::*;

use crate::bytes::{le_bytes, le_value, lemma_pow2_mono, pow2, push_le, read_le};
use crate::coder::{result_view, CodecError, Coder};

verus! {

/// Static Huffman coding with a header of the 256 byte frequencies.
pub struct Huffman {}

/// A node of the code tree, kept in an arena: nodes `0..256` are the leaves of
/// the byte values, each later node joins two earlier ones.
#[derive(Clone, Copy)]
pub struct Node {
    pub leaf: bool,
    pub input: u8,
    pub freq: u32,
    pub left: Option<usize>,
    pub right: Option<usize>,
}

impl Node {
    /// An internal node with no children and frequency zero.
    pub fn new() -> (r: Node)
        ensures
            !r.leaf,
            r.input == 0,
            r.freq == 0,
            r.left is None,
            r.right is None,
    {
        Node { leaf: false, input: 0, freq: 0, left: None, right: None }
    }
}

/// Occurrences of `b` in `x`.
pub open spec fn count(x: Seq<u8>, b: u8) -> nat
    decreases x.len(),
{
    if x.len() == 0 {
        0
    } else {
        count(x.drop_last(), b) + if x.last() == b {
            1nat
        } else {
            0nat
        }
    }
}

/// The frequency of each byte value in `x`, saturated at `u32::MAX`.
pub open spec fn freqs_of(x: Seq<u8>) -> Seq<u32> {
    Seq::new(
        256,
        |b: int|
            if count(x, b as u8) > u32::MAX {
                u32::MAX
            } else {
                count(x, b as u8) as u32
            },
    )
}

/// The frequency table as little-endian 32-bit values.
pub open spec fn header_bytes(f: Seq<u32>) -> Seq<u8>
    decreases f.len(),
{
    if f.len() == 0 {
        seq![]
    } else {
        header_bytes(f.drop_last()) + le_bytes(f.last())
    }
}

/// The frequency table stored at the start of `input`.
pub open spec fn parse_freqs(input: Seq<u8>) -> Seq<u32> {
    Seq::new(256, |i: int| le_value(input, 4 * i))
}

/// The sum of a frequency table.
pub open spec fn total(f: Seq<u32>) -> nat
    decreases f.len(),
{
    if f.len() == 0 {
        0
    } else {
        total(f.drop_last()) + f.last() as nat
    }
}

fn count_freqs(input: &[u8]) -> (f: Vec<u32>)
    ensures
        f@ == freqs_of(input@),
{
    let mut f: Vec<u32> = Vec::new();
    let mut b: usize = 0;
    while b < 256
        invariant
            b <= 256,
            f@.len() == b,
            forall|j: int| 0 <= j < b ==> f@[j] == 0,
        decreases 256 - b,
    {
        f.push(0);
        b += 1;
    }
    let n = input.len();
    let mut i: usize = 0;
    while i < n
        invariant
            n == input@.len(),
            i <= n,
            f@.len() == 256,
            forall|j: int|
                0 <= j < 256 ==> #[trigger] f@[j] == if count(input@.take(i as int), j as u8)
                    > u32::MAX {
                    u32::MAX
                } else {
                    count(input@.take(i as int), j as u8) as u32
                },
        decreases n - i,
    {
        let v = input[i] as usize;
        let c = f[v];
        f.set(v, c.saturating_add(1));
        proof {
            let pre = input@.take(i as int);
            let post = input@.take(i + 1);
            assert(post.drop_last() == pre);
            assert forall|j: int| 0 <= j < 256 implies #[trigger] f@[j] == if count(post, j as u8)
                > u32::MAX {
                u32::MAX
            } else {
                count(post, j as u8) as u32
            } by {
                assert(count(post, j as u8) == count(pre, j as u8) + if post.last() == j as u8 {
                    1nat
                } else {
                    0nat
                });
            }
        }
        i += 1;
    }
    assert(input@.take(n as int) == input@);
    assert(f@ == freqs_of(input@));
    f
}

fn push_header(out: &mut Vec<u8>, f: &Vec<u32>)
    ensures
        final(out)@ == old(out)@ + header_bytes(f@),
{
    let mut i: usize = 0;
    while i < f.len()
        invariant
            i <= f@.len(),
            out@ == old(out)@ + header_bytes(f@.take(i as int)),
        decreases f@.len() - i,
    {
        push_le(out, f[i]);
        assert(f@.take(i + 1).drop_last() == f@.take(i as int));
        i += 1;
    }
    assert(f@.take(f@.len() as int) == f@);
}

fn read_freqs(input: &[u8]) -> (r: (Vec<u32>, u64))
    requires
        input@.len() >= 1024,
    ensures
        r.0@ == parse_freqs(input@),
        r.1 == total(parse_freqs(input@)),
{
    let mut f: Vec<u32> = Vec::new();
    let mut sum: u64 = 0;
    let mut i: usize = 0;
    while i < 256
        invariant
            i <= 256,
            input@.len() >= 1024,
            f@ == parse_freqs(input@).take(i as int),
            sum == total(f@),
            sum <= i * 0xffff_ffff,
        decreases 256 - i,
    {
        let v = read_le(input, 4 * i);
        f.push(v);
        assert(f@.drop_last() == parse_freqs(input@).take(i as int));
        sum = sum + v as u64;
        i += 1;
        assert(f@ == parse_freqs(input@).take(i as int));
    }
    assert(parse_freqs(input@).take(256) == parse_freqs(input@));
    (f, sum)
}

/// Node `a` leaves the queue before node `b`: lower frequency first, and among
/// equal frequencies the node made earlier.
pub open spec fn precedes(nodes: Seq<Node>, a: usize, b: usize) -> bool {
    nodes[a as int].freq < nodes[b as int].freq || (nodes[a as int].freq == nodes[b as int].freq
        && a < b)
}

/// The position, among the first `n` queue entries, of the one that leaves first.
pub open spec fn first_pos(nodes: Seq<Node>, act: Seq<usize>, n: int) -> int
    decreases n,
{
    if n <= 1 {
        0
    } else {
        let b = first_pos(nodes, act, n - 1);
        if precedes(nodes, act[n - 1], act[b]) {
            n - 1
        } else {
            b
        }
    }
}

/// The 256 leaves, one per byte value.
pub open spec fn leaves(f: Seq<u32>) -> Seq<Node> {
    Seq::new(
        256,
        |i: int| Node { leaf: true, input: i as u8, freq: f[i], left: None, right: None },
    )
}

/// The queue at the start: every leaf.
pub open spec fn all_leaves() -> Seq<usize> {
    Seq::new(256, |i: int| i as usize)
}

/// One merge: the two nodes that leave the queue first become the children of
/// a new node, which joins the queue.
pub open spec fn merge_step(nodes: Seq<Node>, act: Seq<usize>) -> (Seq<Node>, Seq<usize>) {
    let p1 = first_pos(nodes, act, act.len() as int);
    let a = act[p1];
    let act1 = act.remove(p1);
    let p2 = first_pos(nodes, act1, act1.len() as int);
    let b = act1[p2];
    let act2 = act1.remove(p2);
    let parent = Node {
        leaf: false,
        input: 0,
        freq: nodes[a as int].freq.saturating_add(nodes[b as int].freq),
        left: Some(a),
        right: Some(b),
    };
    (nodes.push(parent), act2.push(nodes.len() as usize))
}

/// Merges until one node is left in the queue, or `fuel` runs out.
pub open spec fn build(nodes: Seq<Node>, act: Seq<usize>, fuel: nat) -> (Seq<Node>, Seq<usize>)
    decreases fuel,
{
    if fuel == 0 || act.len() <= 1 {
        (nodes, act)
    } else {
        let (n2, a2) = merge_step(nodes, act);
        build(n2, a2, (fuel - 1) as nat)
    }
}

/// The code tree of a frequency table: its arena and its root.
#[verifier::opaque]
pub open spec fn tree_of(f: Seq<u32>) -> (Seq<Node>, usize) {
    let (nodes, act) = build(leaves(f), all_leaves(), 255);
    (nodes, act[0])
}

pub(crate) proof fn lemma_first_pos_range(nodes: Seq<Node>, act: Seq<usize>, n: int)
    requires
        1 <= n,
    ensures
        0 <= first_pos(nodes, act, n) < n,
    decreases n,
{
    if n > 1 {
        lemma_first_pos_range(nodes, act, n - 1);
    }
}

/// Takes out of the queue the node that leaves first.
fn pop_first(nodes: &Vec<Node>, act: &mut Vec<usize>) -> (r: usize)
    requires
        old(act)@.len() >= 1,
        forall|k: int| 0 <= k < old(act)@.len() ==> old(act)@[k] < nodes@.len(),
    ensures
        ({
            let p = first_pos(nodes@, old(act)@, old(act)@.len() as int);
            &&& r == old(act)@[p]
            &&& final(act)@ == old(act)@.remove(p)
        }),
{
    let mut best: usize = 0;
    let mut i: usize = 1;
    while i < act.len()
        invariant
            1 <= i <= act@.len(),
            forall|k: int| 0 <= k < act@.len() ==> act@[k] < nodes@.len(),
            best == first_pos(nodes@, act@, i as int),
        decreases act@.len() - i,
    {
        proof {
            lemma_first_pos_range(nodes@, act@, i as int);
        }
        let a = act[i];
        let b = act[best];
        if nodes[a].freq < nodes[b].freq || (nodes[a].freq == nodes[b].freq && a < b) {
            best = i;
        }
        i += 1;
    }
    proof {
        lemma_first_pos_range(nodes@, act@, act@.len() as int);
    }
    act.remove(best)
}

/// Builds the code tree of the frequency table `f`: the arena and its root.
pub fn create_tree(f: &Vec<u32>) -> (r: (Vec<Node>, usize))
    requires
        f@.len() == 256,
    ensures
        (r.0@, r.1) == tree_of(f@),
        r.0@.len() == 511,
        r.1 < 511,
{
    let mut nodes: Vec<Node> = Vec::new();
    let mut act: Vec<usize> = Vec::new();
    let mut i: usize = 0;
    while i < 256
        invariant
            i <= 256,
            f@.len() == 256,
            nodes@ == leaves(f@).take(i as int),
            act@ == all_leaves().take(i as int),
        decreases 256 - i,
    {
        let mut n = Node::new();
        n.leaf = true;
        n.input = i as u8;
        n.freq = f[i];
        nodes.push(n);
        act.push(i);
        i += 1;
        assert(nodes@ == leaves(f@).take(i as int));
        assert(act@ == all_leaves().take(i as int));
    }
    assert(nodes@ == leaves(f@));
    assert(act@ == all_leaves());
    while act.len() > 1
        invariant
            1 <= act@.len() <= 256,
            nodes@.len() == 512 - act@.len(),
            forall|k: int| 0 <= k < act@.len() ==> act@[k] < nodes@.len(),
            build(nodes@, act@, (act@.len() - 1) as nat) == build(leaves(f@), all_leaves(), 255),
        decreases act@.len(),
    {
        let ghost n0 = nodes@;
        let ghost a0 = act@;
        proof {
            lemma_first_pos_range(n0, a0, a0.len() as int);
        }
        let a = pop_first(&nodes, &mut act);
        let ghost a1 = act@;
        proof {
            let p = first_pos(n0, a0, a0.len() as int);
            assert forall|k: int| 0 <= k < a1.len() implies a1[k] < nodes@.len() by {
                if k < p {
                    assert(a1[k] == a0[k]);
                } else {
                    assert(a1[k] == a0[k + 1]);
                }
            }
            lemma_first_pos_range(n0, a1, a1.len() as int);
        }
        let b = pop_first(&nodes, &mut act);
        proof {
            let p = first_pos(n0, a1, a1.len() as int);
            assert forall|k: int| 0 <= k < act@.len() implies act@[k] < nodes@.len() by {
                if k < p {
                    assert(act@[k] == a1[k]);
                } else {
                    assert(act@[k] == a1[k + 1]);
                }
            }
        }
        let parent = Node {
            leaf: false,
            input: 0,
            freq: nodes[a].freq.saturating_add(nodes[b].freq),
            left: Some(a),
            right: Some(b),
        };
        let id = nodes.len();
        nodes.push(parent);
        act.push(id);
        proof {
            assert((nodes@, act@) == merge_step(n0, a0));
        }
    }
    let root = act[0];
    proof {
        reveal(tree_of);
    }
    (nodes, root)
}

/// The codes after the `k` highest nodes of the arena have handed theirs on to
/// their children: a left child gets its parent's code and a 0, a right one a 1.
pub open spec fn codes_after(nodes: Seq<Node>, k: nat) -> Seq<Seq<bool>>
    decreases k,
{
    if k == 0 {
        Seq::new(nodes.len(), |i: int| Seq::<bool>::empty())
    } else {
        let c = codes_after(nodes, (k - 1) as nat);
        let p = nodes.len() - k;
        if 0 <= p < nodes.len() && !nodes[p].leaf && nodes[p].left is Some && nodes[p].right
            is Some && nodes[p].left->Some_0 < nodes.len() && nodes[p].right->Some_0
            < nodes.len() {
            c.update(nodes[p].left->Some_0 as int, c[p].push(false)).update(
                nodes[p].right->Some_0 as int,
                c[p].push(true),
            )
        } else {
            c
        }
    }
}

/// The code of every node, read from the last node of the arena down.
#[verifier::opaque]
pub open spec fn codes_of(nodes: Seq<Node>) -> Seq<Seq<bool>> {
    codes_after(nodes, nodes.len())
}

proof fn lemma_codes_len(nodes: Seq<Node>, k: nat)
    ensures
        codes_after(nodes, k).len() == nodes.len(),
    decreases k,
{
    if k > 0 {
        lemma_codes_len(nodes, (k - 1) as nat);
    }
}

fn copy_bits(v: &Vec<bool>) -> (r: Vec<bool>)
    ensures
        r@ == v@,
{
    let mut r: Vec<bool> = Vec::new();
    let mut i: usize = 0;
    while i < v.len()
        invariant
            i <= v@.len(),
            r@ == v@.take(i as int),
        decreases v@.len() - i,
    {
        r.push(v[i]);
        i += 1;
        assert(r@ == v@.take(i as int));
    }
    assert(v@.take(v@.len() as int) == v@);
    r
}

/// The code of every node of the arena.
fn assign_codes(nodes: &Vec<Node>) -> (codes: Vec<Vec<bool>>)
    ensures
        codes@.len() == nodes@.len(),
        forall|i: int| 0 <= i < nodes@.len() ==> (#[trigger] codes@[i])@ == codes_of(nodes@)[i],
{
    let n = nodes.len();
    let mut codes: Vec<Vec<bool>> = Vec::new();
    let mut i: usize = 0;
    while i < n
        invariant
            n == nodes@.len(),
            i <= n,
            codes@.len() == i,
            forall|j: int| 0 <= j < i ==> (#[trigger] codes@[j])@ == Seq::<bool>::empty(),
        decreases n - i,
    {
        codes.push(Vec::new());
        i += 1;
    }
    let mut k: usize = 0;
    while k < n
        invariant
            n == nodes@.len(),
            k <= n,
            codes@.len() == n,
            forall|j: int|
                0 <= j < n ==> (#[trigger] codes@[j])@ == codes_after(nodes@, k as nat)[j],
        decreases n - k,
    {
        proof {
            lemma_codes_len(nodes@, k as nat);
            lemma_codes_len(nodes@, (k + 1) as nat);
        }
        let p = n - 1 - k;
        let node = nodes[p];
        if !node.leaf {
            match (node.left, node.right) {
                (Some(l), Some(r)) => {
                    if l < n && r < n {
                        let mut cl = copy_bits(&codes[p]);
                        let mut cr = copy_bits(&codes[p]);
                        cl.push(false);
                        cr.push(true);
                        codes.set(l, cl);
                        codes.set(r, cr);
                    }
                },
                _ => {},
            }
        }
        k += 1;
    }
    proof {
        reveal(codes_of);
    }
    codes
}

/// The value of a sequence of bits, most significant first.
pub open spec fn bits_value(s: Seq<bool>) -> nat
    decreases s.len(),
{
    if s.len() == 0 {
        0
    } else {
        2 * bits_value(s.drop_last()) + if s.last() {
            1nat
        } else {
            0nat
        }
    }
}

proof fn lemma_bits_value_bound(s: Seq<bool>)
    ensures
        bits_value(s) < pow2(s.len()),
    decreases s.len(),
{
    if s.len() > 0 {
        lemma_bits_value_bound(s.drop_last());
    }
}

/// The whole bytes of a bit sequence, eight bits each, most significant first.
pub open spec fn full_bytes(bits: Seq<bool>) -> Seq<u8> {
    Seq::new(bits.len() / 8, |q: int| bits_value(bits.subrange(8 * q, 8 * q + 8)) as u8)
}

/// A bit sequence with zeros added to fill its last byte.
pub open spec fn padded(bits: Seq<bool>) -> Seq<bool> {
    let pad = if bits.len() % 8 == 0 {
        0
    } else {
        8 - bits.len() % 8
    };
    bits + Seq::new(pad as nat, |i: int| false)
}

/// Bits packed into bytes, most significant first, the last byte zero-filled.
pub open spec fn pack(bits: Seq<bool>) -> Seq<u8> {
    full_bytes(padded(bits))
}

/// The codes of the bytes of `x`, one after the other.
pub open spec fn code_stream(codes: Seq<Seq<bool>>, x: Seq<u8>) -> Seq<bool>
    decreases x.len(),
{
    if x.len() == 0 {
        seq![]
    } else {
        code_stream(codes, x.drop_last()) + codes[x.last() as int]
    }
}

/// Appends bits to a byte vector, most significant first.
struct BitWriter {
    out: Vec<u8>,
    next: u8,
    filled: usize,
    head: Ghost<Seq<u8>>,
    bits: Ghost<Seq<bool>>,
}

impl BitWriter {
    spec fn inv(&self) -> bool {
        let n = self.bits@.len() as int;
        &&& self.out@ == self.head@ + full_bytes(self.bits@)
        &&& self.filled == n % 8
        &&& self.next as nat == bits_value(self.bits@.subrange(8 * (n / 8), n))
    }

    fn push_bit(&mut self, b: bool)
        requires
            old(self).inv(),
        ensures
            final(self).inv(),
            final(self).head@ == old(self).head@,
            final(self).bits@ == old(self).bits@.push(b),
    {
        let ghost old_bits = self.bits@;
        let ghost n = old_bits.len() as int;
        let ghost nb = old_bits.push(b);
        let ghost part = old_bits.subrange(8 * (n / 8), n as int);
        let ghost npart = nb.subrange(8 * (n / 8), n + 1);
        proof {
            assert(npart.drop_last() == part);
            lemma_bits_value_bound(part);
            lemma_pow2_mono(part.len(), 7);
            assert(pow2(7) == 128) by {
                reveal_with_fuel(pow2, 8);
            }
        }
        let v: u8 = if b {
            2 * self.next + 1
        } else {
            2 * self.next
        };
        self.bits = Ghost(nb);
        if self.filled == 7 {
            self.out.push(v);
            self.next = 0;
            self.filled = 0;
            proof {
                assert(full_bytes(nb) =~= full_bytes(old_bits).push(v)) by {
                    assert forall|q: int| 0 <= q < n / 8 implies #[trigger] nb.subrange(
                        8 * q,
                        8 * q + 8,
                    ) == old_bits.subrange(8 * q, 8 * q + 8) by {}
                }
                assert(nb.subrange(8 * ((n + 1) / 8), n + 1) =~= Seq::<bool>::empty());
            }
        } else {
            self.next = v;
            self.filled = self.filled + 1;
            proof {
                assert(full_bytes(nb) =~= full_bytes(old_bits)) by {
                    assert forall|q: int| 0 <= q < n / 8 implies #[trigger] nb.subrange(
                        8 * q,
                        8 * q + 8,
                    ) == old_bits.subrange(8 * q, 8 * q + 8) by {}
                }
            }
        }
    }
}

/// The Huffman encoding of `x`: the frequency header, then the code of each
/// byte, packed.
pub open spec fn huffman_encode(x: Seq<u8>) -> Seq<u8> {
    let f = freqs_of(x);
    header_bytes(f) + pack(code_stream(codes_of(tree_of(f).0), x))
}

impl Huffman {
    /// Huffman encoding of `input`.
    pub fn encode_bytes(input: &[u8]) -> (r: Vec<u8>)
        ensures
            r@ == huffman_encode(input@),
    {
        let f = count_freqs(input);
        let mut out: Vec<u8> = Vec::new();
        push_header(&mut out, &f);
        let (nodes, _root) = create_tree(&f);
        let codes = assign_codes(&nodes);
        let ghost cs = codes_of(nodes@);
        let mut w = BitWriter {
            out,
            next: 0,
            filled: 0,
            head: Ghost(header_bytes(f@)),
            bits: Ghost(Seq::empty()),
        };
        assert(full_bytes(Seq::<bool>::empty()) =~= Seq::<u8>::empty());
        assert(Seq::<bool>::empty().subrange(0, 0) =~= Seq::<bool>::empty());
        let n = input.len();
        let mut i: usize = 0;
        while i < n
            invariant
                n == input@.len(),
                i <= n,
                codes@.len() == 511,
                forall|k: int| 0 <= k < 511 ==> (#[trigger] codes@[k])@ == cs[k],
                w.inv(),
                w.head@ == header_bytes(f@),
                w.bits@ == code_stream(cs, input@.take(i as int)),
            decreases n - i,
        {
            let code = &codes[input[i] as usize];
            let mut j: usize = 0;
            while j < code.len()
                invariant
                    j <= code@.len(),
                    w.inv(),
                    w.head@ == header_bytes(f@),
                    w.bits@ == code_stream(cs, input@.take(i as int)) + code@.take(j as int),
                decreases code@.len() - j,
            {
                w.push_bit(code[j]);
                assert(code@.take(j + 1) == code@.take(j as int).push(code@[j as int]));
                j += 1;
            }
            proof {
                assert(code@.take(code@.len() as int) == code@);
                assert(input@.take(i + 1).drop_last() == input@.take(i as int));
            }
            i += 1;
        }
        assert(input@.take(n as int) == input@);
        let ghost stream = w.bits@;
        let ghost m: int = 0;
        assert(stream + Seq::new(0, |k: int| false) == stream);
        while w.filled != 0
            invariant
                w.inv(),
                w.head@ == header_bytes(f@),
                0 <= m < 8,
                w.bits@ == stream + Seq::new(m as nat, |k: int| false),
                m == 0 || stream.len() % 8 != 0,
                m + stream.len() % 8 <= 8,
            decreases 8 - m,
        {
            w.push_bit(false);
            proof {
                assert(Seq::new((m + 1) as nat, |k: int| false) == Seq::new(m as nat, |k: int| false).push(false));
                m = m + 1;
            }
        }
        assert(w.bits@ == padded(stream));
        w.out
    }
}

/// The child of node `cur` that bit `bit` leads to: the right one for a 1.
pub open spec fn child(nodes: Seq<Node>, cur: int, bit: bool) -> Option<int> {
    if 0 <= cur < nodes.len() {
        let c = if bit {
            nodes[cur].right
        } else {
            nodes[cur].left
        };
        match c {
            Some(i) => if i < nodes.len() {
                Some(i as int)
            } else {
                None
            },
            None => None,
        }
    } else {
        None
    }
}

/// Bit `j` of a byte sequence, most significant bit of each byte first.
pub open spec fn bit_at(p: Seq<u8>, j: int) -> bool {
    (p[j / 8] >> ((7 - j % 8) as u8)) & 1u8 == 1u8
}

/// The bits of a byte sequence, most significant bit of each byte first.
pub open spec fn payload_bits(p: Seq<u8>) -> Seq<bool> {
    Seq::new(8 * p.len(), |j: int| bit_at(p, j))
}

/// `out` followed by the result, if there is one.
pub open spec fn prefixed(out: Seq<u8>, r: Option<Seq<u8>>) -> Option<Seq<u8>> {
    match r {
        Some(s) => Some(out + s),
        None => None,
    }
}

/// Decodes `count` more bytes by walking the tree from `cur` along `bits`,
/// back to `root` after each leaf.
pub open spec fn walk_decode(
    nodes: Seq<Node>,
    root: int,
    cur: int,
    bits: Seq<bool>,
    count: nat,
) -> Option<Seq<u8>>
    decreases bits.len(),
{
    if count == 0 {
        Some(seq![])
    } else if bits.len() == 0 {
        None
    } else {
        match child(nodes, cur, bits[0]) {
            None => None,
            Some(c) => if nodes[c].leaf {
                prefixed(
                    seq![nodes[c].input],
                    walk_decode(nodes, root, root, bits.drop_first(), (count - 1) as nat),
                )
            } else {
                walk_decode(nodes, root, c, bits.drop_first(), count)
            },
        }
    }
}

/// What decoding `input` gives: the frequency header, then as many bytes as
/// the frequencies add up to, read from the bits that follow it.
pub open spec fn huffman_decode(input: Seq<u8>) -> Result<Seq<u8>, CodecError> {
    if input.len() < 1024 {
        Err(CodecError::MalformedInput)
    } else {
        let f = parse_freqs(input);
        let (nodes, root) = tree_of(f);
        match walk_decode(
            nodes,
            root as int,
            root as int,
            payload_bits(input.subrange(1024, input.len() as int)),
            total(f),
        ) {
            Some(s) => Ok(s),
            None => Err(CodecError::MalformedInput),
        }
    }
}

impl Huffman {
    /// Huffman decoding of `input`.
    pub fn decode_bytes(input: &[u8]) -> (r: Result<Vec<u8>, CodecError>)
        ensures
            result_view(r) == huffman_decode(input@),
    {
        if input.len() < 1024 {
            return Err(CodecError::MalformedInput);
        }
        let (f, sum) = read_freqs(input);
        let (nodes, root) = create_tree(&f);
        let mut out: Vec<u8> = Vec::new();
        let mut count: u64 = sum;
        if count == 0 {
            return Ok(out);
        }
        let ghost payload = input@.subrange(1024, input@.len() as int);
        let ghost bits = payload_bits(payload);
        let ghost target = walk_decode(nodes@, root as int, root as int, bits, sum as nat);
        let n = input.len();
        let m = n - 1024;
        let mut cur: usize = root;
        assert(huffman_decode(input@) == match target {
            Some(s) => Ok(s),
            None => Err(CodecError::MalformedInput),
        });
        let mut i: usize = 0;
        assert(bits.subrange(0, bits.len() as int) == bits);
        while i < m
            invariant
                m == payload.len(),
                n == input@.len(),
                m == n - 1024,
                huffman_decode(input@) == match target {
                    Some(s) => Ok(s),
                    None => Err(CodecError::MalformedInput),
                },
                payload == input@.subrange(1024, input@.len() as int),
                bits == payload_bits(payload),
                i <= m,
                nodes@.len() == 511,
                root < 511,
                cur < 511,
                count > 0,
                target == walk_decode(nodes@, root as int, root as int, bits, sum as nat),
                target == prefixed(
                    out@,
                    walk_decode(
                        nodes@,
                        root as int,
                        cur as int,
                        bits.subrange(8 * i, bits.len() as int),
                        count as nat,
                    ),
                ),
            decreases m - i,
        {
            let v = input[1024 + i];
            let mut k: usize = 0;
            while k < 8
                invariant
                    m == payload.len(),
                    bits == payload_bits(payload),
                    i < m,
                    k <= 8,
                    huffman_decode(input@) == match target {
                        Some(s) => Ok(s),
                        None => Err(CodecError::MalformedInput),
                    },
                    v == payload[i as int],
                    nodes@.len() == 511,
                    root < 511,
                    cur < 511,
                    count > 0,
                    target == prefixed(
                        out@,
                        walk_decode(
                            nodes@,
                            root as int,
                            cur as int,
                            bits.subrange(8 * i + k, bits.len() as int),
                            count as nat,
                        ),
                    ),
                decreases 8 - k,
            {
                let bit = (v >> ((7 - k) as u8)) & 1u8 == 1u8;
                let ghost j = 8 * i + k;
                let ghost rest = bits.subrange(j, bits.len() as int);
                proof {
                    assert(j / 8 == i as int);
                    assert(j % 8 == k as int);
                    assert(rest[0] == bit);
                    assert(rest.drop_first() == bits.subrange(j + 1, bits.len() as int));
                }
                let node = nodes[cur];
                let next = if bit {
                    node.right
                } else {
                    node.left
                };
                let c = match next {
                    Some(c) => c,
                    None => {
                        assert(child(nodes@, cur as int, bit) is None);
                        return Err(CodecError::MalformedInput);
                    },
                };
                if c >= nodes.len() {
                    assert(child(nodes@, cur as int, bit) is None);
                    return Err(CodecError::MalformedInput);
                }
                let ghost w = walk_decode(
                    nodes@,
                    root as int,
                    root as int,
                    rest.drop_first(),
                    (count - 1) as nat,
                );
                assert(child(nodes@, cur as int, bit) == Some(c as int));
                if nodes[c].leaf {
                    let ghost o = out@;
                    out.push(nodes[c].input);
                    proof {
                        assert(target == prefixed(o, prefixed(seq![nodes@[c as int].input], w)));
                        if let Some(t) = w {
                            assert(o + (seq![nodes@[c as int].input] + t) =~= out@ + t);
                        }
                    }
                    count = count - 1;
                    if count == 0 {
                        assert(w == Some(Seq::<u8>::empty()));
                        assert(out@ + Seq::<u8>::empty() =~= out@);
                        return Ok(out);
                    }
                    cur = root;
                } else {
                    cur = c;
                }
                k += 1;
            }
            i += 1;
        }
        assert(bits.subrange(8 * m, bits.len() as int) =~= Seq::<bool>::empty());
        Err(CodecError::MalformedInput)
    }
}

pub(crate) proof fn lemma_header_layout(f: Seq<u32>)
    ensures
        header_bytes(f).len() == 4 * f.len(),
        forall|i: int|
            0 <= i < f.len() ==> #[trigger] header_bytes(f).subrange(4 * i, 4 * i + 4)
                == le_bytes(f[i]),
    decreases f.len(),
{
    if f.len() > 0 {
        let g = f.drop_last();
        lemma_header_layout(g);
        let h = header_bytes(f);
        assert forall|i: int| 0 <= i < f.len() implies #[trigger] h.subrange(4 * i, 4 * i + 4)
            == le_bytes(f[i]) by {
            if i < g.len() {
                assert(h.subrange(4 * i, 4 * i + 4) == header_bytes(g).subrange(4 * i, 4 * i + 4));
                assert(g[i] == f[i]);
            } else {
                assert(h.subrange(4 * i, 4 * i + 4) == le_bytes(f.last()));
            }
        }
    }
}

pub(crate) proof fn lemma_parse_header(f: Seq<u32>, rest: Seq<u8>)
    requires
        f.len() == 256,
    ensures
        parse_freqs(header_bytes(f) + rest) == f,
{
    lemma_header_layout(f);
    let s = header_bytes(f) + rest;
    assert forall|i: int| 0 <= i < 256 implies #[trigger] parse_freqs(s)[i] == f[i] by {
        assert(s.subrange(4 * i, 4 * i + 4) == header_bytes(f).subrange(4 * i, 4 * i + 4));
        crate::bytes::lemma_le_round_trip(f[i], s, 4 * i);
    }
    assert(parse_freqs(s) =~= f);
}

/// The encoding starts with the 256 frequencies of the input, four
/// little-endian bytes each, saturated at `u32::MAX`; reading them back gives
/// the same table.
pub proof fn lemma_huffman_header(x: Seq<u8>)
    ensures
        huffman_encode(x).len() >= 1024,
        forall|b: int|
            0 <= b < 256 ==> #[trigger] huffman_encode(x).subrange(4 * b, 4 * b + 4) == le_bytes(
                if count(x, b as u8) > u32::MAX {
                    u32::MAX
                } else {
                    count(x, b as u8) as u32
                },
            ),
        parse_freqs(huffman_encode(x)) == freqs_of(x),
{
    let f = freqs_of(x);
    let e = huffman_encode(x);
    let rest = pack(code_stream(codes_of(tree_of(f).0), x));
    lemma_header_layout(f);
    lemma_parse_header(f, rest);
    assert forall|b: int| 0 <= b < 256 implies #[trigger] e.subrange(4 * b, 4 * b + 4)
        == le_bytes(f[b]) by {
        assert(e.subrange(4 * b, 4 * b + 4) == header_bytes(f).subrange(4 * b, 4 * b + 4));
    }
}

/// Encoding is a function of the input: two encodings of one input are equal.
pub proof fn lemma_huffman_deterministic(x: Seq<u8>, y1: Seq<u8>, y2: Seq<u8>)
    requires
        (Huffman {  }).encodes(x, y1),
        (Huffman {  }).encodes(x, y2),
    ensures
        y1 == y2,
{
}

pub(crate) proof fn lemma_total_zero(f: Seq<u32>)
    requires
        forall|i: int| 0 <= i < f.len() ==> f[i] == 0,
    ensures
        total(f) == 0,
    decreases f.len(),
{
    if f.len() > 0 {
        lemma_total_zero(f.drop_last());
    }
}

proof fn lemma_header_zero(f: Seq<u32>)
    requires
        forall|i: int| 0 <= i < f.len() ==> f[i] == 0,
    ensures
        header_bytes(f) == Seq::new(4 * f.len(), |i: int| 0u8),
    decreases f.len(),
{
    if f.len() > 0 {
        lemma_header_zero(f.drop_last());
        assert(le_bytes(0) == seq![0u8, 0u8, 0u8, 0u8]);
        assert(header_bytes(f) =~= Seq::new(4 * f.len(), |i: int| 0u8));
    } else {
        assert(header_bytes(f) =~= Seq::new(4 * f.len(), |i: int| 0u8));
    }
}

proof fn lemma_empty_encode()
    ensures
        huffman_encode(Seq::empty()) == Seq::new(1024, |i: int| 0u8),
{
    let x = Seq::<u8>::empty();
    let f = freqs_of(x);
    assert forall|b: int| 0 <= b < 256 implies f[b] == 0 by {}
    let stream = code_stream(codes_of(tree_of(f).0), x);
    assert(stream == Seq::<bool>::empty());
    assert(padded(stream) =~= Seq::<bool>::empty());
    assert(pack(stream) =~= Seq::<u8>::empty());
    lemma_header_zero(f);
    assert(huffman_encode(x) =~= Seq::new(1024, |i: int| 0u8));
}

proof fn lemma_zero_header_decode()
    ensures
        huffman_decode(Seq::new(1024, |i: int| 0u8)) == Ok::<Seq<u8>, CodecError>(Seq::empty()),
{
    let z = Seq::new(1024, |i: int| 0u8);
    let f = parse_freqs(z);
    assert forall|i: int| 0 <= i < f.len() implies f[i] == 0 by {}
    lemma_total_zero(f);
}

/// The empty input encodes to a header of zeros alone, which decodes to the
/// empty sequence.
pub proof fn lemma_huffman_empty()
    ensures
        huffman_encode(Seq::empty()) == Seq::new(1024, |i: int| 0u8),
        huffman_decode(huffman_encode(Seq::empty())) == Ok::<Seq<u8>, CodecError>(Seq::empty()),
{
    lemma_empty_encode();
    lemma_zero_header_decode();
}

impl Coder for Huffman {
    open spec fn standard() -> Self {
        Huffman {  }
    }

    open spec fn encodes(&self, input: Seq<u8>, output: Seq<u8>) -> bool {
        output == huffman_encode(input)
    }

    open spec fn decodes(&self, input: Seq<u8>, r: Result<Seq<u8>, CodecError>) -> bool {
        r == huffman_decode(input)
    }

    fn encode(input: &[u8]) -> (r: Result<Vec<u8>, CodecError>) {
        Ok(Huffman::encode_bytes(input))
    }

    fn decode(input: &[u8]) -> (r: Result<Vec<u8>, CodecError>) {
        Huffman::decode_bytes(input)
    }

    fn encode_s(&self, input: &[u8]) -> (r: Result<Vec<u8>, CodecError>) {
        Ok(Huffman::encode_bytes(input))
    }

    fn decode_s(&self, input: &[u8]) -> (r: Result<Vec<u8>, CodecError>) {
        Huffman::decode_bytes(input)
    }
}

} // verus!
