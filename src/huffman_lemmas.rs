use vstd::prelude::*;

use crate::bwt::lists;
use crate::huffman::{
    all_leaves,
    bits_value,
    build,
    child,
    codes_after,
    codes_of,
    code_stream,
    count,
    first_pos,
    freqs_of,
    huffman_decode,
    huffman_encode,
    leaves,
    lemma_header_layout,
    lemma_parse_header,
    lemma_total_zero,
    lemma_first_pos_range,
    merge_step,
    pack,
    padded,
    payload_bits,
    prefixed,
    total,
    tree_of,
    walk_decode,
    Huffman,
    Node,
};
use crate::coder::{CodecError, Coder};
use crate::movetofront::{lemma_mtf_round_trip, mtf_decode, mtf_encode};

verus! {

proof fn lemma_shift_bits(v: u8)
    ensures
        (v >> 7u8) & 1u8 == (v / 128u8) % 2u8,
        (v >> 6u8) & 1u8 == (v / 64u8) % 2u8,
        (v >> 5u8) & 1u8 == (v / 32u8) % 2u8,
        (v >> 4u8) & 1u8 == (v / 16u8) % 2u8,
        (v >> 3u8) & 1u8 == (v / 8u8) % 2u8,
        (v >> 2u8) & 1u8 == (v / 4u8) % 2u8,
        (v >> 1u8) & 1u8 == (v / 2u8) % 2u8,
        (v >> 0u8) & 1u8 == v % 2u8,
{
    assert((v >> 7u8) & 1u8 == (v / 128u8) % 2u8) by (bit_vector);
    assert((v >> 6u8) & 1u8 == (v / 64u8) % 2u8) by (bit_vector);
    assert((v >> 5u8) & 1u8 == (v / 32u8) % 2u8) by (bit_vector);
    assert((v >> 4u8) & 1u8 == (v / 16u8) % 2u8) by (bit_vector);
    assert((v >> 3u8) & 1u8 == (v / 8u8) % 2u8) by (bit_vector);
    assert((v >> 2u8) & 1u8 == (v / 4u8) % 2u8) by (bit_vector);
    assert((v >> 1u8) & 1u8 == (v / 2u8) % 2u8) by (bit_vector);
    assert((v >> 0u8) & 1u8 == v % 2u8) by (bit_vector);
}

spec fn bit(b: bool) -> int {
    if b {
        1
    } else {
        0
    }
}

proof fn lemma_bits_value_8(s: Seq<bool>)
    requires
        s.len() == 8,
    ensures
        bits_value(s) == 128 * bit(s[0]) + 64 * bit(s[1]) + 32 * bit(s[2]) + 16 * bit(s[3]) + 8
            * bit(s[4]) + 4 * bit(s[5]) + 2 * bit(s[6]) + bit(s[7]),
{
    reveal_with_fuel(bits_value, 9);
    let s7 = s.drop_last();
    let s6 = s7.drop_last();
    let s5 = s6.drop_last();
    let s4 = s5.drop_last();
    let s3 = s4.drop_last();
    let s2 = s3.drop_last();
    let s1 = s2.drop_last();
    let s0 = s1.drop_last();
    assert(s0.len() == 0);
    assert(s1.last() == s[0]);
    assert(s2.last() == s[1]);
    assert(s3.last() == s[2]);
    assert(s4.last() == s[3]);
    assert(s5.last() == s[4]);
    assert(s6.last() == s[5]);
    assert(s7.last() == s[6]);
}

/// Bit `k` of a byte, most significant first, is bit `k` of the eight bits it
/// was packed from.
proof fn lemma_byte_bit(s: Seq<bool>, k: int)
    requires
        s.len() == 8,
        0 <= k < 8,
    ensures
        ((bits_value(s) as u8 >> ((7 - k) as u8)) & 1u8 == 1u8) == s[k],
{
    lemma_bits_value_8(s);
    let v = bits_value(s) as u8;
    assert(bits_value(s) < 256);
    assert(v as int == bits_value(s));
    lemma_shift_bits(v);
    let t0 = bit(s[0]);
    let t1 = bit(s[1]);
    let t2 = bit(s[2]);
    let t3 = bit(s[3]);
    let t4 = bit(s[4]);
    let t5 = bit(s[5]);
    let t6 = bit(s[6]);
    let t7 = bit(s[7]);
    let w = v as int;
    if k == 0 {
        assert(w / 128 == t0);
    } else if k == 1 {
        assert(w / 64 == 2 * t0 + t1);
    } else if k == 2 {
        assert(w / 32 == 4 * t0 + 2 * t1 + t2);
    } else if k == 3 {
        assert(w / 16 == 8 * t0 + 4 * t1 + 2 * t2 + t3);
    } else if k == 4 {
        assert(w / 8 == 16 * t0 + 8 * t1 + 4 * t2 + 2 * t3 + t4);
    } else if k == 5 {
        assert(w / 4 == 32 * t0 + 16 * t1 + 8 * t2 + 4 * t3 + 2 * t4 + t5);
    } else if k == 6 {
        assert(w / 2 == 64 * t0 + 32 * t1 + 16 * t2 + 8 * t3 + 4 * t4 + 2 * t5 + t6);
    } else {
        assert(w % 2 == t7);
    }
}

/// Unpacking the packed bits gives them back, with the zeros that filled the
/// last byte.
proof fn lemma_unpack(bits: Seq<bool>)
    ensures
        payload_bits(pack(bits)) == padded(bits),
{
    let p = padded(bits);
    assert(p.len() % 8 == 0);
    let pb = pack(bits);
    assert(pb.len() == p.len() / 8);
    assert forall|j: int| 0 <= j < p.len() implies #[trigger] payload_bits(pb)[j] == p[j] by {
        let q = j / 8;
        let k = j % 8;
        let s = p.subrange(8 * q, 8 * q + 8);
        lemma_byte_bit(s, k);
        assert(pb[q] == bits_value(s) as u8);
        assert(s[k] == p[j]);
    }
    assert(payload_bits(pb) =~= p);
}

proof fn lemma_count_bound(x: Seq<u8>, b: u8)
    ensures
        count(x, b) <= x.len(),
    decreases x.len(),
{
    if x.len() > 0 {
        lemma_count_bound(x.drop_last(), b);
    }
}

proof fn lemma_total_bump(f: Seq<u32>, i: int)
    requires
        0 <= i < f.len(),
        f[i] < u32::MAX,
    ensures
        total(f.update(i, (f[i] + 1) as u32)) == total(f) + 1,
    decreases f.len(),
{
    let g = f.update(i, (f[i] + 1) as u32);
    if i == f.len() - 1 {
        assert(g.drop_last() == f.drop_last());
    } else {
        lemma_total_bump(f.drop_last(), i);
        assert(g.drop_last() == f.drop_last().update(i, (f[i] + 1) as u32));
    }
}

/// Below `2^32` bytes no frequency saturates, and the frequencies add up to
/// the length.
proof fn lemma_total_freqs(x: Seq<u8>)
    requires
        x.len() <= u32::MAX,
    ensures
        total(freqs_of(x)) == x.len(),
    decreases x.len(),
{
    if x.len() == 0 {
        lemma_total_zero(freqs_of(x));
    } else {
        let y = x.drop_last();
        let v = x.last();
        lemma_total_freqs(y);
        lemma_count_bound(y, v);
        let fy = freqs_of(y);
        assert forall|b: int| 0 <= b < 256 implies #[trigger] freqs_of(x)[b] == fy.update(
            v as int,
            (fy[v as int] + 1) as u32,
        )[b] by {
            lemma_count_bound(y, b as u8);
            lemma_count_bound(x, b as u8);
        }
        assert(freqs_of(x) =~= fy.update(v as int, (fy[v as int] + 1) as u32));
        lemma_total_bump(fy, v as int);
    }
}

/// Node `i` is the leaf of byte `i`.
spec fn leaf_of(nodes: Seq<Node>, i: int) -> bool {
    nodes[i].leaf && nodes[i].input == i as u8
}

/// Node `i` joins two earlier nodes.
spec fn joins(nodes: Seq<Node>, i: int) -> bool {
    &&& !nodes[i].leaf
    &&& nodes[i].left is Some
    &&& nodes[i].right is Some
    &&& nodes[i].left->Some_0 < i
    &&& nodes[i].right->Some_0 < i
}

/// Node `j` is a child of a later node.
spec fn has_parent(nodes: Seq<Node>, j: int) -> bool {
    exists|p: int|
        256 <= p < nodes.len() && j < p && (#[trigger] nodes[p].left == Some(j as usize)
            || nodes[p].right == Some(j as usize))
}

/// The shape of the arena and queue while the tree is built.
spec fn tree_shape(nodes: Seq<Node>, act: Seq<usize>) -> bool {
    &&& 1 <= act.len() <= 256
    &&& nodes.len() == 512 - act.len()
    &&& forall|i: int| 0 <= i < 256 ==> #[trigger] leaf_of(nodes, i)
    &&& forall|i: int| 256 <= i < nodes.len() ==> #[trigger] joins(nodes, i)
    &&& forall|k: int| 0 <= k < act.len() ==> #[trigger] act[k] < nodes.len()
    &&& forall|a: int, b: int| 0 <= a < b < act.len() ==> #[trigger] act[a] != #[trigger] act[b]
    &&& forall|j: int| 0 <= j < nodes.len() ==> #[trigger] lists(act, j) || has_parent(nodes, j)
    &&& nodes.len() > 256 ==> act.last() == nodes.len() - 1
}

proof fn lemma_remove_shape(act: Seq<usize>, p: int, bound: int)
    requires
        0 <= p < act.len(),
        forall|k: int| 0 <= k < act.len() ==> #[trigger] act[k] < bound,
        forall|a: int, b: int| 0 <= a < b < act.len() ==> #[trigger] act[a] != #[trigger] act[b],
    ensures
        forall|k: int| 0 <= k < act.remove(p).len() ==> #[trigger] act.remove(p)[k] < bound,
        forall|a: int, b: int|
            0 <= a < b < act.remove(p).len() ==> #[trigger] act.remove(p)[a] != #[trigger] act.remove(
                p,
            )[b],
        forall|j: int| #[trigger] lists(act, j) && j != act[p] ==> lists(act.remove(p), j),
        forall|k: int| 0 <= k < act.remove(p).len() ==> #[trigger] act.remove(p)[k] != act[p],
{
    let r = act.remove(p);
    assert forall|k: int| 0 <= k < r.len() implies #[trigger] r[k] < bound by {
        if k < p {
            assert(r[k] == act[k]);
        } else {
            assert(r[k] == act[k + 1]);
        }
    }
    assert forall|a: int, b: int| 0 <= a < b < r.len() implies #[trigger] r[a] != #[trigger] r[b] by {
        let a2 = if a < p {
            a
        } else {
            a + 1
        };
        let b2 = if b < p {
            b
        } else {
            b + 1
        };
        assert(r[a] == act[a2]);
        assert(r[b] == act[b2]);
    }
    assert forall|j: int| #[trigger] lists(act, j) && j != act[p] implies lists(r, j) by {
        let k = choose|k: int| 0 <= k < act.len() && act[k] == j;
        if k < p {
            assert(r[k] == j);
        } else {
            assert(k != p);
            assert(r[k - 1] == j);
        }
    }
    assert forall|k: int| 0 <= k < r.len() implies #[trigger] r[k] != act[p] by {
        if k < p {
            assert(r[k] == act[k]);
        } else {
            assert(r[k] == act[k + 1]);
        }
    }
}

proof fn lemma_merge_shape(nodes: Seq<Node>, act: Seq<usize>)
    requires
        tree_shape(nodes, act),
        act.len() >= 2,
    ensures
        tree_shape(merge_step(nodes, act).0, merge_step(nodes, act).1),
        merge_step(nodes, act).1.len() == act.len() - 1,
{
    let n = nodes.len() as int;
    let p1 = first_pos(nodes, act, act.len() as int);
    lemma_first_pos_range(nodes, act, act.len() as int);
    let a = act[p1];
    let act1 = act.remove(p1);
    lemma_remove_shape(act, p1, n);
    let p2 = first_pos(nodes, act1, act1.len() as int);
    lemma_first_pos_range(nodes, act1, act1.len() as int);
    let b = act1[p2];
    let act2 = act1.remove(p2);
    lemma_remove_shape(act1, p2, n);
    let (nodes2, act3) = merge_step(nodes, act);
    assert(nodes2 == nodes.push(nodes2[n]));
    assert(act3 == act2.push(n as usize));
    assert(nodes2[n].left == Some(a) && nodes2[n].right == Some(b));
    assert(a != b);
    assert forall|i: int| 256 <= i < nodes2.len() implies #[trigger] joins(nodes2, i) by {
        if i < n {
            assert(joins(nodes, i));
        }
    }
    assert forall|i: int| 0 <= i < 256 implies #[trigger] leaf_of(nodes2, i) by {
        assert(leaf_of(nodes, i));
    }
    assert forall|k: int| 0 <= k < act3.len() implies #[trigger] act3[k] < nodes2.len() by {
        if k < act2.len() {
            assert(act3[k] == act2[k]);
        }
    }
    assert forall|x: int, y: int| 0 <= x < y < act3.len() implies #[trigger] act3[x]
        != #[trigger] act3[y] by {
        if y < act2.len() {
            assert(act3[x] == act2[x] && act3[y] == act2[y]);
        } else {
            assert(act3[x] == act2[x]);
            assert(act2[x] < n);
        }
    }
    assert forall|j: int| 0 <= j < nodes2.len() implies #[trigger] lists(act3, j) || has_parent(
        nodes2,
        j,
    ) by {
        if j == n {
            assert(act3[act2.len() as int] == j);
        } else if j == a || j == b {
            assert(nodes2[n].left == Some(j as usize) || nodes2[n].right == Some(j as usize));
        } else if lists(act, j) {
            assert(lists(act1, j));
            assert(lists(act2, j));
            let k = choose|k: int| 0 <= k < act2.len() && act2[k] == j;
            assert(act3[k] == j);
        } else {
            assert(has_parent(nodes, j));
            let p = choose|p: int|
                256 <= p < nodes.len() && j < p && (#[trigger] nodes[p].left == Some(j as usize)
                    || nodes[p].right == Some(j as usize));
            assert(nodes2[p] == nodes[p]);
        }
    }
}

proof fn lemma_build_shape(nodes: Seq<Node>, act: Seq<usize>, fuel: nat)
    requires
        tree_shape(nodes, act),
        fuel == act.len() - 1,
    ensures
        tree_shape(build(nodes, act, fuel).0, build(nodes, act, fuel).1),
        build(nodes, act, fuel).1.len() == 1,
    decreases fuel,
{
    if fuel > 0 {
        lemma_merge_shape(nodes, act);
        let (n2, a2) = merge_step(nodes, act);
        lemma_build_shape(n2, a2, (fuel - 1) as nat);
    }
}

/// The code tree of any frequency table: 256 leaves, one per byte value, then
/// 255 nodes that each join two earlier ones; the last is the root, and every
/// other node is a child of a later one.
proof fn lemma_tree_shape(f: Seq<u32>)
    requires
        f.len() == 256,
    ensures
        ({
            let (nodes, root) = tree_of(f);
            &&& nodes.len() == 511
            &&& root == 510
            &&& forall|i: int| 0 <= i < 256 ==> #[trigger] leaf_of(nodes, i)
            &&& forall|i: int| 256 <= i < 511 ==> #[trigger] joins(nodes, i)
            &&& forall|j: int| 0 <= j < 510 ==> #[trigger] has_parent(nodes, j)
        }),
{
    reveal(tree_of);
    let l = leaves(f);
    let a = all_leaves();
    assert forall|i: int| 0 <= i < 256 implies #[trigger] leaf_of(l, i) by {}
    assert forall|j: int| 0 <= j < l.len() implies #[trigger] lists(a, j) || has_parent(l, j) by {
        assert(a[j] == j);
    }
    assert(tree_shape(l, a));
    lemma_build_shape(l, a, 255);
    let (nodes, act) = build(l, a, 255);
    assert forall|j: int| 0 <= j < 510 implies #[trigger] has_parent(nodes, j) by {
        assert(lists(act, j) || has_parent(nodes, j));
        if lists(act, j) {
            let k = choose|k: int| 0 <= k < act.len() && act[k] == j;
            assert(act[k] == act.last());
        }
    }
}

/// Where following `bits` from node `cur` leads.
spec fn path_end(nodes: Seq<Node>, cur: int, bits: Seq<bool>) -> Option<int>
    decreases bits.len(),
{
    if bits.len() == 0 {
        Some(cur)
    } else {
        match child(nodes, cur, bits[0]) {
            Some(c) => path_end(nodes, c, bits.drop_first()),
            None => None,
        }
    }
}

/// `o` is an inner node.
spec fn inner(nodes: Seq<Node>, o: Option<int>) -> bool {
    match o {
        Some(n) => 0 <= n < nodes.len() && !nodes[n].leaf,
        None => false,
    }
}

/// The code `c` leads from the root to node `j` through inner nodes only.
spec fn good_code(nodes: Seq<Node>, c: Seq<bool>, j: int) -> bool {
    &&& path_end(nodes, 510, c) == Some(j)
    &&& forall|k: int| 0 <= k < c.len() ==> #[trigger] inner(nodes, path_end(nodes, 510, c.take(k)))
}

/// Node `j` is a child of a node at `lo` or after.
spec fn parented_from(nodes: Seq<Node>, j: int, lo: int) -> bool {
    exists|p: int|
        lo <= p < nodes.len() && 256 <= p && j < p && (#[trigger] nodes[p].left == Some(
            j as usize,
        ) || nodes[p].right == Some(j as usize))
}

proof fn lemma_path_push(nodes: Seq<Node>, cur: int, s: Seq<bool>, b: bool)
    ensures
        path_end(nodes, cur, s.push(b)) == match path_end(nodes, cur, s) {
            Some(m) => child(nodes, m, b),
            None => None,
        },
    decreases s.len(),
{
    let t = s.push(b);
    if s.len() > 0 {
        assert(t.drop_first() == s.drop_first().push(b));
        assert(t[0] == s[0]);
        match child(nodes, cur, s[0]) {
            Some(c) => {
                lemma_path_push(nodes, c, s.drop_first(), b);
                assert(path_end(nodes, cur, t) == path_end(nodes, c, t.drop_first()));
                assert(path_end(nodes, cur, s) == path_end(nodes, c, s.drop_first()));
            },
            None => {
                assert(path_end(nodes, cur, t) == None::<int>);
            },
        }
    } else {
        assert(t.drop_first() == s);
        assert(t[0] == b);
        match child(nodes, cur, b) {
            Some(c) => {
                assert(path_end(nodes, c, t.drop_first()) == Some(c));
            },
            None => {},
        }
    }
}

spec fn tree_facts(nodes: Seq<Node>) -> bool {
    &&& nodes.len() == 511
    &&& forall|i: int| 0 <= i < 256 ==> #[trigger] leaf_of(nodes, i)
    &&& forall|i: int| 256 <= i < 511 ==> #[trigger] joins(nodes, i)
    &&& forall|j: int| 0 <= j < 510 ==> #[trigger] has_parent(nodes, j)
}

proof fn lemma_child_code(nodes: Seq<Node>, c: Seq<bool>, p: int, b: bool, j: int)
    requires
        tree_facts(nodes),
        256 <= p < 511,
        good_code(nodes, c, p),
        child(nodes, p, b) == Some(j),
    ensures
        good_code(nodes, c.push(b), j),
{
    lemma_path_push(nodes, 510, c, b);
    assert(joins(nodes, p));
    let d = c.push(b);
    assert forall|k: int| 0 <= k < d.len() implies #[trigger] inner(nodes, path_end(nodes, 510, d.take(k))) by {
        if k < c.len() {
            assert(d.take(k) == c.take(k));
        } else {
            assert(d.take(k) == c);
        }
    }
}

proof fn lemma_codes_after_good(nodes: Seq<Node>, k: nat)
    requires
        tree_facts(nodes),
        k <= 511,
    ensures
        forall|j: int|
            0 <= j < 511 && (j == 510 || parented_from(nodes, j, 511 - k)) ==> #[trigger] good_code(
                nodes,
                codes_after(nodes, k)[j],
                j,
            ),
        codes_after(nodes, k).len() == 511,
    decreases k,
{
    if k == 0 {
        let c = codes_after(nodes, 0);
        assert(path_end(nodes, 510, c[510]) == Some(510int));
        assert forall|j: int|
            0 <= j < 511 && (j == 510 || parented_from(nodes, j, 511)) implies #[trigger] good_code(
            nodes,
            codes_after(nodes, 0)[j],
            j,
        ) by {
            if j != 510 {
                let q = choose|q: int|
                    511 <= q < nodes.len() && 256 <= q && j < q && (#[trigger] nodes[q].left
                        == Some(j as usize) || nodes[q].right == Some(j as usize));
            }
        }
    } else {
        lemma_codes_after_good(nodes, (k - 1) as nat);
        let c = codes_after(nodes, (k - 1) as nat);
        let c2 = codes_after(nodes, k);
        let p = 511 - k;
        assert forall|j: int|
            0 <= j < 511 && (j == 510 || parented_from(nodes, j, p)) implies #[trigger] good_code(
            nodes,
            c2[j],
            j,
        ) by {
            if p < 256 {
                assert(leaf_of(nodes, p));
                assert(c2 == c);
                if j != 510 {
                    let q = choose|q: int|
                        p <= q < nodes.len() && 256 <= q && j < q && (#[trigger] nodes[q].left
                            == Some(j as usize) || nodes[q].right == Some(j as usize));
                    assert(parented_from(nodes, j, p + 1));
                }
            } else {
                assert(joins(nodes, p));
                let l = nodes[p].left->Some_0 as int;
                let r = nodes[p].right->Some_0 as int;
                assert(c2 == c.update(l, c[p].push(false)).update(r, c[p].push(true)));
                if p != 510 {
                    assert(has_parent(nodes, p));
                    let q = choose|q: int|
                        256 <= q < nodes.len() && p < q && (#[trigger] nodes[q].left == Some(
                            p as usize,
                        ) || nodes[q].right == Some(p as usize));
                    assert(parented_from(nodes, p, p + 1));
                }
                assert(good_code(nodes, c[p], p));
                if j == r {
                    assert(child(nodes, p, true) == Some(r));
                    lemma_child_code(nodes, c[p], p, true, r);
                } else if j == l {
                    assert(child(nodes, p, false) == Some(l));
                    lemma_child_code(nodes, c[p], p, false, l);
                } else {
                    assert(c2[j] == c[j]);
                    if j != 510 {
                        let q = choose|q: int|
                            p <= q < nodes.len() && 256 <= q && j < q && (#[trigger] nodes[q].left
                                == Some(j as usize) || nodes[q].right == Some(j as usize));
                        assert(q != p);
                        assert(parented_from(nodes, j, p + 1));
                    }
                }
            }
        }
    }
}

proof fn lemma_decode_code(
    nodes: Seq<Node>,
    cur: int,
    s: Seq<bool>,
    rest: Seq<bool>,
    count: nat,
    v: int,
)
    requires
        count > 0,
        s.len() > 0,
        path_end(nodes, cur, s) == Some(v),
        0 <= v < nodes.len(),
        nodes[v].leaf,
        forall|k: int| 0 <= k < s.len() ==> #[trigger] inner(nodes, path_end(nodes, cur, s.take(k))),
    ensures
        walk_decode(nodes, 510, cur, s + rest, count) == prefixed(
            seq![nodes[v].input],
            walk_decode(nodes, 510, 510, rest, (count - 1) as nat),
        ),
    decreases s.len(),
{
    let t = s + rest;
    assert(t[0] == s[0]);
    assert(t.drop_first() == s.drop_first() + rest);
    let c = child(nodes, cur, s[0])->Some_0;
    assert(child(nodes, cur, s[0]) is Some);
    if s.len() == 1 {
        assert(s.drop_first().len() == 0);
        assert(c == v);
        assert(t.drop_first() == rest);
    } else {
        assert(s.take(1).drop_first().len() == 0);
        assert(s.take(1)[0] == s[0]);
        assert(inner(nodes, path_end(nodes, cur, s.take(1))));
        assert(path_end(nodes, c, s.take(1).drop_first()) == Some(c));
        assert(path_end(nodes, cur, s.take(1)) == Some(c));
        let s2 = s.drop_first();
        assert forall|k: int| 0 <= k < s2.len() implies #[trigger] inner(
            nodes,
            path_end(nodes, c, s2.take(k)),
        ) by {
            assert(s.take(k + 1)[0] == s[0]);
            assert(s.take(k + 1).drop_first() == s2.take(k));
            assert(inner(nodes, path_end(nodes, cur, s.take(k + 1))));
        }
        lemma_decode_code(nodes, c, s2, rest, count, v);
    }
}

proof fn lemma_code_stream_front(cs: Seq<Seq<bool>>, x: Seq<u8>)
    requires
        x.len() > 0,
        cs.len() >= 256,
    ensures
        code_stream(cs, x) == cs[x[0] as int] + code_stream(cs, x.drop_first()),
    decreases x.len(),
{
    if x.len() == 1 {
        assert(x.last() == x[0]);
        assert(x.drop_last().len() == 0);
        assert(code_stream(cs, x.drop_last()) == Seq::<bool>::empty());
        assert(x.drop_first().len() == 0);
        assert(cs[x[0] as int] + Seq::<bool>::empty() =~= cs[x[0] as int]);
        assert(Seq::<bool>::empty() + cs[x[0] as int] =~= cs[x[0] as int]);
    } else {
        lemma_code_stream_front(cs, x.drop_last());
        assert(x.drop_last().drop_first() == x.drop_first().drop_last());
        assert(x.drop_first().last() == x.last());
        assert(x.drop_last()[0] == x[0]);
        assert(code_stream(cs, x.drop_first()) == code_stream(cs, x.drop_first().drop_last())
            + cs[x.last() as int]);
        let a = cs[x[0] as int];
        let b = code_stream(cs, x.drop_first().drop_last());
        let c = cs[x.last() as int];
        assert((a + b) + c =~= a + (b + c));
    }
}

proof fn lemma_decode_stream(nodes: Seq<Node>, cs: Seq<Seq<bool>>, x: Seq<u8>, pad: Seq<bool>)
    requires
        tree_facts(nodes),
        cs.len() == 511,
        forall|v: int| 0 <= v < 256 ==> #[trigger] good_code(nodes, cs[v], v),
    ensures
        walk_decode(nodes, 510, 510, code_stream(cs, x) + pad, x.len()) == Some(x),
    decreases x.len(),
{
    if x.len() > 0 {
        let a = x[0] as int;
        let rest = x.drop_first();
        lemma_code_stream_front(cs, x);
        lemma_decode_stream(nodes, cs, rest, pad);
        assert(good_code(nodes, cs[a], a));
        assert(leaf_of(nodes, a));
        assert(cs[a].len() > 0) by {
            if cs[a].len() == 0 {
                assert(path_end(nodes, 510, cs[a]) == Some(510int));
            }
        }
        assert(code_stream(cs, x) + pad == cs[a] + (code_stream(cs, rest) + pad));
        lemma_decode_code(nodes, 510, cs[a], code_stream(cs, rest) + pad, x.len(), a);
        assert(seq![x[0]] + rest == x);
    }
}

/// Decoding the Huffman encoding of any input below `2^32` bytes gives the
/// input back. (At `2^32` occurrences of one byte its frequency saturates and
/// the header no longer counts the input.)
pub proof fn lemma_huffman_round_trip(x: Seq<u8>)
    requires
        x.len() <= u32::MAX,
    ensures
        huffman_decode(huffman_encode(x)) == Ok::<Seq<u8>, CodecError>(x),
{
    let f = freqs_of(x);
    let (nodes, root) = tree_of(f);
    lemma_tree_shape(f);
    assert(tree_facts(nodes));
    let cs = codes_of(nodes);
    reveal(codes_of);
    lemma_codes_after_good(nodes, 511);
    assert forall|v: int| 0 <= v < 256 implies #[trigger] good_code(nodes, cs[v], v) by {
        assert(has_parent(nodes, v));
        let q = choose|q: int|
            256 <= q < nodes.len() && v < q && (#[trigger] nodes[q].left == Some(v as usize)
                || nodes[q].right == Some(v as usize));
        assert(parented_from(nodes, v, 0));
    }
    let stream = code_stream(cs, x);
    let e = huffman_encode(x);
    lemma_header_layout(f);
    lemma_parse_header(f, pack(stream));
    assert(e.subrange(1024, e.len() as int) == pack(stream));
    lemma_unpack(stream);
    lemma_total_freqs(x);
    let pad = padded(stream).subrange(stream.len() as int, padded(stream).len() as int);
    assert(padded(stream) == stream + pad);
    lemma_decode_stream(nodes, cs, x, pad);
}

/// Whatever the codec's `encode` returns for an input below `2^32` bytes, its
/// `decode` maps back to that input.
pub proof fn lemma_huffman_codec_round_trip(x: Seq<u8>, y: Seq<u8>)
    requires
        x.len() <= u32::MAX,
        (Huffman {  }).encodes(x, y),
    ensures
        (Huffman {  }).decodes(y, Ok(x)),
{
    lemma_huffman_round_trip(x);
}

/// The inner two stages of the pipeline give back what they were handed:
/// move-to-front, then Huffman, decoded in reverse order, for any input below
/// `2^32` bytes.
pub proof fn lemma_mtf_huffman_round_trip(x: Seq<u8>)
    requires
        x.len() <= u32::MAX,
    ensures
        huffman_decode(huffman_encode(mtf_encode(x))) == Ok::<Seq<u8>, CodecError>(mtf_encode(x)),
        mtf_decode(mtf_encode(x)) == x,
{
    lemma_mtf_round_trip(x);
    lemma_huffman_round_trip(mtf_encode(x));
}

} // verus!
