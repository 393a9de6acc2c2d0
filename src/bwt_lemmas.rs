use vstd::prelude::*;

use crate::bwt::{
    block_decoded,
    block_encoded,
    blocks_decoded,
    blocks_encoded,
    byte_less,
    covers,
    last_column,
    lists,
    min,
    rot,
    rot_agree,
    rot_less,
    sorted_rotations,
    stable_order,
    walk,
    Bwt,
};
use crate::bytes::{le_value, pow2};
use crate::coder::{CodecError, Coder};

verus! {

pub(crate) proof fn lemma_rot_less_transitive(blk: Seq<u8>, i: int, j: int, k: int)
    requires
        rot_less(blk, i, j),
        rot_less(blk, j, k),
    ensures
        rot_less(blk, i, k),
{
    let n = blk.len() as int;
    if exists|d: int| 0 <= d < n && rot_agree(blk, i, j, d) && #[trigger] rot(blk, i, d) < rot(blk, j, d) {
        let d1 = choose|d: int| 0 <= d < n && rot_agree(blk, i, j, d) && #[trigger] rot(blk, i, d) < rot(blk, j, d);
        if exists|d: int| 0 <= d < n && rot_agree(blk, j, k, d) && #[trigger] rot(blk, j, d) < rot(blk, k, d) {
            let d2 = choose|d: int| 0 <= d < n && rot_agree(blk, j, k, d) && #[trigger] rot(blk, j, d) < rot(blk, k, d);
            if d1 <= d2 {
                assert(rot_agree(blk, i, k, d1));
                assert(rot(blk, i, d1) < rot(blk, k, d1));
            } else {
                assert(rot_agree(blk, i, k, d2));
                assert(rot(blk, i, d2) < rot(blk, k, d2));
            }
        } else {
            assert(rot_agree(blk, i, k, d1));
            assert(rot(blk, i, d1) < rot(blk, k, d1));
        }
    } else {
        if exists|d: int| 0 <= d < n && rot_agree(blk, j, k, d) && #[trigger] rot(blk, j, d) < rot(blk, k, d) {
            let d2 = choose|d: int| 0 <= d < n && rot_agree(blk, j, k, d) && #[trigger] rot(blk, j, d) < rot(blk, k, d);
            assert(rot_agree(blk, i, k, d2));
            assert(rot(blk, i, d2) < rot(blk, k, d2));
        } else {
            assert(rot_agree(blk, i, k, n));
        }
    }
}

pub(crate) proof fn lemma_rot_less_irreflexive(blk: Seq<u8>, i: int)
    ensures
        !rot_less(blk, i, i),
{
}

/// Two orders of `0..n` that are both strictly increasing, step by step, under
/// one strict order are the same order.
proof fn lemma_sorted_unique(lt: spec_fn(int, int) -> bool, n: int, p: Seq<usize>, q: Seq<usize>)
    requires
        covers(p, n),
        covers(q, n),
        forall|k: int| 0 <= k < n - 1 ==> #[trigger] lt(p[k] as int, p[k + 1] as int),
        forall|k: int| 0 <= k < n - 1 ==> #[trigger] lt(q[k] as int, q[k + 1] as int),
        forall|x: int, y: int, z: int| #[trigger] lt(x, y) && #[trigger] lt(y, z) ==> lt(x, z),
        forall|x: int| !#[trigger] lt(x, x),
    ensures
        p == q,
{
    lemma_sorted_global(lt, n, p);
    lemma_sorted_global(lt, n, q);
    if p != q {
        assert(!(p =~= q));
        let k0 = choose|k: int| 0 <= k < n && p[k] != q[k];
        lemma_first_difference(p, q, n, k0);
        let k = choose|k: int|
            0 <= k < n && p[k] != q[k] && forall|m: int| 0 <= m < k ==> p[m] == q[m];
        let u = p[k] as int;
        let w = q[k] as int;
        assert(lists(q, u));
        let m = choose|m: int| 0 <= m < q.len() && q[m] == u;
        if m < k {
            assert(p[m] == u);
        }
        assert(lists(p, w));
        let m2 = choose|m: int| 0 <= m < p.len() && p[m] == w;
        if m2 < k {
            assert(q[m2] == w);
        }
        assert(lt(w, u));
        assert(lt(u, w));
        assert(lt(u, u));
    }
}

proof fn lemma_first_difference(p: Seq<usize>, q: Seq<usize>, n: int, k0: int)
    requires
        0 <= k0 < n,
        p[k0] != q[k0],
    ensures
        exists|k: int| 0 <= k < n && p[k] != q[k] && forall|m: int| 0 <= m < k ==> p[m] == q[m],
    decreases k0,
{
    if forall|m: int| 0 <= m < k0 ==> p[m] == q[m] {
    } else {
        let m = choose|m: int| 0 <= m < k0 && p[m] != q[m];
        lemma_first_difference(p, q, n, m);
    }
}

pub(crate) proof fn lemma_sorted_global(lt: spec_fn(int, int) -> bool, n: int, p: Seq<usize>)
    requires
        p.len() == n,
        forall|k: int| 0 <= k < n - 1 ==> #[trigger] lt(p[k] as int, p[k + 1] as int),
        forall|x: int, y: int, z: int| #[trigger] lt(x, y) && #[trigger] lt(y, z) ==> lt(x, z),
    ensures
        forall|a: int, b: int| 0 <= a < b < n ==> #[trigger] lt(p[a] as int, p[b] as int),
{
    assert forall|a: int, b: int| 0 <= a < b < n implies #[trigger] lt(p[a] as int, p[b] as int) by {
        lemma_sorted_from(lt, n, p, a, b);
    }
}

pub(crate) proof fn lemma_sorted_from(lt: spec_fn(int, int) -> bool, n: int, p: Seq<usize>, a: int, b: int)
    requires
        p.len() == n,
        0 <= a < b < n,
        forall|k: int| 0 <= k < n - 1 ==> #[trigger] lt(p[k] as int, p[k + 1] as int),
        forall|x: int, y: int, z: int| #[trigger] lt(x, y) && #[trigger] lt(y, z) ==> lt(x, z),
    ensures
        lt(p[a] as int, p[b] as int),
    decreases b - a,
{
    let k = b - 1;
    assert(lt(p[k] as int, p[k + 1] as int));
    assert(k + 1 == b);
    if b > a + 1 {
        lemma_sorted_from(lt, n, p, a, b - 1);
        assert(lt(p[a] as int, p[k] as int));
    }
}

proof fn lemma_rotations_unique(blk: Seq<u8>, p: Seq<usize>, q: Seq<usize>)
    requires
        sorted_rotations(blk, p),
        sorted_rotations(blk, q),
    ensures
        p == q,
{
    let lt = |a: int, b: int| rot_less(blk, a, b);
    assert forall|x: int, y: int, z: int| #[trigger] lt(x, y) && #[trigger] lt(y, z) implies lt(
        x,
        z,
    ) by {
        lemma_rot_less_transitive(blk, x, y, z);
    }
    assert forall|x: int| !#[trigger] lt(x, x) by {
        lemma_rot_less_irreflexive(blk, x);
    }
    let n = blk.len() as int;
    assert forall|k: int| 0 <= k < n - 1 implies #[trigger] lt(p[k] as int, p[k + 1] as int) by {
        assert(rot_less(blk, p[k] as int, p[k + 1] as int));
    }
    assert forall|k: int| 0 <= k < n - 1 implies #[trigger] lt(q[k] as int, q[k + 1] as int) by {
        assert(rot_less(blk, q[k] as int, q[k + 1] as int));
    }
    lemma_sorted_unique(lt, n, p, q);
}

proof fn lemma_stable_order_unique(last: Seq<u8>, f: Seq<usize>, g: Seq<usize>)
    requires
        stable_order(last, f),
        stable_order(last, g),
    ensures
        f == g,
{
    let lt = |a: int, b: int| byte_less(last, a, b);
    let n = last.len() as int;
    assert forall|k: int| 0 <= k < n - 1 implies #[trigger] lt(f[k] as int, f[k + 1] as int) by {
        assert(byte_less(last, f[k] as int, f[k + 1] as int));
    }
    assert forall|k: int| 0 <= k < n - 1 implies #[trigger] lt(g[k] as int, g[k + 1] as int) by {
        assert(byte_less(last, g[k] as int, g[k + 1] as int));
    }
    lemma_sorted_unique(lt, n, f, g);
}

proof fn lemma_block_encoded_unique(blk: Seq<u8>, r1: int, l1: Seq<u8>, r2: int, l2: Seq<u8>)
    requires
        block_encoded(blk, r1, l1),
        block_encoded(blk, r2, l2),
    ensures
        r1 == r2,
        l1 == l2,
{
    let p = choose|p: Seq<usize>|
        sorted_rotations(blk, p) && 0 <= r1 < blk.len() && p[r1] == 0 && l1 == last_column(blk, p);
    let q = choose|p: Seq<usize>|
        sorted_rotations(blk, p) && 0 <= r2 < blk.len() && p[r2] == 0 && l2 == last_column(blk, p);
    lemma_rotations_unique(blk, p, q);
    if r1 < r2 {
        assert(p[r1] != p[r2]);
    } else if r2 < r1 {
        assert(p[r2] != p[r1]);
    }
}

proof fn lemma_le_injective(y1: Seq<u8>, y2: Seq<u8>)
    requires
        y1.len() >= 4,
        y2.len() >= 4,
        le_value(y1, 0) == le_value(y2, 0),
    ensures
        y1.take(4) == y2.take(4),
{
    let (a1, b1, c1, d1) = (y1[0] as int, y1[1] as int, y1[2] as int, y1[3] as int);
    let (a2, b2, c2, d2) = (y2[0] as int, y2[1] as int, y2[2] as int, y2[3] as int);
    assert(a1 + 256 * b1 + 65536 * c1 + 16777216 * d1 == a2 + 256 * b2 + 65536 * c2 + 16777216
        * d2);
    assert(a1 == a2 && b1 == b2 && c1 == c2 && d1 == d2) by (nonlinear_arith)
        requires
            a1 + 256 * b1 + 65536 * c1 + 16777216 * d1 == a2 + 256 * b2 + 65536 * c2 + 16777216
                * d2,
            0 <= a1 < 256,
            0 <= b1 < 256,
            0 <= c1 < 256,
            0 <= d1 < 256,
            0 <= a2 < 256,
            0 <= b2 < 256,
            0 <= c2 < 256,
            0 <= d2 < 256,
    ;
    assert(y1.take(4) =~= y2.take(4));
}

proof fn lemma_blocks_encoded_unique(bs: int, x: Seq<u8>, y1: Seq<u8>, y2: Seq<u8>)
    requires
        blocks_encoded(bs, x, y1),
        blocks_encoded(bs, x, y2),
    ensures
        y1 == y2,
    decreases x.len(),
{
    if x.len() == 0 || bs <= 0 {
        assert(y1 =~= y2);
    } else {
        let b = min(bs, x.len() as int);
        lemma_block_encoded_unique(
            x.take(b),
            le_value(y1, 0) as int,
            y1.subrange(4, 4 + b),
            le_value(y2, 0) as int,
            y2.subrange(4, 4 + b),
        );
        lemma_le_injective(y1, y2);
        lemma_blocks_encoded_unique(bs, x.skip(b), y1.skip(4 + b), y2.skip(4 + b));
        assert(y1 == y1.take(4) + y1.subrange(4, 4 + b) + y1.skip(4 + b));
        assert(y2 == y2.take(4) + y2.subrange(4, 4 + b) + y2.skip(4 + b));
    }
}

/// Encoding is a function of the input and the block length: two encodings of
/// one input are equal.
pub proof fn lemma_bwt_deterministic(b: Bwt, x: Seq<u8>, y1: Seq<u8>, y2: Seq<u8>)
    requires
        b.encodes(x, y1),
        b.encodes(x, y2),
    ensures
        y1 == y2,
{
    lemma_blocks_encoded_unique(pow2(b.pow()) as int, x, y1.skip(4), y2.skip(4));
    assert(y1 == y1.take(4) + y1.skip(4));
    assert(y2 == y2.take(4) + y2.skip(4));
}

proof fn lemma_blocks_decoded_unique(
    bl: int,
    y: Seq<u8>,
    acc: Seq<u8>,
    o1: Seq<Seq<u8>>,
    r1: Result<Seq<u8>, CodecError>,
    o2: Seq<Seq<u8>>,
    r2: Result<Seq<u8>, CodecError>,
)
    requires
        blocks_decoded(bl, y, acc, o1, r1),
        blocks_decoded(bl, y, acc, o2, r2),
    ensures
        r1 == r2,
    decreases y.len(),
{
    if y.len() == 0 || bl == 0 || y.len() < 4 {
    } else {
        let b = min(bl, y.len() - 4);
        let row = le_value(y, 0) as int;
        if row < b {
            let last = y.subrange(4, 4 + b);
            let f = choose|f: Seq<usize>|
                stable_order(last, f) && o1[0] == walk(last, f, row, last.len());
            let g = choose|f: Seq<usize>|
                stable_order(last, f) && o2[0] == walk(last, f, row, last.len());
            lemma_stable_order_unique(last, f, g);
            lemma_blocks_decoded_unique(
                bl,
                y.skip(4 + b),
                acc + o1[0],
                o1.drop_first(),
                r1,
                o2.drop_first(),
                r2,
            );
        }
    }
}

/// Decoding is a function of the input: two results of decoding one input are
/// equal.
pub proof fn lemma_bwt_decode_deterministic(
    b: Bwt,
    y: Seq<u8>,
    r1: Result<Seq<u8>, CodecError>,
    r2: Result<Seq<u8>, CodecError>,
)
    requires
        b.decodes(y, r1),
        b.decodes(y, r2),
    ensures
        r1 == r2,
{
    if y.len() >= 4 {
        let bl = le_value(y, 0) as int;
        let o1 = choose|outs: Seq<Seq<u8>>| blocks_decoded(bl, y.skip(4), seq![], outs, r1);
        let o2 = choose|outs: Seq<Seq<u8>>| blocks_decoded(bl, y.skip(4), seq![], outs, r2);
        lemma_blocks_decoded_unique(bl, y.skip(4), seq![], o1, r1, o2, r2);
    }
}

} // verus!
