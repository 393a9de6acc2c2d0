use vstd::prelude::*;

use vstd::arithmetic::div_mod::{lemma_mod_add_multiples_vanish, lemma_small_mod};

use crate::bytes::{le_bytes, le_value, pow2, push_le, read_le};
use crate::coder::{result_view, CodecError, Coder};

verus! {

/// Burrows-Wheeler transform over blocks of up to `2^block_pow` bytes.
pub struct Bwt {
    block_pow: usize,
}

/// The exponent of the block length that `Bwt::encode` uses: blocks of 1 MiB.
pub const DEFAULT_BLOCK_POW: usize = 20;

/// Byte `k` of the rotation of `blk` that starts at `i`.
pub open spec fn rot(blk: Seq<u8>, i: int, k: int) -> u8 {
    blk[(i + k) % (blk.len() as int)]
}

/// The rotations from `i` and from `j` agree on their first `d` bytes.
pub open spec fn rot_agree(blk: Seq<u8>, i: int, j: int, d: int) -> bool {
    forall|e: int| 0 <= e < d ==> #[trigger] rot(blk, i, e) == rot(blk, j, e)
}

/// The rotation from `i` sorts before the one from `j`: it is smaller at their
/// first difference, or they are equal and `i < j`.
pub open spec fn rot_less(blk: Seq<u8>, i: int, j: int) -> bool {
    ||| exists|d: int|
        0 <= d < blk.len() && rot_agree(blk, i, j, d) && #[trigger] rot(blk, i, d) < rot(
            blk,
            j,
            d,
        )
    ||| (rot_agree(blk, i, j, blk.len() as int) && i < j)
}

/// `v` stands somewhere in `p`.
pub open spec fn lists(p: Seq<usize>, v: int) -> bool {
    exists|k: int| 0 <= k < p.len() && p[k] == v
}

/// `p` lists each of `0..n`, and nothing else.
pub open spec fn covers(p: Seq<usize>, n: int) -> bool {
    &&& p.len() == n
    &&& forall|k: int| 0 <= k < n ==> p[k] < n
    &&& forall|v: int| 0 <= v < n ==> #[trigger] lists(p, v)
    &&& forall|a: int, b: int| 0 <= a < b < n ==> #[trigger] p[a] != #[trigger] p[b]
}

/// `p` is the order of the rotations of `blk`.
pub open spec fn sorted_rotations(blk: Seq<u8>, p: Seq<usize>) -> bool {
    &&& covers(p, blk.len() as int)
    &&& forall|k: int|
        0 <= k < blk.len() - 1 ==> #[trigger] rot_less(blk, p[k] as int, p[k + 1] as int)
}

/// The byte before the start of each rotation, in the order `p`.
pub open spec fn last_column(blk: Seq<u8>, p: Seq<usize>) -> Seq<u8> {
    Seq::new(
        blk.len(),
        |k: int| blk[(p[k] + blk.len() - 1) % (blk.len() as int)],
    )
}

/// `row` and `last` are the transform of the block `blk`.
pub open spec fn block_encoded(blk: Seq<u8>, row: int, last: Seq<u8>) -> bool {
    exists|p: Seq<usize>|
        sorted_rotations(blk, p) && 0 <= row < blk.len() && p[row] == 0 && last == last_column(
            blk,
            p,
        )
}

pub open spec fn min(a: int, b: int) -> int {
    if a < b {
        a
    } else {
        b
    }
}

/// `y` is the sequence of encoded blocks of `x`, each of `bs` bytes but the last.
pub open spec fn blocks_encoded(bs: int, x: Seq<u8>, y: Seq<u8>) -> bool
    decreases x.len(),
{
    if x.len() == 0 || bs <= 0 {
        x.len() == 0 && y.len() == 0
    } else {
        let b = min(bs, x.len() as int);
        &&& y.len() >= 4 + b
        &&& block_encoded(x.take(b), le_value(y, 0) as int, y.subrange(4, 4 + b))
        &&& blocks_encoded(bs, x.skip(b), y.skip(4 + b))
    }
}

/// `y` is the transform of `x` with blocks of `2^block_pow` bytes.
pub open spec fn bwt_encoded(block_pow: nat, x: Seq<u8>, y: Seq<u8>) -> bool {
    let bs = pow2(block_pow) as int;
    &&& y.len() >= 4
    &&& y.take(4) == le_bytes(min(bs, x.len() as int) as u32)
    &&& blocks_encoded(bs, x, y.skip(4))
}

/// Entry `a` of the last column sorts before entry `b`: by byte, then by position.
pub open spec fn byte_less(last: Seq<u8>, a: int, b: int) -> bool {
    last[a] < last[b] || (last[a] == last[b] && a < b)
}

/// `f` is the stable order of the last column by byte.
pub open spec fn stable_order(last: Seq<u8>, f: Seq<usize>) -> bool {
    &&& covers(f, last.len() as int)
    &&& forall|k: int|
        0 <= k < last.len() - 1 ==> #[trigger] byte_less(last, f[k] as int, f[k + 1] as int)
}

/// The `n` bytes read by following the order `f` from position `i`.
pub open spec fn walk(last: Seq<u8>, f: Seq<usize>, i: int, n: nat) -> Seq<u8>
    decreases n,
{
    if n == 0 {
        Seq::<u8>::empty()
    } else {
        let k = f[i] as int;
        seq![last[k]] + walk(last, f, k, (n - 1) as nat)
    }
}

/// `out` is the block whose transform is `last` with the unrotated block at row `row`.
pub open spec fn block_decoded(last: Seq<u8>, row: int, out: Seq<u8>) -> bool {
    exists|f: Seq<usize>| stable_order(last, f) && out == walk(last, f, row, last.len())
}

/// Decoding the blocks `y`, after `acc` was decoded, gives `r`, where the
/// blocks decode to `outs`, one after the other.
pub open spec fn blocks_decoded(
    bl: int,
    y: Seq<u8>,
    acc: Seq<u8>,
    outs: Seq<Seq<u8>>,
    r: Result<Seq<u8>, CodecError>,
) -> bool
    decreases y.len(),
{
    if y.len() == 0 || bl == 0 {
        r == Ok::<Seq<u8>, CodecError>(acc)
    } else if y.len() < 4 {
        r == Err::<Seq<u8>, CodecError>(CodecError::MalformedInput)
    } else {
        let b = min(bl, y.len() - 4);
        let row = le_value(y, 0) as int;
        if row >= b {
            r == Err::<Seq<u8>, CodecError>(CodecError::MalformedInput)
        } else {
            &&& outs.len() > 0
            &&& block_decoded(y.subrange(4, 4 + b), row, outs[0])
            &&& blocks_decoded(bl, y.skip(4 + b), acc + outs[0], outs.drop_first(), r)
        }
    }
}

/// Decoding `y` gives `r`.
pub open spec fn bwt_decoded(y: Seq<u8>, r: Result<Seq<u8>, CodecError>) -> bool {
    if y.len() < 4 {
        r == Err::<Seq<u8>, CodecError>(CodecError::MalformedInput)
    } else {
        exists|outs: Seq<Seq<u8>>| blocks_decoded(le_value(y, 0) as int, y.skip(4), seq![], outs, r)
    }
}

/// `(i + d) mod n` for `i, d < n`.
fn wrap(i: usize, d: usize, n: usize) -> (r: usize)
    requires
        i < n,
        d < n,
    ensures
        r == (i + d) % (n as int),
        r < n,
{
    if d < n - i {
        proof {
            lemma_small_mod((i + d) as nat, n as nat);
        }
        i + d
    } else {
        proof {
            let x = d - (n - i);
            lemma_small_mod(x as nat, n as nat);
            lemma_mod_add_multiples_vanish(x, n as int);
        }
        d - (n - i)
    }
}

/// Whether the rotation of `blk` from `i` sorts before the one from `j`.
fn rotation_less(blk: &Vec<u8>, i: usize, j: usize) -> (r: bool)
    requires
        i < blk@.len(),
        j < blk@.len(),
        i != j,
    ensures
        r == rot_less(blk@, i as int, j as int),
        !r ==> rot_less(blk@, j as int, i as int),
{
    let n = blk.len();
    let mut d: usize = 0;
    while d < n && blk[wrap(i, d, n)] == blk[wrap(j, d, n)]
        invariant
            n == blk@.len(),
            i < n,
            j < n,
            d <= n,
            rot_agree(blk@, i as int, j as int, d as int),
        decreases n - d,
    {
        d += 1;
    }
    if d == n {
        proof {
            assert(rot_agree(blk@, j as int, i as int, n as int));
            assert forall|e: int| 0 <= e < n implies !(#[trigger] rot(blk@, i as int, e) < rot(
                blk@,
                j as int,
                e,
            )) && !(rot(blk@, j as int, e) < rot(blk@, i as int, e)) by {}
        }
        i < j
    } else {
        let a = blk[wrap(i, d, n)];
        let b = blk[wrap(j, d, n)];
        proof {
            assert(rot(blk@, i as int, d as int) == a);
            assert(rot(blk@, j as int, d as int) == b);
            assert(rot_agree(blk@, j as int, i as int, d as int));
            if a < b {
                assert(rot_less(blk@, i as int, j as int));
            } else {
                assert(rot_less(blk@, j as int, i as int));
                assert forall|e: int| 0 <= e < n && rot_agree(blk@, i as int, j as int, e) implies !(
                #[trigger] rot(blk@, i as int, e) < rot(blk@, j as int, e)) by {
                    if e > d {
                        assert(rot(blk@, i as int, d as int) == rot(blk@, j as int, d as int));
                    }
                }
                assert(!rot_agree(blk@, i as int, j as int, n as int));
            }
        }
        a < b
    }
}

/// The identity order of `0..n`.
fn identity_order(n: usize) -> (p: Vec<usize>)
    ensures
        covers(p@, n as int),
        forall|k: int| 0 <= k < n ==> p@[k] == k,
{
    let mut p: Vec<usize> = Vec::new();
    let mut i: usize = 0;
    while i < n
        invariant
            i <= n,
            p@.len() == i,
            forall|k: int| 0 <= k < i ==> p@[k] == k,
        decreases n - i,
    {
        p.push(i);
        i += 1;
    }
    assert forall|v: int| 0 <= v < n implies #[trigger] lists(p@, v) by {
        assert(p@[v] == v);
    }
    p
}

/// The rotations of `blk`, sorted.
fn sort_rotations(blk: &Vec<u8>) -> (p: Vec<usize>)
    ensures
        sorted_rotations(blk@, p@),
{
    let n = blk.len();
    let id = identity_order(n);
    let p = merge_sort(blk, true, &id);
    proof {
        assert forall|v: int| 0 <= v < n implies #[trigger] lists(p@, v) by {
            assert(lists(id@, v));
        }
        assert forall|k: int| 0 <= k < n - 1 implies #[trigger] rot_less(blk@, p@[k] as int, p@[k + 1] as int) by {
            assert(key_less(blk@, true, p@[k] as int, p@[k + 1] as int));
        }
    }
    p
}

/// Copies `input[from..from + len]`.
fn copy_range(input: &[u8], from: usize, len: usize) -> (r: Vec<u8>)
    requires
        from + len <= input@.len(),
    ensures
        r@ == input@.subrange(from as int, from + len),
{
    let n = input.len();
    let mut r: Vec<u8> = Vec::new();
    let mut k: usize = 0;
    while k < len
        invariant
            n == input@.len(),
            k <= len,
            from + len <= input@.len(),
            r@ == input@.subrange(from as int, from + k),
        decreases len - k,
    {
        r.push(input[from + k]);
        k += 1;
        assert(r@ == input@.subrange(from as int, from + k));
    }
    r
}

/// The transform of one non-empty block: the row of the unrotated block and the last column.
fn encode_block(blk: &Vec<u8>) -> (r: (u32, Vec<u8>))
    requires
        1 <= blk@.len() <= 0x1_0000_0000,
    ensures
        block_encoded(blk@, r.0 as int, r.1@),
{
    let n = blk.len();
    let p = sort_rotations(blk);
    proof {
        assert(lists(p@, 0));
    }
    let mut row: usize = 0;
    while p[row] != 0
        invariant
            n == blk@.len(),
            sorted_rotations(blk@, p@),
            row < n,
            forall|k: int| 0 <= k < row ==> p@[k] != 0,
        decreases n - row,
    {
        proof {
            assert(lists(p@, 0));
            if row + 1 >= n {
                let k = choose|k: int| 0 <= k < n && p@[k] == 0;
                assert(false);
            }
        }
        row += 1;
    }
    let mut last: Vec<u8> = Vec::new();
    let mut k: usize = 0;
    while k < n
        invariant
            n == blk@.len(),
            sorted_rotations(blk@, p@),
            k <= n,
            last@ == last_column(blk@, p@).take(k as int),
        decreases n - k,
    {
        let v = p[k];
        let at = if v == 0 {
            n - 1
        } else {
            v - 1
        };
        proof {
            if v == 0 {
                lemma_small_mod((n - 1) as nat, n as nat);
            } else {
                lemma_small_mod((v - 1) as nat, n as nat);
                lemma_mod_add_multiples_vanish(v - 1, n as int);
            }
        }
        last.push(blk[at]);
        k += 1;
        assert(last@ == last_column(blk@, p@).take(k as int));
    }
    assert(last@ == last_column(blk@, p@));
    (row as u32, last)
}

impl Bwt {
    #[verifier::type_invariant]
    spec fn inv(&self) -> bool {
        self.block_pow <= 32
    }

    /// The exponent of the block length.
    pub closed spec fn pow(&self) -> nat {
        self.block_pow as nat
    }

    /// A transform over blocks of `2^block_pow` bytes; `block_pow` is at most 32.
    pub fn new(block_pow: usize) -> (r: Bwt)
        requires
            block_pow <= 32,
        ensures
            r.pow() == block_pow,
    {
        Bwt { block_pow }
    }

    /// The exponent of the block length.
    pub fn block_pow(&self) -> (r: usize)
        ensures
            r == self.pow(),
            r <= 32,
    {
        proof {
            use_type_invariant(self);
        }
        self.block_pow
    }

    /// The transform of `input` with this instance's block length.
    pub fn encode_blocks(&self, input: &[u8]) -> (r: Vec<u8>)
        ensures
            bwt_encoded(self.pow(), input@, r@),
    {
        let bp = self.block_pow();
        let mut bs: u64 = 1;
        let mut e: usize = 0;
        while e < bp
            invariant
                e <= bp <= 32,
                bs == pow2(e as nat),
                1 <= bs,
                bs <= 0x1_0000_0000,
            decreases bp - e,
        {
            proof {
                crate::bytes::lemma_pow2_mono((e + 1) as nat, 32);
                crate::bytes::lemma_pow2_32();
            }
            bs = bs * 2;
            e += 1;
        }
        let n = input.len();
        let first: u64 = if (n as u64) < bs {
            n as u64
        } else {
            bs
        };
        let mut out: Vec<u8> = Vec::new();
        push_le(&mut out, #[verifier::truncate] (first as u32));
        let ghost x = input@;
        let mut idx: usize = 0;
        assert(x.skip(0) == x);
        assert(out@.skip(4) =~= Seq::<u8>::empty());
        while idx < n
            invariant
                n == x.len(),
                x == input@,
                idx <= n,
                bs == pow2(bp as nat),
                1 <= bs <= 0x1_0000_0000,
                out@.len() >= 4,
                out@.take(4) == le_bytes(min(bs as int, n as int) as u32),
                forall|z: Seq<u8>|
                    #[trigger] blocks_encoded(bs as int, x.skip(idx as int), z) ==> blocks_encoded(
                        bs as int,
                        x,
                        out@.skip(4) + z,
                    ),
            decreases n - idx,
        {
            let rem = n - idx;
            let b: usize = if (rem as u64) < bs {
                rem
            } else {
                bs as usize
            };
            let blk = copy_range(input, idx, b);
            let (row, last) = encode_block(&blk);
            let ghost o = out@;
            push_le(&mut out, row);
            let mut last = last;
            let ghost lv = last@;
            out.append(&mut last);
            proof {
                let xs = x.skip(idx as int);
                assert(xs.take(b as int) == blk@);
                assert(xs.skip(b as int) == x.skip(idx + b));
                assert forall|z: Seq<u8>|
                    #[trigger] blocks_encoded(bs as int, x.skip(idx + b), z) implies blocks_encoded(
                        bs as int,
                        x,
                        out@.skip(4) + z,
                    ) by {
                    let y = le_bytes(row) + lv + z;
                    assert(y.subrange(0, 4) == le_bytes(row));
                    crate::bytes::lemma_le_round_trip(row, y, 0);
                    assert(y.subrange(4, 4 + b) == lv);
                    assert(y.skip(4 + b) == z);
                    assert(blocks_encoded(bs as int, xs, y));
                    assert(o.skip(4) + y == out@.skip(4) + z);
                }
            }
            idx = idx + b;
        }
        assert(blocks_encoded(bs as int, x.skip(n as int), Seq::<u8>::empty()));
        assert(out@.skip(4) + Seq::<u8>::empty() == out@.skip(4));
        assert(out@ == out@.take(4) + out@.skip(4));
        out
    }
}

/// The stable order of `last` by byte.
fn sort_by_byte(last: &Vec<u8>) -> (f: Vec<usize>)
    ensures
        stable_order(last@, f@),
{
    let n = last.len();
    let id = identity_order(n);
    let f = merge_sort(last, false, &id);
    proof {
        assert forall|v: int| 0 <= v < n implies #[trigger] lists(f@, v) by {
            assert(lists(id@, v));
        }
        assert forall|k: int| 0 <= k < n - 1 implies #[trigger] byte_less(last@, f@[k] as int, f@[k + 1] as int) by {
            assert(key_less(last@, false, f@[k] as int, f@[k + 1] as int));
        }
    }
    f
}

/// The block whose transform is `last` with the unrotated block at row `row`.
fn decode_block(last: &Vec<u8>, row: usize) -> (r: Vec<u8>)
    requires
        row < last@.len(),
    ensures
        block_decoded(last@, row as int, r@),
{
    let n = last.len();
    let f = sort_by_byte(last);
    let mut out: Vec<u8> = Vec::new();
    let mut i: usize = row;
    let mut t: usize = 0;
    while t < n
        invariant
            n == last@.len(),
            stable_order(last@, f@),
            t <= n,
            i < n,
            out@ + walk(last@, f@, i as int, (n - t) as nat) == walk(
                last@,
                f@,
                row as int,
                n as nat,
            ),
        decreases n - t,
    {
        let k = f[i];
        out.push(last[k]);
        proof {
            assert(out@ + walk(last@, f@, k as int, (n - t - 1) as nat) =~= walk(
                last@,
                f@,
                row as int,
                n as nat,
            ));
        }
        i = k;
        t += 1;
    }
    assert(out@ + Seq::<u8>::empty() == out@);
    out
}

impl Bwt {
    /// Inverse transform of `input`.
    pub fn decode_blocks(input: &[u8]) -> (r: Result<Vec<u8>, CodecError>)
        ensures
            bwt_decoded(input@, result_view(r)),
    {
        let n = input.len();
        if n < 4 {
            return Err(CodecError::MalformedInput);
        }
        let bl = read_le(input, 0);
        let ghost y = input@.skip(4);
        let mut out: Vec<u8> = Vec::new();
        let ghost mut done: Seq<Seq<u8>> = seq![];
        let mut idx: usize = 0;
        assert(y.skip(0) == y);
        assert(Seq::<u8>::empty() + Seq::<u8>::empty() == Seq::<u8>::empty());
        assert forall|r: Result<Seq<u8>, CodecError>, rest: Seq<Seq<u8>>|
            #[trigger] blocks_decoded(bl as int, y.skip(0), out@, rest, r) implies blocks_decoded(
            bl as int,
            y,
            Seq::<u8>::empty(),
            done + rest,
            r,
        ) by {
            assert(done + rest == rest);
        }
        while idx < n - 4
            invariant
                n == input@.len(),
                n >= 4,
                y == input@.skip(4),
                idx <= n - 4,
                bl == le_value(input@, 0),
                forall|r: Result<Seq<u8>, CodecError>, rest: Seq<Seq<u8>>|
                    #[trigger] blocks_decoded(bl as int, y.skip(idx as int), out@, rest, r)
                        ==> blocks_decoded(bl as int, y, Seq::<u8>::empty(), done + rest, r),
            decreases n - 4 - idx,
        {
            let ghost ys = y.skip(idx as int);
            let ghost none: Seq<Seq<u8>> = seq![];
            if bl == 0 {
                assert(blocks_decoded(bl as int, ys, out@, none, Ok(out@)));
                return Ok(out);
            }
            let rem = n - 4 - idx;
            if rem < 4 {
                assert(blocks_decoded(bl as int, ys, out@, none, Err(CodecError::MalformedInput)));
                return Err(CodecError::MalformedInput);
            }
            let b: usize = if (bl as u64) < ((rem - 4) as u64) {
                bl as usize
            } else {
                rem - 4
            };
            let row = read_le(input, 4 + idx);
            proof {
                assert(le_value(ys, 0) == row);
            }
            if row as u64 >= b as u64 {
                assert(blocks_decoded(bl as int, ys, out@, none, Err(CodecError::MalformedInput)));
                return Err(CodecError::MalformedInput);
            }
            let last = copy_range(input, 4 + idx + 4, b);
            let mut o = decode_block(&last, row as usize);
            let ghost old_out = out@;
            let ghost old_done = done;
            let ghost ov = o@;
            out.append(&mut o);
            proof {
                assert(ys.subrange(4, 4 + b) == last@);
                assert(ys.skip(4 + b) == y.skip(idx + 4 + b));
                assert(ys.len() == rem);
                done = old_done.push(ov);
                assert forall|r: Result<Seq<u8>, CodecError>, rest: Seq<Seq<u8>>|
                    #[trigger] blocks_decoded(bl as int, y.skip(idx + 4 + b), out@, rest, r)
                        implies blocks_decoded(bl as int, y, Seq::<u8>::empty(), done + rest, r) by {
                    let all = seq![ov] + rest;
                    assert(all.drop_first() == rest);
                    assert(old_out + ov == out@);
                    assert(blocks_decoded(bl as int, ys, old_out, all, r));
                    assert(old_done + all == done + rest);
                }
            }
            idx = idx + 4 + b;
        }
        let ghost none: Seq<Seq<u8>> = seq![];
        assert(y.skip(idx as int).len() == 0);
        assert(blocks_decoded(bl as int, y.skip(idx as int), out@, none, Ok(out@)));
        Ok(out)
    }
}

impl Coder for Bwt {
    closed spec fn standard() -> Self {
        Bwt { block_pow: 20 }
    }

    open spec fn encodes(&self, input: Seq<u8>, output: Seq<u8>) -> bool {
        bwt_encoded(self.pow(), input, output)
    }

    open spec fn decodes(&self, input: Seq<u8>, r: Result<Seq<u8>, CodecError>) -> bool {
        bwt_decoded(input, r)
    }

    fn encode(input: &[u8]) -> (r: Result<Vec<u8>, CodecError>) {
        let b = Bwt::new(DEFAULT_BLOCK_POW);
        Ok(b.encode_blocks(input))
    }

    fn decode(input: &[u8]) -> (r: Result<Vec<u8>, CodecError>) {
        Bwt::decode_blocks(input)
    }

    fn encode_s(&self, input: &[u8]) -> (r: Result<Vec<u8>, CodecError>) {
        Ok(self.encode_blocks(input))
    }

    fn decode_s(&self, input: &[u8]) -> (r: Result<Vec<u8>, CodecError>) {
        Bwt::decode_blocks(input)
    }
}

/// `Bwt::encode` and `Bwt::decode` use blocks of `2^20` bytes.
pub proof fn lemma_standard_block_pow()
    ensures
        <Bwt as Coder>::standard().pow() == 20,
{
}

/// The first four bytes of an encoding are the length of its first block,
/// `min(2^block_pow, |x|)`, little-endian; below `2^32` bytes they read back as
/// that length.
pub proof fn lemma_bwt_header(b: Bwt, x: Seq<u8>, y: Seq<u8>)
    requires
        b.encodes(x, y),
    ensures
        y.len() >= 4,
        y.take(4) == le_bytes(min(pow2(b.pow()) as int, x.len() as int) as u32),
        x.len() < 0x1_0000_0000 ==> le_value(y, 0) == min(pow2(b.pow()) as int, x.len() as int),
{
    let m = min(pow2(b.pow()) as int, x.len() as int);
    assert(y.subrange(0, 4) == y.take(4));
    crate::bytes::lemma_le_round_trip(m as u32, y, 0);
}

/// The empty input encodes to four zero bytes, which decode to the empty
/// sequence and to nothing else.
pub proof fn lemma_bwt_empty(b: Bwt, y: Seq<u8>)
    requires
        b.encodes(Seq::empty(), y),
    ensures
        y == seq![0u8, 0u8, 0u8, 0u8],
        b.decodes(y, Ok(Seq::empty())),
        forall|r: Result<Seq<u8>, CodecError>| b.decodes(y, r) ==> r == Ok::<Seq<u8>, CodecError>(Seq::empty()),
{
    let x = Seq::<u8>::empty();
    assert(min(pow2(b.pow()) as int, 0) == 0);
    assert(blocks_encoded(pow2(b.pow()) as int, x, y.skip(4)));
    assert(y.skip(4).len() == 0);
    assert(le_bytes(0) == seq![0u8, 0u8, 0u8, 0u8]);
    assert(y =~= y.take(4));
    let none: Seq<Seq<u8>> = seq![];
    assert(le_value(y, 0) == 0);
    assert(blocks_decoded(le_value(y, 0) as int, y.skip(4), seq![], none, Ok(Seq::empty())));
}

/// The order that sorting uses: rotations of `s` when `rotations` holds, else
/// the bytes of `s` with their positions.
pub open spec fn key_less(s: Seq<u8>, rotations: bool, a: int, b: int) -> bool {
    if rotations {
        rot_less(s, a, b)
    } else {
        byte_less(s, a, b)
    }
}

/// No entry of `q` stands twice.
pub open spec fn distinct(q: Seq<usize>) -> bool {
    forall|a: int, b: int| 0 <= a < b < q.len() ==> #[trigger] q[a] != #[trigger] q[b]
}

/// Each step of `q` goes up in the order `key_less`.
pub open spec fn ascending(s: Seq<u8>, rotations: bool, q: Seq<usize>) -> bool {
    forall|k: int|
        0 <= k < q.len() - 1 ==> #[trigger] key_less(s, rotations, q[k] as int, q[k + 1] as int)
}

fn key_less_exec(s: &Vec<u8>, rotations: bool, a: usize, b: usize) -> (r: bool)
    requires
        a < s@.len(),
        b < s@.len(),
    ensures
        r == key_less(s@, rotations, a as int, b as int),
        !r && a != b ==> key_less(s@, rotations, b as int, a as int),
{
    if rotations {
        if a == b {
            proof {
                crate::bwt_lemmas::lemma_rot_less_irreflexive(s@, a as int);
            }
            false
        } else {
            rotation_less(s, a, b)
        }
    } else {
        s[a] < s[b] || (s[a] == s[b] && a < b)
    }
}

proof fn lemma_lists_push(q: Seq<usize>, e: usize, v: int)
    ensures
        lists(q.push(e), v) == (lists(q, v) || v == e),
{
    if lists(q, v) {
        let k = choose|k: int| 0 <= k < q.len() && q[k] == v;
        assert(q.push(e)[k] == v);
    }
    if v == e {
        assert(q.push(e)[q.len() as int] == v);
    }
    if lists(q.push(e), v) {
        let k = choose|k: int| 0 <= k < q.push(e).len() && q.push(e)[k] == v;
        if k < q.len() {
            assert(q[k] == v);
        }
    }
}

/// Merges two ascending orders with no entry in common.
fn merge(s: &Vec<u8>, rotations: bool, left: &Vec<usize>, right: &Vec<usize>) -> (out: Vec<usize>)
    requires
        forall|k: int| 0 <= k < left@.len() ==> #[trigger] left@[k] < s@.len(),
        forall|k: int| 0 <= k < right@.len() ==> #[trigger] right@[k] < s@.len(),
        distinct(left@),
        distinct(right@),
        forall|a: int, b: int|
            0 <= a < left@.len() && 0 <= b < right@.len() ==> #[trigger] left@[a] != #[trigger] right@[b],
        ascending(s@, rotations, left@),
        ascending(s@, rotations, right@),
    ensures
        out@.len() == left@.len() + right@.len(),
        forall|k: int| 0 <= k < out@.len() ==> #[trigger] out@[k] < s@.len(),
        distinct(out@),
        forall|v: int| #[trigger] lists(out@, v) == (lists(left@, v) || lists(right@, v)),
        ascending(s@, rotations, out@),
{
    let nl = left.len();
    let nr = right.len();
    let mut out: Vec<usize> = Vec::new();
    let mut i: usize = 0;
    let mut j: usize = 0;
    let ghost mut from_left = true;
    while i < nl || j < nr
        invariant
            nl == left@.len(),
            nr == right@.len(),
            i <= nl,
            j <= nr,
            out@.len() == i + j,
            forall|k: int| 0 <= k < left@.len() ==> #[trigger] left@[k] < s@.len(),
            forall|k: int| 0 <= k < right@.len() ==> #[trigger] right@[k] < s@.len(),
            distinct(left@),
            distinct(right@),
            forall|a: int, b: int|
                0 <= a < left@.len() && 0 <= b < right@.len() ==> #[trigger] left@[a]
                    != #[trigger] right@[b],
            ascending(s@, rotations, left@),
            ascending(s@, rotations, right@),
            forall|k: int| 0 <= k < out@.len() ==> #[trigger] out@[k] < s@.len(),
            distinct(out@),
            forall|v: int|
                #[trigger] lists(out@, v) == (lists(left@.take(i as int), v) || lists(
                    right@.take(j as int),
                    v,
                )),
            ascending(s@, rotations, out@),
            out@.len() > 0 && from_left ==> i > 0 && out@.last() == left@[i - 1] && (j < nr
                ==> key_less(s@, rotations, left@[i - 1] as int, right@[j as int] as int)),
            out@.len() > 0 && !from_left ==> j > 0 && out@.last() == right@[j - 1] && (i < nl
                ==> key_less(s@, rotations, right@[j - 1] as int, left@[i as int] as int)),
        decreases nl + nr - i - j,
    {
        let ghost o = out@;
        let take_right = if i >= nl {
            true
        } else if j >= nr {
            false
        } else {
            key_less_exec(s, rotations, right[j], left[i])
        };
        if take_right {
            let e = right[j];
            proof {
                if i < nl {
                    assert(left@[i as int] != e);
                }
                assert(!lists(o, e as int)) by {
                    if lists(o, e as int) {
                        if lists(left@.take(i as int), e as int) {
                            let k = choose|k: int| 0 <= k < left@.take(i as int).len() && left@.take(i as int)[k] == e;
                            assert(left@[k] != right@[j as int]);
                        } else {
                            let k = choose|k: int| 0 <= k < right@.take(j as int).len() && right@.take(j as int)[k] == e;
                            assert(right@[k] != right@[j as int]);
                        }
                    }
                }
            }
            out.push(e);
            proof {
                assert(right@.take(j + 1) == right@.take(j as int).push(e));
                assert forall|v: int| #[trigger] lists(out@, v) == (lists(left@.take(i as int), v) || lists(right@.take(j + 1), v)) by {
                    lemma_lists_push(o, e, v);
                    lemma_lists_push(right@.take(j as int), e, v);
                }
                assert forall|a: int, b: int| 0 <= a < b < out@.len() implies #[trigger] out@[a] != #[trigger] out@[b] by {
                    if b == o.len() {
                        assert(o[a] != e) by {
                            if o[a] == e {
                                assert(lists(o, e as int));
                            }
                        }
                    } else {
                        assert(o[a] != o[b]);
                    }
                }
                if o.len() > 0 {
                    let k = o.len() - 1;
                    if from_left {
                        assert(key_less(s@, rotations, o[k] as int, e as int));
                    } else {
                        let jj = j - 1;
                        assert(key_less(s@, rotations, right@[jj] as int, right@[jj + 1] as int));
                    }
                    assert(key_less(s@, rotations, out@[k] as int, out@[k + 1] as int));
                }
                assert forall|k: int| 0 <= k < out@.len() - 1 implies #[trigger] key_less(s@, rotations, out@[k] as int, out@[k + 1] as int) by {
                    if k < o.len() - 1 {
                        assert(key_less(s@, rotations, o[k] as int, o[k + 1] as int));
                    }
                }
                from_left = false;
            }
            j += 1;
        } else {
            let e = left[i];
            proof {
                if j < nr {
                    assert(e != right@[j as int]);
                }
                assert(!lists(o, e as int)) by {
                    if lists(o, e as int) {
                        if lists(left@.take(i as int), e as int) {
                            let k = choose|k: int| 0 <= k < left@.take(i as int).len() && left@.take(i as int)[k] == e;
                            assert(left@[k] != left@[i as int]);
                        } else {
                            let k = choose|k: int| 0 <= k < right@.take(j as int).len() && right@.take(j as int)[k] == e;
                            assert(left@[i as int] != right@[k]);
                        }
                    }
                }
            }
            out.push(e);
            proof {
                assert(left@.take(i + 1) == left@.take(i as int).push(e));
                assert forall|v: int| #[trigger] lists(out@, v) == (lists(left@.take(i + 1), v) || lists(right@.take(j as int), v)) by {
                    lemma_lists_push(o, e, v);
                    lemma_lists_push(left@.take(i as int), e, v);
                }
                assert forall|a: int, b: int| 0 <= a < b < out@.len() implies #[trigger] out@[a] != #[trigger] out@[b] by {
                    if b == o.len() {
                        assert(o[a] != e) by {
                            if o[a] == e {
                                assert(lists(o, e as int));
                            }
                        }
                    } else {
                        assert(o[a] != o[b]);
                    }
                }
                if o.len() > 0 {
                    let k = o.len() - 1;
                    if from_left {
                        let ii = i - 1;
                        assert(key_less(s@, rotations, left@[ii] as int, left@[ii + 1] as int));
                    } else {
                        assert(key_less(s@, rotations, o[k] as int, e as int));
                    }
                    assert(key_less(s@, rotations, out@[k] as int, out@[k + 1] as int));
                }
                assert forall|k: int| 0 <= k < out@.len() - 1 implies #[trigger] key_less(s@, rotations, out@[k] as int, out@[k + 1] as int) by {
                    if k < o.len() - 1 {
                        assert(key_less(s@, rotations, o[k] as int, o[k + 1] as int));
                    }
                }
                from_left = true;
                if j < nr {
                    assert(key_less(s@, rotations, e as int, right@[j as int] as int));
                }
            }
            i += 1;
        }
    }
    assert(left@.take(nl as int) == left@);
    assert(right@.take(nr as int) == right@);
    out
}


fn copy_order(v: &Vec<usize>, from: usize, len: usize) -> (r: Vec<usize>)
    requires
        from + len <= v@.len(),
    ensures
        r@ == v@.subrange(from as int, from + len),
{
    let n = v.len();
    let mut r: Vec<usize> = Vec::new();
    let mut k: usize = 0;
    while k < len
        invariant
            n == v@.len(),
            k <= len,
            from + len <= n,
            r@ == v@.subrange(from as int, from + k),
        decreases len - k,
    {
        r.push(v[from + k]);
        k += 1;
        assert(r@ == v@.subrange(from as int, from + k));
    }
    r
}

/// `v` in ascending `key_less` order.
fn merge_sort(s: &Vec<u8>, rotations: bool, v: &Vec<usize>) -> (out: Vec<usize>)
    requires
        forall|k: int| 0 <= k < v@.len() ==> #[trigger] v@[k] < s@.len(),
        distinct(v@),
    ensures
        out@.len() == v@.len(),
        forall|k: int| 0 <= k < out@.len() ==> #[trigger] out@[k] < s@.len(),
        distinct(out@),
        forall|x: int| #[trigger] lists(out@, x) == lists(v@, x),
        ascending(s@, rotations, out@),
    decreases v@.len(),
{
    let n = v.len();
    if n <= 1 {
        let c = copy_order(v, 0, n);
        assert(c@ == v@);
        return c;
    }
    let mid = n / 2;
    let left = copy_order(v, 0, mid);
    let right = copy_order(v, mid, n - mid);
    let l = merge_sort(s, rotations, &left);
    let r = merge_sort(s, rotations, &right);
    proof {
        assert forall|a: int, b: int| 0 <= a < l@.len() && 0 <= b < r@.len() implies #[trigger] l@[a] != #[trigger] r@[b] by {
            assert(lists(l@, l@[a] as int));
            assert(lists(r@, r@[b] as int));
            if l@[a] == r@[b] {
                let ka = choose|k: int| 0 <= k < left@.len() && left@[k] == l@[a];
                let kb = choose|k: int| 0 <= k < right@.len() && right@[k] == r@[b];
                assert(v@[ka] == v@[mid + kb]);
            }
        }
    }
    let out = merge(s, rotations, &l, &r);
    proof {
        assert forall|x: int| #[trigger] lists(out@, x) == lists(v@, x) by {
            if lists(v@, x) {
                let k = choose|k: int| 0 <= k < v@.len() && v@[k] == x;
                if k < mid {
                    assert(left@[k] == x);
                    assert(lists(left@, x));
                } else {
                    assert(right@[k - mid] == x);
                    assert(lists(right@, x));
                }
            }
            if lists(left@, x) {
                let k = choose|k: int| 0 <= k < left@.len() && left@[k] == x;
                assert(v@[k] == x);
            }
            if lists(right@, x) {
                let k = choose|k: int| 0 <= k < right@.len() && right@[k] == x;
                assert(v@[mid + k] == x);
            }
        }
    }
    out
}

} // verus!
