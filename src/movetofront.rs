use vstd::prelude::*;

use crate::coder::{result_view, CodecError, Coder};

verus! {

/// Move-to-front: each byte becomes its rank in a table that starts as the
/// identity and brings each byte seen to the front.
pub struct MoveToFront {}

/// The table every encode and decode starts from: `t[i] == i`.
pub open spec fn identity_table() -> Seq<u8> {
    Seq::new(256, |i: int| i as u8)
}

/// A table holds every byte value.
pub open spec fn full_table(t: Seq<u8>) -> bool {
    t.len() == 256 && forall|v: u8| #[trigger] t.contains(v)
}

/// Moves the entry at rank `k` to the front, shifting those before it back by one.
pub open spec fn promote(t: Seq<u8>, k: int) -> Seq<u8> {
    seq![t[k]] + t.subrange(0, k) + t.subrange(k + 1, t.len() as int)
}

/// The first rank at which `b` stands in `t`.
pub open spec fn rank_of(t: Seq<u8>, b: u8) -> int
    decreases t.len(),
{
    if t.len() == 0 {
        0
    } else if t[0] == b {
        0
    } else {
        1 + rank_of(t.drop_first(), b)
    }
}

/// The ranks that encoding `x` emits, starting from table `t`.
pub open spec fn mtf_encode_from(t: Seq<u8>, x: Seq<u8>) -> Seq<u8>
    decreases x.len(),
{
    if x.len() == 0 {
        seq![]
    } else {
        let k = rank_of(t, x[0]);
        seq![k as u8] + mtf_encode_from(promote(t, k), x.drop_first())
    }
}

/// The bytes that decoding the ranks `y` emits, starting from table `t`.
pub open spec fn mtf_decode_from(t: Seq<u8>, y: Seq<u8>) -> Seq<u8>
    decreases y.len(),
{
    if y.len() == 0 {
        seq![]
    } else {
        let k = y[0] as int;
        seq![t[k]] + mtf_decode_from(promote(t, k), y.drop_first())
    }
}

pub open spec fn mtf_encode(x: Seq<u8>) -> Seq<u8> {
    mtf_encode_from(identity_table(), x)
}

pub open spec fn mtf_decode(y: Seq<u8>) -> Seq<u8> {
    mtf_decode_from(identity_table(), y)
}

proof fn lemma_identity_full()
    ensures
        full_table(identity_table()),
{
    let t = identity_table();
    assert forall|v: u8| #[trigger] t.contains(v) by {
        assert(t[v as int] == v);
    }
}

proof fn lemma_rank_found(t: Seq<u8>, b: u8)
    requires
        t.contains(b),
    ensures
        0 <= rank_of(t, b) < t.len(),
        t[rank_of(t, b)] == b,
    decreases t.len(),
{
    if t[0] != b {
        let j = choose|j: int| 0 <= j < t.len() && t[j] == b;
        assert(t.drop_first()[j - 1] == b);
        lemma_rank_found(t.drop_first(), b);
    }
}

proof fn lemma_rank_first(t: Seq<u8>, b: u8, k: int)
    requires
        0 <= k < t.len(),
        t[k] == b,
        forall|j: int| 0 <= j < k ==> t[j] != b,
    ensures
        rank_of(t, b) == k,
    decreases k,
{
    if k > 0 {
        assert forall|j: int| 0 <= j < k - 1 implies t.drop_first()[j] != b by {
            assert(t[j + 1] != b);
        }
        lemma_rank_first(t.drop_first(), b, k - 1);
    }
}

proof fn lemma_promote_full(t: Seq<u8>, k: int)
    requires
        full_table(t),
        0 <= k < 256,
    ensures
        full_table(promote(t, k)),
{
    let p = promote(t, k);
    assert forall|v: u8| #[trigger] p.contains(v) by {
        assert(t.contains(v));
        let j = choose|j: int| 0 <= j < t.len() && t[j] == v;
        if j < k {
            assert(p[j + 1] == v);
        } else if j == k {
            assert(p[0] == v);
        } else {
            assert(p[j] == v);
        }
    }
}

/// Encoding keeps the length.
pub proof fn lemma_mtf_length(t: Seq<u8>, x: Seq<u8>)
    ensures
        mtf_encode_from(t, x).len() == x.len(),
    decreases x.len(),
{
    if x.len() > 0 {
        lemma_mtf_length(promote(t, rank_of(t, x[0])), x.drop_first());
    }
}

proof fn lemma_mtf_round_trip_from(t: Seq<u8>, x: Seq<u8>)
    requires
        full_table(t),
    ensures
        mtf_decode_from(t, mtf_encode_from(t, x)) == x,
    decreases x.len(),
{
    if x.len() > 0 {
        let k = rank_of(t, x[0]);
        lemma_rank_found(t, x[0]);
        lemma_promote_full(t, k);
        lemma_mtf_round_trip_from(promote(t, k), x.drop_first());
        let y = mtf_encode_from(t, x);
        let rest = mtf_encode_from(promote(t, k), x.drop_first());
        assert(y[0] as int == k);
        assert(y.drop_first() == rest);
        assert(x == seq![x[0]] + x.drop_first());
    }
}

/// Decoding the move-to-front encoding of any byte sequence gives it back.
pub proof fn lemma_mtf_round_trip(x: Seq<u8>)
    ensures
        mtf_decode(mtf_encode(x)) == x,
        mtf_encode(x).len() == x.len(),
{
    lemma_identity_full();
    lemma_mtf_round_trip_from(identity_table(), x);
    lemma_mtf_length(identity_table(), x);
}

/// The identity table of the 256 byte values.
pub fn get_list() -> (r: Vec<u8>)
    ensures
        r@ == identity_table(),
{
    let mut list: Vec<u8> = Vec::new();
    let mut i: usize = 0;
    while i < 256
        invariant
            i <= 256,
            list@.len() == i,
            forall|j: int| 0 <= j < i ==> list@[j] == j as u8,
        decreases 256 - i,
    {
        list.push(i as u8);
        i += 1;
    }
    assert(list@ == identity_table());
    list
}

/// Moves the entry at rank `k` to the front of the table.
fn promote_in_place(t: &mut Vec<u8>, k: usize)
    requires
        k < old(t)@.len(),
    ensures
        final(t)@ == promote(old(t)@, k as int),
{
    let b = t[k];
    let mut i: usize = k;
    while i > 0
        invariant
            i <= k < t@.len(),
            t@.len() == old(t)@.len(),
            b == old(t)@[k as int],
            forall|j: int| 0 <= j <= i ==> t@[j] == old(t)@[j],
            forall|j: int| i < j <= k ==> t@[j] == old(t)@[j - 1],
            forall|j: int| k < j < t@.len() ==> t@[j] == old(t)@[j],
        decreases i,
    {
        let prev = t[i - 1];
        t.set(i, prev);
        i -= 1;
    }
    t.set(0, b);
    assert(t@ == promote(old(t)@, k as int));
}

/// The rank of `b` in a full table.
fn find_rank(t: &Vec<u8>, b: u8) -> (k: usize)
    requires
        full_table(t@),
    ensures
        k == rank_of(t@, b),
        k < 256,
        t@[k as int] == b,
{
    let mut k: usize = 0;
    while k < 256 && t[k] != b
        invariant
            k <= 256,
            t@.len() == 256,
            forall|j: int| 0 <= j < k ==> t@[j] != b,
        decreases 256 - k,
    {
        k += 1;
    }
    proof {
        if k == 256 {
            assert(t@.contains(b));
            let j = choose|j: int| 0 <= j < t@.len() && t@[j] == b;
            assert(t@[j] != b);
        }
        lemma_rank_first(t@, b, k as int);
    }
    k
}

impl MoveToFront {
    /// Move-to-front encoding of `input`: one rank per byte.
    pub fn encode_bytes(input: &[u8]) -> (r: Vec<u8>)
        ensures
            r@ == mtf_encode(input@),
            r@.len() == input@.len(),
    {
        let mut t = get_list();
        let mut out: Vec<u8> = Vec::new();
        let n = input.len();
        let mut i: usize = 0;
        proof {
            lemma_identity_full();
            assert(input@.subrange(0, n as int) == input@);
        }
        while i < n
            invariant
                n == input@.len(),
                i <= n,
                full_table(t@),
                out@ + mtf_encode_from(t@, input@.subrange(i as int, n as int)) == mtf_encode(
                    input@,
                ),
            decreases n - i,
        {
            let b = input[i];
            let k = find_rank(&t, b);
            let ghost rest = input@.subrange(i as int, n as int);
            let ghost t0 = t@;
            assert(rest.drop_first() == input@.subrange(i + 1, n as int));
            assert(rest[0] == b);
            out.push(k as u8);
            promote_in_place(&mut t, k);
            proof {
                lemma_promote_full(t0, k as int);
                assert(out@ + mtf_encode_from(t@, input@.subrange(i + 1, n as int)) == mtf_encode(
                    input@,
                ));
            }
            i += 1;
        }
        assert(mtf_encode_from(t@, input@.subrange(n as int, n as int)) == Seq::<u8>::empty());
        assert(out@ == mtf_encode(input@));
        proof {
            lemma_mtf_length(identity_table(), input@);
        }
        out
    }

    /// Move-to-front decoding of the ranks `input`.
    pub fn decode_bytes(input: &[u8]) -> (r: Vec<u8>)
        ensures
            r@ == mtf_decode(input@),
    {
        let mut t = get_list();
        let mut out: Vec<u8> = Vec::new();
        let n = input.len();
        let mut i: usize = 0;
        proof {
            assert(input@.subrange(0, n as int) == input@);
        }
        while i < n
            invariant
                n == input@.len(),
                i <= n,
                t@.len() == 256,
                out@ + mtf_decode_from(t@, input@.subrange(i as int, n as int)) == mtf_decode(
                    input@,
                ),
            decreases n - i,
        {
            let k = input[i] as usize;
            let ghost rest = input@.subrange(i as int, n as int);
            assert(rest.drop_first() == input@.subrange(i + 1, n as int));
            assert(rest[0] as int == k);
            out.push(t[k]);
            promote_in_place(&mut t, k);
            i += 1;
        }
        assert(mtf_decode_from(t@, input@.subrange(n as int, n as int)) == Seq::<u8>::empty());
        assert(out@ == mtf_decode(input@));
        out
    }
}

impl Coder for MoveToFront {
    open spec fn standard() -> Self {
        MoveToFront {  }
    }

    open spec fn encodes(&self, input: Seq<u8>, output: Seq<u8>) -> bool {
        output == mtf_encode(input)
    }

    open spec fn decodes(&self, input: Seq<u8>, r: Result<Seq<u8>, CodecError>) -> bool {
        r == Ok::<Seq<u8>, CodecError>(mtf_decode(input))
    }

    fn encode(input: &[u8]) -> (r: Result<Vec<u8>, CodecError>) {
        Ok(MoveToFront::encode_bytes(input))
    }

    fn decode(input: &[u8]) -> (r: Result<Vec<u8>, CodecError>) {
        Ok(MoveToFront::decode_bytes(input))
    }

    fn encode_s(&self, input: &[u8]) -> (r: Result<Vec<u8>, CodecError>) {
        Ok(MoveToFront::encode_bytes(input))
    }

    fn decode_s(&self, input: &[u8]) -> (r: Result<Vec<u8>, CodecError>) {
        Ok(MoveToFront::decode_bytes(input))
    }
}

/// Whatever the codec's `encode` returns for `x`, its `decode` maps back to `x`,
/// and the encoding is as long as `x`.
pub proof fn lemma_mtf_codec_round_trip(x: Seq<u8>, y: Seq<u8>)
    requires
        (MoveToFront {  }).encodes(x, y),
    ensures
        (MoveToFront {  }).decodes(y, Ok(x)),
        y.len() == x.len(),
{
    lemma_mtf_round_trip(x);
}

/// Encoding is a function of the input: two encodings of one input are equal.
pub proof fn lemma_mtf_deterministic(x: Seq<u8>, y1: Seq<u8>, y2: Seq<u8>)
    requires
        (MoveToFront {  }).encodes(x, y1),
        (MoveToFront {  }).encodes(x, y2),
    ensures
        y1 == y2,
{
}

/// The empty input encodes and decodes to the empty sequence.
pub proof fn lemma_mtf_empty()
    ensures
        mtf_encode(Seq::empty()) == Seq::<u8>::empty(),
        mtf_decode(Seq::empty()) == Seq::<u8>::empty(),
{
}

} // verus!
