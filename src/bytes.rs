use vstd::prelude::*;

verus! {

/// Two to the power `n`.
pub open spec fn pow2(n: nat) -> nat
    decreases n,
{
    if n == 0 {
        1
    } else {
        2 * pow2((n - 1) as nat)
    }
}

pub proof fn lemma_pow2_mono(k: nat, n: nat)
    requires
        k <= n,
    ensures
        pow2(k) <= pow2(n),
    decreases n,
{
    if k < n {
        lemma_pow2_mono(k, (n - 1) as nat);
    }
}

pub proof fn lemma_pow2_32()
    ensures
        pow2(32) == 0x1_0000_0000,
{
    reveal_with_fuel(pow2, 33);
}

/// The four little-endian bytes of `v`.
pub open spec fn le_bytes(v: u32) -> Seq<u8> {
    seq![
        (v % 256) as u8,
        ((v / 256) % 256) as u8,
        ((v / 65536) % 256) as u8,
        (v / 16777216) as u8,
    ]
}

/// The value of four little-endian bytes.
pub open spec fn le_value(s: Seq<u8>, at: int) -> u32 {
    (s[at] as int + 256 * s[at + 1] as int + 65536 * s[at + 2] as int + 16777216 * s[at
        + 3] as int) as u32
}

/// Reading back the bytes of a value gives the value.
pub proof fn lemma_le_round_trip(v: u32, s: Seq<u8>, at: int)
    requires
        0 <= at,
        at + 4 <= s.len(),
        s.subrange(at, at + 4) == le_bytes(v),
    ensures
        le_value(s, at) == v,
{
    assert(s[at] == le_bytes(v)[0]);
    assert(s[at + 1] == le_bytes(v)[1]);
    assert(s[at + 2] == le_bytes(v)[2]);
    assert(s[at + 3] == le_bytes(v)[3]);
    let x = v as int;
    assert(x == x % 256 + 256 * ((x / 256) % 256) + 65536 * ((x / 65536) % 256) + 16777216 * (x
        / 16777216)) by (nonlinear_arith)
        requires
            0 <= x < 0x1_0000_0000,
    ;
}

/// Appends the four little-endian bytes of `v`.
pub fn push_le(out: &mut Vec<u8>, v: u32)
    ensures
        final(out)@ == old(out)@ + le_bytes(v),
{
    out.push((v % 256) as u8);
    out.push(((v / 256) % 256) as u8);
    out.push(((v / 65536) % 256) as u8);
    out.push((v / 16777216) as u8);
    assert(final(out)@ == old(out)@ + le_bytes(v));
}

/// The little-endian value of the four bytes from `at`.
pub fn read_le(s: &[u8], at: usize) -> (r: u32)
    requires
        at + 4 <= s@.len(),
    ensures
        r == le_value(s@, at as int),
{
    let v: u64 = s[at] as u64 + 256 * (s[at + 1] as u64) + 65536 * (s[at + 2] as u64) + 16777216
        * (s[at + 3] as u64);
    v as u32
}

} // verus!
