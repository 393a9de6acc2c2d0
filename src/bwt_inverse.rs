use vstd::prelude::*;

use vstd::relations::injective_on;
use vstd::set_lib::{lemma_int_range, lemma_len_subset, lemma_map_size, set_int_range};

use vstd::arithmetic::div_mod::{lemma_mod_add_multiples_vanish, lemma_small_mod};

use crate::bwt::{
    block_decoded,
    block_encoded,
    blocks_decoded,
    blocks_encoded,
    byte_less,
    lemma_bwt_header,
    min,
    Bwt,
    covers,
    last_column,
    lists,
    rot,
    rot_agree,
    rot_less,
    sorted_rotations,
    stable_order,
    walk,
};
use crate::bwt_lemmas::{lemma_rot_less_transitive, lemma_sorted_global};
use crate::bytes::{le_value, lemma_pow2_mono, pow2};
use crate::coder::{CodecError, Coder};

verus! {

/// The rotation from `i` is smaller than the one from `j` as a string.
spec fn str_lt(blk: Seq<u8>, i: int, j: int) -> bool {
    exists|d: int|
        0 <= d < blk.len() && rot_agree(blk, i, j, d) && #[trigger] rot(blk, i, d) < rot(
            blk,
            j,
            d,
        )
}

/// The rotations from `i` and `j` are the same string.
spec fn same(blk: Seq<u8>, i: int, j: int) -> bool {
    rot_agree(blk, i, j, blk.len() as int)
}

proof fn lemma_first_diff(blk: Seq<u8>, i: int, j: int, e: int)
    requires
        0 <= e < blk.len(),
        rot(blk, i, e) != rot(blk, j, e),
    ensures
        exists|d: int| 0 <= d < blk.len() && rot_agree(blk, i, j, d) && rot(blk, i, d) != rot(blk, j, d),
    decreases e,
{
    if !rot_agree(blk, i, j, e) {
        let e2 = choose|e2: int| 0 <= e2 < e && !(#[trigger] rot(blk, i, e2) == rot(blk, j, e2));
        lemma_first_diff(blk, i, j, e2);
    }
}

proof fn lemma_trichotomy(blk: Seq<u8>, i: int, j: int)
    ensures
        str_lt(blk, i, j) || str_lt(blk, j, i) || same(blk, i, j),
{
    if !same(blk, i, j) {
        let e = choose|e: int| 0 <= e < blk.len() && !(#[trigger] rot(blk, i, e) == rot(blk, j, e));
        lemma_first_diff(blk, i, j, e);
        let d = choose|d: int| 0 <= d < blk.len() && rot_agree(blk, i, j, d) && rot(blk, i, d) != rot(blk, j, d);
        assert(rot_agree(blk, j, i, d));
        if rot(blk, i, d) < rot(blk, j, d) {
            assert(str_lt(blk, i, j));
        } else {
            assert(str_lt(blk, j, i));
        }
    }
}

proof fn lemma_str_lt_asym(blk: Seq<u8>, i: int, j: int)
    requires
        str_lt(blk, i, j),
    ensures
        !str_lt(blk, j, i),
        !same(blk, i, j),
        !same(blk, j, i),
{
    let d1 = choose|d: int| 0 <= d < blk.len() && rot_agree(blk, i, j, d) && #[trigger] rot(blk, i, d) < rot(blk, j, d);
    if str_lt(blk, j, i) {
        let d2 = choose|d: int| 0 <= d < blk.len() && rot_agree(blk, j, i, d) && #[trigger] rot(blk, j, d) < rot(blk, i, d);
        if d1 < d2 {
            assert(rot(blk, j, d1) == rot(blk, i, d1));
        } else if d2 < d1 {
            assert(rot(blk, i, d2) == rot(blk, j, d2));
        }
    }
    assert(!(rot(blk, i, d1) == rot(blk, j, d1)));
}

proof fn lemma_str_lt_trans(blk: Seq<u8>, i: int, j: int, k: int)
    requires
        str_lt(blk, i, j),
        str_lt(blk, j, k),
    ensures
        str_lt(blk, i, k),
{
    let n = blk.len() as int;
    let d1 = choose|d: int| 0 <= d < n && rot_agree(blk, i, j, d) && #[trigger] rot(blk, i, d) < rot(blk, j, d);
    let d2 = choose|d: int| 0 <= d < n && rot_agree(blk, j, k, d) && #[trigger] rot(blk, j, d) < rot(blk, k, d);
    if d1 <= d2 {
        assert(rot_agree(blk, i, k, d1));
        assert(rot(blk, i, d1) < rot(blk, k, d1));
    } else {
        assert(rot_agree(blk, i, k, d2));
        assert(rot(blk, i, d2) < rot(blk, k, d2));
    }
}

proof fn lemma_str_lt_same_right(blk: Seq<u8>, i: int, j: int, k: int)
    requires
        str_lt(blk, i, j),
        same(blk, j, k),
    ensures
        str_lt(blk, i, k),
{
    let d1 = choose|d: int| 0 <= d < blk.len() && rot_agree(blk, i, j, d) && #[trigger] rot(blk, i, d) < rot(blk, j, d);
    assert(rot_agree(blk, i, k, d1));
    assert(rot(blk, i, d1) < rot(blk, k, d1));
}

proof fn lemma_str_lt_same_left(blk: Seq<u8>, i: int, j: int, k: int)
    requires
        same(blk, i, j),
        str_lt(blk, j, k),
    ensures
        str_lt(blk, i, k),
{
    let d1 = choose|d: int| 0 <= d < blk.len() && rot_agree(blk, j, k, d) && #[trigger] rot(blk, j, d) < rot(blk, k, d);
    assert(rot_agree(blk, i, k, d1));
    assert(rot(blk, i, d1) < rot(blk, k, d1));
}

proof fn lemma_rot_less_str(blk: Seq<u8>, i: int, j: int)
    requires
        rot_less(blk, i, j),
    ensures
        str_lt(blk, i, j) || same(blk, i, j),
{
}

/// `s` lists rotations in non-decreasing string order.
spec fn str_sorted(blk: Seq<u8>, s: Seq<usize>) -> bool {
    forall|a: int, b: int| 0 <= a < b < s.len() ==> !str_lt(blk, #[trigger] s[b] as int, #[trigger] s[a] as int)
}

proof fn lemma_count_image(blk: Seq<u8>, p: Seq<usize>, x: int)
    requires
        covers(p, blk.len() as int),
    ensures
        Set::new(|m: int| 0 <= m < blk.len() && !str_lt(blk, x, p[m] as int)).finite(),
        Set::new(|m: int| 0 <= m < blk.len() && !str_lt(blk, x, p[m] as int)).len() == Set::new(
            |i: int| 0 <= i < blk.len() && !str_lt(blk, x, i),
        ).len(),
{
    let n = blk.len() as int;
    let a = Set::new(|m: int| 0 <= m < n && !str_lt(blk, x, p[m] as int));
    let i_set = Set::new(|i: int| 0 <= i < n && !str_lt(blk, x, i));
    let f = |m: int| p[m] as int;
    lemma_int_range(0, n);
    assert(a.subset_of(set_int_range(0, n)));
    lemma_len_subset(a, set_int_range(0, n));
    assert(injective_on(f, a)) by {
        assert forall|m1: int, m2: int| a.contains(m1) && a.contains(m2) && #[trigger] f(m1) == #[trigger] f(m2) implies m1 == m2 by {
            if m1 < m2 {
                assert(p[m1] != p[m2]);
            } else if m2 < m1 {
                assert(p[m2] != p[m1]);
            }
        }
    }
    assert(a.map(f) =~= i_set) by {
        assert forall|i: int| #[trigger] i_set.contains(i) implies a.map(f).contains(i) by {
            assert(lists(p, i));
            let m = choose|m: int| 0 <= m < p.len() && p[m] == i;
            assert(a.contains(m) && f(m) == i);
        }
    }
    lemma_map_size(a, i_set, f);
}

proof fn lemma_no_lower(blk: Seq<u8>, s: Seq<usize>, p: Seq<usize>, j: int)
    requires
        covers(s, blk.len() as int),
        covers(p, blk.len() as int),
        str_sorted(blk, s),
        str_sorted(blk, p),
        0 <= j < blk.len(),
    ensures
        !str_lt(blk, s[j] as int, p[j] as int),
{
    let n = blk.len() as int;
    let x = s[j] as int;
    if str_lt(blk, x, p[j] as int) {
        let a = Set::new(|m: int| 0 <= m < n && !str_lt(blk, x, p[m] as int));
        let b = Set::new(|m: int| 0 <= m < n && !str_lt(blk, x, s[m] as int));
        lemma_count_image(blk, p, x);
        lemma_count_image(blk, s, x);
        lemma_int_range(0, j);
        lemma_int_range(0, j + 1);
        assert(a.subset_of(set_int_range(0, j))) by {
            assert forall|m: int| #[trigger] a.contains(m) implies set_int_range(0, j).contains(m) by {
                if m >= j {
                    if m > j {
                        assert(!str_lt(blk, p[m] as int, p[j] as int));
                        lemma_trichotomy(blk, p[j] as int, p[m] as int);
                        if str_lt(blk, p[j] as int, p[m] as int) {
                            lemma_str_lt_trans(blk, x, p[j] as int, p[m] as int);
                        } else {
                            lemma_str_lt_same_right(blk, x, p[j] as int, p[m] as int);
                        }
                    }
                }
            }
        }
        lemma_len_subset(a, set_int_range(0, j));
        assert(set_int_range(0, j + 1).subset_of(b)) by {
            assert forall|m: int| #[trigger] set_int_range(0, j + 1).contains(m) implies b.contains(m) by {
                if m < j {
                    assert(!str_lt(blk, s[j] as int, s[m] as int));
                } else {
                    if str_lt(blk, x, x) {
                        lemma_str_lt_asym(blk, x, x);
                    }
                }
            }
        }
        lemma_len_subset(set_int_range(0, j + 1), b);
    }
}

/// Two orders of all rotations, both non-decreasing as strings, list the same
/// string at each position.
proof fn lemma_sorted_same(blk: Seq<u8>, s: Seq<usize>, p: Seq<usize>)
    requires
        covers(s, blk.len() as int),
        covers(p, blk.len() as int),
        str_sorted(blk, s),
        str_sorted(blk, p),
    ensures
        forall|j: int| 0 <= j < blk.len() ==> #[trigger] same(blk, s[j] as int, p[j] as int),
{
    assert forall|j: int| 0 <= j < blk.len() implies #[trigger] same(blk, s[j] as int, p[j] as int) by {
        lemma_no_lower(blk, s, p, j);
        lemma_no_lower(blk, p, s, j);
        lemma_trichotomy(blk, s[j] as int, p[j] as int);
    }
}

proof fn lemma_pred_mod(x: int, n: int)
    requires
        0 <= x < n,
    ensures
        (x + n - 1) % n == if x == 0 {
            n - 1
        } else {
            x - 1
        },
{
    if x == 0 {
        lemma_small_mod((n - 1) as nat, n as nat);
    } else {
        lemma_small_mod((x - 1) as nat, n as nat);
        lemma_mod_add_multiples_vanish(x - 1, n);
    }
}

/// The rotation from the position before `x`, shifted by one, is the rotation
/// from `x`.
proof fn lemma_rot_shift(blk: Seq<u8>, x: int, e: int)
    requires
        blk.len() >= 1,
        0 <= x < blk.len(),
        e >= 0,
    ensures
        rot(blk, (x + blk.len() - 1) % (blk.len() as int), e + 1) == rot(blk, x, e),
{
    let n = blk.len() as int;
    lemma_pred_mod(x, n);
    if x == 0 {
        lemma_mod_add_multiples_vanish(e, n);
        assert(n - 1 + e + 1 == n + e);
    } else {
        assert(x - 1 + e + 1 == x + e);
    }
}

/// The start of the rotation before each entry of the stable order.
spec fn preds(blk: Seq<u8>, p: Seq<usize>, f: Seq<usize>) -> Seq<usize> {
    Seq::new(
        blk.len(),
        |j: int| ((p[f[j] as int] + blk.len() - 1) % (blk.len() as int)) as usize,
    )
}

proof fn lemma_preds_cover(blk: Seq<u8>, p: Seq<usize>, f: Seq<usize>)
    requires
        blk.len() >= 1,
        covers(p, blk.len() as int),
        covers(f, blk.len() as int),
    ensures
        covers(preds(blk, p, f), blk.len() as int),
{
    let n = blk.len() as int;
    let s = preds(blk, p, f);
    assert(lists(p, n - 1));
    let top = choose|k: int| 0 <= k < p.len() && p[k] == n - 1;
    assert(n - 1 <= usize::MAX);
    assert forall|j: int| 0 <= j < n implies s[j] < n && s[j] as int == (if p[f[j] as int] == 0 {
        n - 1
    } else {
        p[f[j] as int] - 1
    }) by {
        assert(f[j] < n);
        assert(p[f[j] as int] < n);
        lemma_pred_mod(p[f[j] as int] as int, n);
    }
    assert forall|a: int, b: int| 0 <= a < b < n implies #[trigger] s[a] != #[trigger] s[b] by {
        assert(f[a] != f[b]);
        let fa = f[a] as int;
        let fb = f[b] as int;
        if fa < fb {
            assert(p[fa] != p[fb]);
        } else {
            assert(p[fb] != p[fa]);
        }
    }
    assert forall|v: int| 0 <= v < n implies #[trigger] lists(s, v) by {
        let x = if v == n - 1 {
            0
        } else {
            v + 1
        };
        assert(lists(p, x));
        let k = choose|k: int| 0 <= k < p.len() && p[k] == x;
        assert(lists(f, k));
        let j = choose|j: int| 0 <= j < f.len() && f[j] == k;
        assert(s[j] == v);
    }
}

proof fn lemma_rows_sorted(blk: Seq<u8>, p: Seq<usize>)
    requires
        sorted_rotations(blk, p),
    ensures
        str_sorted(blk, p),
        forall|a: int, b: int| 0 <= a < b < blk.len() ==> #[trigger] rot_less(blk, p[a] as int, p[b] as int),
{
    let n = blk.len() as int;
    let lt = |a: int, b: int| rot_less(blk, a, b);
    assert forall|x: int, y: int, z: int| #[trigger] lt(x, y) && #[trigger] lt(y, z) implies lt(x, z) by {
        lemma_rot_less_transitive(blk, x, y, z);
    }
    assert forall|k: int| 0 <= k < n - 1 implies #[trigger] lt(p[k] as int, p[k + 1] as int) by {
        assert(rot_less(blk, p[k] as int, p[k + 1] as int));
    }
    lemma_sorted_global(lt, n, p);
    assert forall|a: int, b: int| 0 <= a < b < n implies #[trigger] rot_less(blk, p[a] as int, p[b] as int) by {
        assert(lt(p[a] as int, p[b] as int));
    }
    assert forall|a: int, b: int| 0 <= a < b < p.len() implies !str_lt(blk, #[trigger] p[b] as int, #[trigger] p[a] as int) by {
        assert(lt(p[a] as int, p[b] as int));
        if str_lt(blk, p[b] as int, p[a] as int) {
            lemma_str_lt_asym(blk, p[b] as int, p[a] as int);
        }
    }
}

proof fn lemma_preds_sorted(blk: Seq<u8>, p: Seq<usize>, last: Seq<u8>, f: Seq<usize>)
    requires
        blk.len() >= 1,
        sorted_rotations(blk, p),
        last == last_column(blk, p),
        stable_order(last, f),
    ensures
        str_sorted(blk, preds(blk, p, f)),
{
    let n = blk.len() as int;
    let s = preds(blk, p, f);
    assert(lists(p, n - 1));
    let top = choose|k: int| 0 <= k < p.len() && p[k] == n - 1;
    assert(n - 1 <= usize::MAX);
    lemma_rows_sorted(blk, p);
    lemma_preds_cover(blk, p, f);
    let lt = |a: int, b: int| byte_less(last, a, b);
    assert forall|x: int, y: int, z: int| #[trigger] lt(x, y) && #[trigger] lt(y, z) implies lt(x, z) by {}
    assert forall|k: int| 0 <= k < n - 1 implies #[trigger] lt(f[k] as int, f[k + 1] as int) by {
        assert(byte_less(last, f[k] as int, f[k + 1] as int));
    }
    lemma_sorted_global(lt, n, f);
    assert forall|a: int, b: int| 0 <= a < b < s.len() implies !str_lt(blk, #[trigger] s[b] as int, #[trigger] s[a] as int) by {
        assert(lt(f[a] as int, f[b] as int));
        let fa = f[a] as int;
        let fb = f[b] as int;
        assert(fa < n && fb < n);
        let x = p[fa] as int;
        let y = p[fb] as int;
        assert(x < n && y < n);
        let u = s[a] as int;
        let w = s[b] as int;
        lemma_pred_mod(x, n);
        lemma_pred_mod(y, n);
        assert(u == (x + n - 1) % n);
        assert(w == (y + n - 1) % n);
        lemma_small_mod(u as nat, n as nat);
        lemma_small_mod(w as nat, n as nat);
        assert(rot(blk, u, 0) == last[fa]);
        assert(rot(blk, w, 0) == last[fb]);
        if last[fa] < last[fb] {
            assert(rot_agree(blk, u, w, 0));
            assert(str_lt(blk, u, w));
            lemma_str_lt_asym(blk, u, w);
        } else {
            assert(fa < fb);
            assert(rot_less(blk, x, y));
            if str_lt(blk, w, u) {
                let d = choose|d: int| 0 <= d < n && rot_agree(blk, w, u, d) && #[trigger] rot(blk, w, d) < rot(blk, u, d);
                assert(d >= 1);
                assert forall|e: int| 0 <= e < d - 1 implies #[trigger] rot(blk, y, e) == rot(blk, x, e) by {
                    lemma_rot_shift(blk, x, e);
                    lemma_rot_shift(blk, y, e);
                    assert(rot(blk, w, e + 1) == rot(blk, u, e + 1));
                }
                lemma_rot_shift(blk, x, d - 1);
                lemma_rot_shift(blk, y, d - 1);
                assert(rot_agree(blk, y, x, d - 1));
                assert(rot(blk, y, d - 1) < rot(blk, x, d - 1));
                assert(str_lt(blk, y, x));
                lemma_str_lt_asym(blk, y, x);
            }
        }
    }
}

/// The stable order of the last column leads from each row to the row of the
/// rotation one further on.
proof fn lemma_lf(blk: Seq<u8>, p: Seq<usize>, last: Seq<u8>, f: Seq<usize>, j: int)
    requires
        blk.len() >= 1,
        sorted_rotations(blk, p),
        last == last_column(blk, p),
        stable_order(last, f),
        0 <= j < blk.len(),
    ensures
        forall|e: int|
            0 <= e < blk.len() - 1 ==> #[trigger] rot(blk, p[f[j] as int] as int, e) == rot(
                blk,
                p[j] as int,
                e + 1,
            ),
        rot(blk, p[f[j] as int] as int, blk.len() - 1) == rot(blk, p[j] as int, 0),
{
    let n = blk.len() as int;
    let s = preds(blk, p, f);
    lemma_preds_cover(blk, p, f);
    lemma_preds_sorted(blk, p, last, f);
    lemma_rows_sorted(blk, p);
    lemma_sorted_same(blk, s, p);
    assert(same(blk, s[j] as int, p[j] as int));
    let x = p[f[j] as int] as int;
    assert(f[j] < n);
    assert(x < n);
    assert(lists(p, n - 1));
    let top = choose|k: int| 0 <= k < p.len() && p[k] == n - 1;
    lemma_pred_mod(x, n);
    let u = s[j] as int;
    assert(u == (x + n - 1) % n);
    assert forall|e: int| 0 <= e < n - 1 implies #[trigger] rot(blk, x, e) == rot(blk, p[j] as int, e + 1) by {
        lemma_rot_shift(blk, x, e);
        assert(rot(blk, u, e + 1) == rot(blk, p[j] as int, e + 1));
    }
    lemma_rot_shift(blk, x, n - 1);
    lemma_mod_add_multiples_vanish(u, n);
    assert(rot(blk, u, n) == rot(blk, u, 0));
    assert(rot(blk, u, 0) == rot(blk, p[j] as int, 0));
}

proof fn lemma_walk(
    blk: Seq<u8>,
    p: Seq<usize>,
    last: Seq<u8>,
    f: Seq<usize>,
    i: int,
    t: int,
    m: nat,
)
    requires
        blk.len() >= 1,
        sorted_rotations(blk, p),
        last == last_column(blk, p),
        stable_order(last, f),
        0 <= i < blk.len(),
        t >= 0,
        forall|e: int| 0 <= e < blk.len() ==> #[trigger] rot(blk, p[i] as int, e) == blk[(t + e) % (blk.len() as int)],
    ensures
        walk(last, f, i, m) == Seq::new(m, |s: int| blk[(t + s) % (blk.len() as int)]),
    decreases m,
{
    let n = blk.len() as int;
    if m > 0 {
        let k = f[i] as int;
        assert(k < n);
        lemma_lf(blk, p, last, f, i);
        assert(last[k] == rot(blk, p[k] as int, n - 1));
        assert(last[k] == blk[(t + 0) % n]);
        assert forall|e: int| 0 <= e < n implies #[trigger] rot(blk, p[k] as int, e) == blk[(t + 1 + e) % n] by {
            if e < n - 1 {
                assert(rot(blk, p[k] as int, e) == rot(blk, p[i] as int, e + 1));
            } else {
                lemma_mod_add_multiples_vanish(t, n);
                assert(t + 1 + e == n + t);
            }
        }
        lemma_walk(blk, p, last, f, k, t + 1, (m - 1) as nat);
        assert(walk(last, f, i, m) =~= Seq::new(m, |s: int| blk[(t + s) % n]));
    } else {
        assert(walk(last, f, i, m) =~= Seq::new(m, |s: int| blk[(t + s) % n]));
    }
}

/// Decoding the transform of a block gives the block back.
pub proof fn lemma_block_inverse(blk: Seq<u8>, row: int, last: Seq<u8>, o: Seq<u8>)
    requires
        block_encoded(blk, row, last),
        block_decoded(last, row, o),
    ensures
        o == blk,
{
    let n = blk.len() as int;
    let p = choose|p: Seq<usize>|
        sorted_rotations(blk, p) && 0 <= row < blk.len() && p[row] == 0 && last == last_column(blk, p);
    let f = choose|f: Seq<usize>| stable_order(last, f) && o == walk(last, f, row, last.len());
    assert forall|e: int| 0 <= e < n implies #[trigger] rot(blk, p[row] as int, e) == blk[(0 + e) % n] by {}
    lemma_walk(blk, p, last, f, row, 0, n as nat);
    assert forall|s: int| 0 <= s < n implies blk[(0 + s) % n] == #[trigger] blk[s] by {
        lemma_small_mod(s as nat, n as nat);
    }
    assert(o =~= blk);
}

proof fn lemma_blocks_inverse(
    bs: int,
    bl: int,
    x: Seq<u8>,
    z: Seq<u8>,
    acc: Seq<u8>,
    outs: Seq<Seq<u8>>,
    r: Result<Seq<u8>, CodecError>,
)
    requires
        bs >= 1,
        1 <= bl <= bs,
        bl == bs || x.len() <= bl,
        blocks_encoded(bs, x, z),
        blocks_decoded(bl, z, acc, outs, r),
    ensures
        r == Ok::<Seq<u8>, CodecError>(acc + x),
    decreases x.len(),
{
    if x.len() == 0 {
        assert(acc + x =~= acc);
    } else {
        let b = min(bs, x.len() as int);
        let row = le_value(z, 0) as int;
        let last = z.subrange(4, 4 + b);
        let rest = x.skip(b);
        assert(blocks_encoded(bs, rest, z.skip(4 + b)));
        if b == x.len() {
            assert(rest.len() == 0);
            assert(z.skip(4 + b).len() == 0);
            assert(z.len() == 4 + b);
        }
        assert(min(bl, z.len() - 4) == b);
        assert(0 <= row < b);
        lemma_block_inverse(x.take(b), row, last, outs[0]);
        lemma_blocks_inverse(bs, bl, rest, z.skip(4 + b), acc + outs[0], outs.drop_first(), r);
        assert(acc + outs[0] + rest =~= acc + x);
    }
}

/// Whatever the transform's `encode` returns for an input below `2^32` bytes,
/// every result its `decode` may give for it is that input.
pub proof fn lemma_bwt_round_trip(b: Bwt, x: Seq<u8>, y: Seq<u8>, r: Result<Seq<u8>, CodecError>)
    requires
        x.len() < 0x1_0000_0000,
        b.encodes(x, y),
        b.decodes(y, r),
    ensures
        r == Ok::<Seq<u8>, CodecError>(x),
{
    lemma_bwt_header(b, x, y);
    let bs = pow2(b.pow()) as int;
    lemma_pow2_mono(0, b.pow());
    let bl = le_value(y, 0) as int;
    let outs = choose|outs: Seq<Seq<u8>>| blocks_decoded(bl, y.skip(4), seq![], outs, r);
    if x.len() == 0 {
        assert(bl == 0);
        assert(r == Ok::<Seq<u8>, CodecError>(seq![]));
        assert(x =~= Seq::<u8>::empty());
    } else {
        lemma_blocks_inverse(bs, bl, x, y.skip(4), seq![], outs, r);
        assert(Seq::<u8>::empty() + x =~= x);
    }
}

} // verus!
