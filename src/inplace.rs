//! In-place transposes after Gustavson and Walker's swap-based method: the
//! matrix is cut into square panels, which unshuffle and shuffle move into
//! place around square transposes, and a sub-problem that fits the
//! workspace is transposed out of place.
use vstd::prelude::*;
use crate::outofplace::{at, done, is_transpose, lemma_index_bounds, lemma_index_injective, region_done, transpose_from};

verus! {

/// Cell `(i, j)` of an `n x n` matrix has been swapped with `(j, i)` once
/// the columns before `c`, and the cells of row and column `c` before `r`,
/// have been handled.
pub open spec fn swapped(i: int, j: int, c: int, r: int) -> bool {
    i < c || j < c || (i == c && c < j < r) || (j == c && c < i < r)
}

/// Element `(r, c)` of the matrix of width `w` that starts at `off` in `s`.
pub open spec fn at_from<T>(s: Seq<T>, off: int, r: int, c: int, w: int) -> T {
    s[off + r * w + c]
}

/// `v` holds `o` with exactly the swapped cells of the `n x n` matrix at
/// `off` transposed, and everything outside that matrix unchanged.
pub open spec fn square_progress<T>(o: Seq<T>, v: Seq<T>, off: int, n: int, c: int, r: int) -> bool {
    &&& v.len() == o.len()
    &&& forall|k: int| 0 <= k < v.len() && !(off <= k < off + n * n) ==> #[trigger] v[k] == o[k]
    &&& forall|i: int, j: int|
        0 <= i < n && 0 <= j < n ==> (if swapped(i, j, c, r) {
            #[trigger] at_from(v, off, i, j, n) == at_from(o, off, j, i, n)
        } else {
            at_from(v, off, i, j, n) == at_from(o, off, i, j, n)
        })
}

/// Swaps the elements at `i` and `j`.
fn swap_at<T: Copy>(v: &mut Vec<T>, i: usize, j: usize)
    requires
        i < old(v)@.len(),
        j < old(v)@.len(),
    ensures
        final(v)@ == old(v)@.update(i as int, old(v)@[j as int]).update(j as int, old(v)@[i as int]),
        final(v)@.to_multiset() == old(v)@.to_multiset(),
{
    let ghost o = v@;
    let a = v[i];
    let b = v[j];
    v[i] = b;
    v[j] = a;
    proof {
        broadcast use vstd::seq_lib::group_to_multiset_ensures, vstd::multiset::group_multiset_axioms;

        let s1 = o.update(i as int, o[j as int]);
        if i != j {
            let m0 = o.to_multiset();
            assert(o.contains(o[i as int]));
            assert(m0.count(o[i as int]) > 0);
            assert(s1[j as int] == o[j as int]);
            assert(s1.to_multiset() == m0.insert(o[j as int]).remove(o[i as int]));
            assert(v@ == s1.update(j as int, o[i as int]));
            assert(v@.to_multiset() == s1.to_multiset().insert(o[i as int]).remove(o[j as int]));
            assert(m0.insert(o[j as int]).remove(o[i as int]).insert(o[i as int]).remove(o[j as int]) =~= m0);
        } else {
            assert(v@ =~= o);
        }
    }
}

/// In-place transpose of the square `n x n` matrix `src`: each element
/// below the diagonal is swapped with its mirror image.
pub fn square_transpose<T: Copy>(src: &mut Vec<T>, n: usize)
    requires
        old(src)@.len() == n * n,
    ensures
        is_transpose(old(src)@, final(src)@, n as int, n as int),
{
    let ghost o = src@;
    square_transpose_at(src, 0, n);
    proof {
        assert forall|r: int, c: int| 0 <= r < n && 0 <= c < n implies #[trigger] at(
            src@,
            c,
            r,
            n as int,
        ) == at(o, r, c, n as int) by {
            assert(at_from(src@, 0, c, r, n as int) == at_from(o, 0, r, c, n as int));
        }
    }
}

/// In-place transpose of the square `n x n` matrix that starts at `off`.
fn square_transpose_at<T: Copy>(src: &mut Vec<T>, off: usize, n: usize)
    requires
        off + n * n <= old(src)@.len(),
    ensures
        final(src)@.to_multiset() == old(src)@.to_multiset(),
        final(src)@.len() == old(src)@.len(),
        forall|k: int|
            0 <= k < old(src)@.len() && !(off <= k < off + n * n) ==> #[trigger] final(src)@[k]
                == old(src)@[k],
        forall|i: int, j: int|
            0 <= i < n && 0 <= j < n ==> #[trigger] at_from(final(src)@, off as int, i, j, n as int)
                == at_from(old(src)@, off as int, j, i, n as int),
        is_transpose_at(old(src)@, final(src)@, off as int, n as int, n as int),
{
    let ghost o = src@;
    let ghost ni = n as int;
    let len = src.len();
    let mut c: usize = 0;
    while c < n
        invariant
            c <= n,
            ni == n,
            len == src@.len(),
            off + n * n <= o.len(),
            square_progress(o, src@, off as int, ni, c as int, c + 1),
            src@.to_multiset() == o.to_multiset(),
        decreases n - c,
    {
        let mut r: usize = c + 1;
        while r < n
            invariant
                c < n,
                c < r <= n,
                ni == n,
                len == src@.len(),
                off + n * n <= o.len(),
                square_progress(o, src@, off as int, ni, c as int, r as int),
                src@.to_multiset() == o.to_multiset(),
            decreases n - r,
        {
            proof {
                lemma_index_bounds(r as int, c as int, ni, ni);
            }
            let i = off + r * n + c;
            let j = off + c * n + r;
            let ghost v0 = src@;
            proof {
                if i == j {
                    lemma_index_injective(c as int, r as int, r as int, c as int, ni);
                }
                assert(at_from(v0, off as int, r as int, c as int, ni) == at_from(o, off as int, r as int, c as int, ni));
                assert(at_from(v0, off as int, c as int, r as int, ni) == at_from(o, off as int, c as int, r as int, ni));
            }
            swap_at(src, i, j);
            proof {
                assert forall|a: int, b: int| 0 <= a < ni && 0 <= b < ni implies (if swapped(
                    a,
                    b,
                    c as int,
                    r + 1,
                ) {
                    #[trigger] at_from(src@, off as int, a, b, ni) == at_from(o, off as int, b, a, ni)
                } else {
                    at_from(src@, off as int, a, b, ni) == at_from(o, off as int, a, b, ni)
                }) by {
                    lemma_index_bounds(a, b, ni, ni);
                    assert(at_from(v0, off as int, a, b, ni) == at_from(v0, off as int, a, b, ni));
                    if off + a * ni + b == i as int {
                        lemma_index_injective(b, a, c as int, r as int, ni);
                        assert(at_from(src@, off as int, a, b, ni) == v0[j as int]);
                        assert(v0[j as int] == at_from(v0, off as int, c as int, r as int, ni));
                    } else if off + a * ni + b == j as int {
                        lemma_index_injective(b, a, r as int, c as int, ni);
                        assert(at_from(src@, off as int, a, b, ni) == v0[i as int]);
                        assert(v0[i as int] == at_from(v0, off as int, r as int, c as int, ni));
                    } else {
                        assert(at_from(src@, off as int, a, b, ni) == at_from(v0, off as int, a, b, ni));
                        assert(swapped(a, b, c as int, r + 1) == swapped(a, b, c as int, r as int));
                    }
                    assert(at_from(v0, off as int, r as int, c as int, ni) == at_from(v0, off as int, r as int, c as int, ni));
                    assert(at_from(v0, off as int, c as int, r as int, ni) == at_from(v0, off as int, c as int, r as int, ni));
                }
            }
            r = r + 1;
        }
        proof {
            assert forall|a: int, b: int| 0 <= a < ni && 0 <= b < ni implies (if swapped(
                a,
                b,
                c + 1,
                c + 2,
            ) {
                #[trigger] at_from(src@, off as int, a, b, ni) == at_from(o, off as int, b, a, ni)
            } else {
                at_from(src@, off as int, a, b, ni) == at_from(o, off as int, a, b, ni)
            }) by {
                assert(at_from(src@, off as int, a, b, ni) == at_from(src@, off as int, a, b, ni));
            }
        }
        c = c + 1;
    }
    proof {
        assert forall|a: int, b: int| 0 <= a < ni && 0 <= b < ni implies #[trigger] at_from(
            src@,
            off as int,
            b,
            a,
            ni,
        ) == at_from(o, off as int, a, b, ni) by {
            assert(at_from(src@, off as int, b, a, ni) == at_from(src@, off as int, b, a, ni));
        }
    }
}

/// `x` is a power of two.
pub open spec fn is_pow2(x: int) -> bool
    decreases x,
{
    if x <= 0 {
        false
    } else if x == 1 {
        true
    } else {
        x % 2 == 0 && is_pow2(x / 2)
    }
}

/// The largest power of two below `m`; 4 for `m == 7`, 4 for `m == 8`.
pub fn largest_power_of_two(m: usize) -> (r: usize)
    requires
        m >= 2,
    ensures
        is_pow2(r as int),
        r < m <= 2 * r,
{
    let mut p: usize = 1;
    while p <= (m - 1) / 2
        invariant
            m >= 2,
            1 <= p < m,
            is_pow2(p as int),
        decreases m - p,
    {
        assert(is_pow2(2 * p as int));
        p = p * 2;
    }
    p
}

/// Facts on splitting `m` pairs of blocks at `m1`.
proof fn lemma_pairs_split(la: int, lb: int, m: int, m1: int)
    requires
        0 <= la,
        0 <= lb,
        0 <= m1 <= m,
    ensures
        (la + lb) * m1 + (la + lb) * (m - m1) == (la + lb) * m,
        la * m1 + lb * m1 == (la + lb) * m1,
        0 <= la * (m - m1) <= (la + lb) * (m - m1),
        0 <= lb * m1,
        0 <= (la + lb) * m1,
        1 <= m ==> la + lb <= (la + lb) * m,
        la * m1 <= (la + lb) * m1,
{
    assert(1 <= m ==> la + lb <= (la + lb) * m) by (nonlinear_arith)
        requires
            0 <= la + lb,
    ;
    assert(la * m1 <= (la + lb) * m1) by (nonlinear_arith)
        requires
            0 <= lb,
            0 <= m1,
    ;
    assert((la + lb) * m1 + (la + lb) * (m - m1) == (la + lb) * m) by (nonlinear_arith);
    assert(la * m1 + lb * m1 == (la + lb) * m1) by (nonlinear_arith);
    assert(0 <= la * (m - m1) <= (la + lb) * (m - m1)) by (nonlinear_arith)
        requires
            0 <= la,
            0 <= lb,
            m1 <= m,
    ;
    assert(0 <= lb * m1) by (nonlinear_arith)
        requires
            0 <= lb,
            0 <= m1,
    ;
    assert(0 <= (la + lb) * m1) by (nonlinear_arith)
        requires
            0 <= la + lb,
            0 <= m1,
    ;
}

/// What stands at `k` once the block of `p` elements at `off` in `o` has
/// been exchanged with the block of `q` elements after it.
pub open spec fn exchanged_at<T>(o: Seq<T>, off: int, p: int, q: int, k: int) -> T {
    if off <= k < off + q {
        o[k + p]
    } else if off + q <= k < off + p + q {
        o[k - q]
    } else {
        o[k]
    }
}

/// What stands at `k` once the first `i` elements of the blocks at `a` and
/// at `b` have been swapped one for one.
pub open spec fn swapped_runs_at<T>(o: Seq<T>, a: int, b: int, i: int, k: int) -> T {
    if a <= k < a + i {
        o[k + (b - a)]
    } else if b <= k < b + i {
        o[k - (b - a)]
    } else {
        o[k]
    }
}

/// Swaps the `n` elements from `a` on, one for one, with the `n` elements
/// from `b` on; the two runs do not overlap.
fn swap_runs<T: Copy>(v: &mut Vec<T>, a: usize, b: usize, n: usize)
    requires
        a + n <= b,
        b + n <= old(v)@.len(),
    ensures
        final(v)@.to_multiset() == old(v)@.to_multiset(),
        final(v)@.len() == old(v)@.len(),
        forall|k: int|
            0 <= k < old(v)@.len() ==> #[trigger] final(v)@[k] == swapped_runs_at(
                old(v)@,
                a as int,
                b as int,
                n as int,
                k,
            ),
{
    let ghost o = v@;
    let len = v.len();
    let mut i: usize = 0;
    while i < n
        invariant
            i <= n,
            a + n <= b,
            b + n <= len,
            len == v@.len(),
            o.len() == len,
            v@.to_multiset() == o.to_multiset(),
            forall|k: int|
                0 <= k < len ==> #[trigger] v@[k] == swapped_runs_at(o, a as int, b as int, i as int, k),
        decreases n - i,
    {
        swap_at(v, a + i, b + i);
        i = i + 1;
    }
}

/// Exchanges the block of `p` elements at `off` with the block of `q`
/// elements that follows it, by swaps alone: `a1..ap b1..bq` becomes
/// `b1..bq a1..ap`.
pub fn exchange<T: Copy>(v: &mut Vec<T>, off: usize, p: usize, q: usize)
    requires
        off + p + q <= old(v)@.len(),
    ensures
        final(v)@.to_multiset() == old(v)@.to_multiset(),
        final(v)@.len() == old(v)@.len(),
        forall|k: int|
            0 <= k < old(v)@.len() ==> #[trigger] final(v)@[k] == exchanged_at(
                old(v)@,
                off as int,
                p as int,
                q as int,
                k,
            ),
    decreases p + q,
{
    let ghost o = v@;
    if p == 0 || q == 0 {
        assert(v@ =~= v@);
        return;
    }
    let len = v.len();
    assert(off + p + q <= len);
    if p >= q {
        swap_runs(v, off, off + p, q);
        if p != q {
            let ghost mid = v@;
            exchange(v, off + q, p - q, q);
            assert forall|k: int| 0 <= k < o.len() implies #[trigger] v@[k] == exchanged_at(
                o,
                off as int,
                p as int,
                q as int,
                k,
            ) by {
                assert(v@[k] == exchanged_at(mid, off + q, p - q, q as int, k));
                if off + q <= k < off + p + q {
                    if k < off + 2 * q {
                        assert(mid[k + p - q] == swapped_runs_at(o, off as int, off + p, q as int, k + p - q));
                    } else {
                        assert(mid[k - q] == swapped_runs_at(o, off as int, off + p, q as int, k - q));
                    }
                } else {
                    assert(mid[k] == swapped_runs_at(o, off as int, off + p, q as int, k));
                }
            }
        }
    } else {
        swap_runs(v, off, off + q, p);
        let ghost mid = v@;
        exchange(v, off, p, q - p);
        assert forall|k: int| 0 <= k < o.len() implies #[trigger] v@[k] == exchanged_at(
            o,
            off as int,
            p as int,
            q as int,
            k,
        ) by {
            assert(v@[k] == exchanged_at(mid, off as int, p as int, q - p, k));
            if off <= k < off + q {
                if k < off + q - p {
                    assert(mid[k + p] == swapped_runs_at(o, off as int, off + q, p as int, k + p));
                } else {
                    assert(mid[k - (q - p)] == swapped_runs_at(o, off as int, off + q, p as int, k - (q - p)));
                }
            } else {
                assert(mid[k] == swapped_runs_at(o, off as int, off + q, p as int, k));
            }
        }
    }
}

/// Element `t` of pair `i`, where `m` pairs of blocks of lengths `la` and
/// `lb` stand one after the other from `off` on.
pub open spec fn pair_at<T>(s: Seq<T>, off: int, la: int, lb: int, i: int, t: int) -> T {
    s[off + i * (la + lb) + t]
}

/// Element `t` of pair `i` once the pairs are separated: the `m` blocks of
/// length `la` first, then the `m` blocks of length `lb`.
pub open spec fn split_at<T>(s: Seq<T>, off: int, la: int, lb: int, m: int, i: int, t: int) -> T {
    if t < la {
        s[off + i * la + t]
    } else {
        s[off + m * la + i * lb + (t - la)]
    }
}

/// Where element `t` of pair `i` stands, in either layout, inside the `m`
/// pairs.
proof fn lemma_pair_places(la: int, lb: int, m: int, i: int, t: int)
    requires
        0 <= la,
        0 <= lb,
        0 <= i < m,
        0 <= t < la + lb,
    ensures
        0 <= i * (la + lb) + t < (la + lb) * m,
        t < la ==> 0 <= i * la + t < la * m,
        la <= t ==> la * m <= m * la + i * lb + (t - la) < (la + lb) * m,
{
    assert(0 <= i * (la + lb) + t < (la + lb) * m) by (nonlinear_arith)
        requires
            0 <= la,
            0 <= lb,
            0 <= i < m,
            0 <= t < la + lb,
    ;
    assert(t < la ==> 0 <= i * la + t < la * m) by (nonlinear_arith)
        requires
            0 <= la,
            0 <= i < m,
            0 <= t,
    ;
    assert(la <= t ==> la * m <= m * la + i * lb + (t - la) < (la + lb) * m) by (nonlinear_arith)
        requires
            0 <= lb,
            0 <= i < m,
            t < la + lb,
    ;
}

/// How the places of pair `i` relate once the pairs are cut at `m1`.
proof fn lemma_cut_places(la: int, lb: int, m: int, m1: int, i: int)
    requires
        0 <= la,
        0 <= lb,
        0 <= m1 <= m,
        0 <= i,
    ensures
        (la + lb) * m1 == la * m1 + lb * m1,
        la * m1 + la * (m - m1) == la * m,
        m1 <= i ==> i * la == la * m1 + (i - m1) * la,
        m1 <= i ==> i * lb == lb * m1 + (i - m1) * lb,
        m1 <= i ==> i * (la + lb) == (la + lb) * m1 + (i - m1) * (la + lb),
        m * la == la * m,
        (m - m1) * la == la * (m - m1),
        0 <= la * m1,
        0 <= lb * m1,
        0 <= la * (m - m1),
{
    assert((la + lb) * m1 == la * m1 + lb * m1) by (nonlinear_arith);
    assert(la * m1 + la * (m - m1) == la * m) by (nonlinear_arith);
    assert(m1 <= i ==> i * la == la * m1 + (i - m1) * la) by (nonlinear_arith);
    assert(m1 <= i ==> i * lb == lb * m1 + (i - m1) * lb) by (nonlinear_arith);
    assert(m1 <= i ==> i * (la + lb) == (la + lb) * m1 + (i - m1) * (la + lb)) by (nonlinear_arith);
    assert(m * la == la * m) by (nonlinear_arith);
    assert((m - m1) * la == la * (m - m1)) by (nonlinear_arith);
    assert(0 <= la * m1) by (nonlinear_arith)
        requires
            0 <= la,
            0 <= m1,
    ;
    assert(0 <= lb * m1) by (nonlinear_arith)
        requires
            0 <= lb,
            0 <= m1,
    ;
    assert(0 <= la * (m - m1)) by (nonlinear_arith)
        requires
            0 <= la,
            m1 <= m,
    ;
}

/// `v` is `o` with the `m` pairs at `off` separated, and nothing else moved.
pub open spec fn is_unshuffle<T>(o: Seq<T>, v: Seq<T>, off: int, la: int, lb: int, m: int) -> bool {
    &&& v.len() == o.len()
    &&& forall|k: int| 0 <= k < o.len() && !(off <= k < off + (la + lb) * m) ==> #[trigger] v[k] == o[k]
    &&& forall|i: int, t: int|
        0 <= i < m && 0 <= t < la + lb ==> #[trigger] split_at(v, off, la, lb, m, i, t) == pair_at(
            o,
            off,
            la,
            lb,
            i,
            t,
        )
}

/// `v` is `o` with the separated blocks at `off` put back into `m` pairs,
/// and nothing else moved.
pub open spec fn is_shuffle<T>(o: Seq<T>, v: Seq<T>, off: int, la: int, lb: int, m: int) -> bool {
    &&& v.len() == o.len()
    &&& forall|k: int| 0 <= k < o.len() && !(off <= k < off + (la + lb) * m) ==> #[trigger] v[k] == o[k]
    &&& forall|i: int, t: int|
        0 <= i < m && 0 <= t < la + lb ==> #[trigger] pair_at(v, off, la, lb, i, t) == split_at(
            o,
            off,
            la,
            lb,
            m,
            i,
            t,
        )
}

/// Shuffling what was unshuffled, with the same `la`, `lb` and `m`, gives
/// back the original sequence.
pub proof fn lemma_shuffle_undoes_unshuffle<T>(
    v0: Seq<T>,
    v1: Seq<T>,
    v2: Seq<T>,
    off: int,
    la: int,
    lb: int,
    m: int,
)
    requires
        0 <= off,
        0 <= la,
        0 <= lb,
        0 <= m,
        off + (la + lb) * m <= v0.len(),
        is_unshuffle(v0, v1, off, la, lb, m),
        is_shuffle(v1, v2, off, la, lb, m),
    ensures
        v2 == v0,
{
    assert forall|k: int| 0 <= k < v0.len() implies v2[k] == v0[k] by {
        if off <= k < off + (la + lb) * m {
            let x = k - off;
            assert(la + lb > 0) by (nonlinear_arith)
                requires
                    0 <= x < (la + lb) * m,
                    0 <= m,
                    0 <= la + lb,
            ;
            vstd::arithmetic::div_mod::lemma_fundamental_div_mod(x, la + lb);
            vstd::arithmetic::div_mod::lemma_mod_pos_bound(x, la + lb);
            let i = x / (la + lb);
            let t = x % (la + lb);
            assert(i * (la + lb) == (la + lb) * i) by (nonlinear_arith);
            assert(0 <= i < m) by (nonlinear_arith)
                requires
                    x == (la + lb) * i + t,
                    0 <= t < la + lb,
                    0 <= x < (la + lb) * m,
            ;
            assert(pair_at(v2, off, la, lb, i, t) == split_at(v1, off, la, lb, m, i, t));
            assert(split_at(v1, off, la, lb, m, i, t) == pair_at(v0, off, la, lb, i, t));
        } else {
            assert(v2[k] == v1[k]);
        }
    }
    assert(v2 =~= v0);
}

/// Where a place `x` of `m` blocks of length `l` falls: block `x / l`,
/// element `x % l`.
proof fn lemma_block_of(x: int, l: int, m: int)
    requires
        0 <= x < l * m,
        0 <= m,
    ensures
        0 < l,
        0 <= x / l < m,
        0 <= x % l < l,
        x == (x / l) * l + x % l,
{
    assert(0 < l) by (nonlinear_arith)
        requires
            0 <= x < l * m,
            0 <= m,
    ;
    vstd::arithmetic::div_mod::lemma_fundamental_div_mod(x, l);
    vstd::arithmetic::div_mod::lemma_mod_pos_bound(x, l);
    assert((x / l) * l == l * (x / l)) by (nonlinear_arith);
    assert(0 <= x / l < m) by (nonlinear_arith)
        requires
            x == l * (x / l) + x % l,
            0 <= x % l < l,
            0 <= x < l * m,
    ;
}

/// Unshuffling what was shuffled, with the same `la`, `lb` and `m`, gives
/// back the original sequence.
pub proof fn lemma_unshuffle_undoes_shuffle<T>(
    v0: Seq<T>,
    v1: Seq<T>,
    v2: Seq<T>,
    off: int,
    la: int,
    lb: int,
    m: int,
)
    requires
        0 <= off,
        0 <= la,
        0 <= lb,
        0 <= m,
        off + (la + lb) * m <= v0.len(),
        is_shuffle(v0, v1, off, la, lb, m),
        is_unshuffle(v1, v2, off, la, lb, m),
    ensures
        v2 == v0,
{
    assert((la + lb) * m == la * m + lb * m) by (nonlinear_arith);
    assert(m * la == la * m) by (nonlinear_arith);
    assert forall|k: int| 0 <= k < v0.len() implies v2[k] == v0[k] by {
        if off <= k < off + la * m {
            let x = k - off;
            lemma_block_of(x, la, m);
            let i = x / la;
            let t = x % la;
            assert(i * la == la * i) by (nonlinear_arith);
            assert(split_at(v2, off, la, lb, m, i, t) == pair_at(v1, off, la, lb, i, t));
            assert(pair_at(v1, off, la, lb, i, t) == split_at(v0, off, la, lb, m, i, t));
        } else if off + la * m <= k < off + (la + lb) * m {
            let y = k - off - la * m;
            lemma_block_of(y, lb, m);
            let i = y / lb;
            let t = la + y % lb;
            assert(split_at(v2, off, la, lb, m, i, t) == pair_at(v1, off, la, lb, i, t));
            assert(pair_at(v1, off, la, lb, i, t) == split_at(v0, off, la, lb, m, i, t));
        } else {
            assert(v2[k] == v1[k]);
        }
    }
    assert(v2 =~= v0);
}

/// Unshuffles the `m` pairs of blocks of lengths `la` and `lb` that start
/// at `off`, so that the `m` blocks of length `la` come first, then the `m`
/// blocks of length `lb`.
pub fn unshuffle<T: Copy>(v: &mut Vec<T>, off: usize, la: usize, lb: usize, m: usize)
    requires
        off + (la + lb) * m <= old(v)@.len(),
    ensures
        final(v)@.to_multiset() == old(v)@.to_multiset(),
        is_unshuffle(old(v)@, final(v)@, off as int, la as int, lb as int, m as int),
    decreases m,
{
    let ghost v0 = v@;
    let len = v.len();
    assert(off + (la + lb) * m <= len);
    if m > 1 {
        let m1 = largest_power_of_two(m);
        proof {
            lemma_pairs_split(la as int, lb as int, m as int, m1 as int);
        }
        unshuffle(v, off, la, lb, m1);
        let ghost v1 = v@;
        unshuffle(v, off + (la + lb) * m1, la, lb, m - m1);
        let ghost v2 = v@;
        if la * (m - m1) > 0 && lb * m1 > 0 {
            exchange(v, off + la * m1, lb * m1, la * (m - m1));
        }
        proof {
            let la_ = la as int;
            let lb_ = lb as int;
            let mi = m as int;
            let m1_ = m1 as int;
            let offe = off + la_ * m1_;
            let off2 = off + (la_ + lb_) * m1_;
            let p_ = lb_ * m1_;
            let q_ = la_ * (mi - m1_);
            lemma_cut_places(la_, lb_, mi, m1_, 0);
            assert forall|x: int| 0 <= x < v0.len() implies #[trigger] v@[x] == exchanged_at(
                v2,
                offe,
                p_,
                q_,
                x,
            ) by {}
            assert forall|i: int, t: int| 0 <= i < mi && 0 <= t < la_ + lb_ implies #[trigger] split_at(
                v@,
                off as int,
                la_,
                lb_,
                mi,
                i,
                t,
            ) == pair_at(v0, off as int, la_, lb_, i, t) by {
                lemma_cut_places(la_, lb_, mi, m1_, i);
                lemma_pair_places(la_, lb_, mi, i, t);
                if i < m1_ {
                    lemma_pair_places(la_, lb_, m1_, i, t);
                    assert(split_at(v1, off as int, la_, lb_, m1_, i, t) == pair_at(v0, off as int, la_, lb_, i, t));
                } else {
                    lemma_pair_places(la_, lb_, mi - m1_, i - m1_, t);
                    assert(split_at(v2, off2, la_, lb_, mi - m1_, i - m1_, t) == pair_at(v1, off2, la_, lb_, i - m1_, t));
                }
            }
        }
    } else if m == 1 {
        proof {
            assert forall|i: int, t: int| 0 <= i < m && 0 <= t < la + lb implies #[trigger] split_at(
                v@,
                off as int,
                la as int,
                lb as int,
                m as int,
                i,
                t,
            ) == pair_at(v0, off as int, la as int, lb as int, i, t) by {
                assert(i == 0);
                assert(i * (la + lb) == 0 && i * la == 0 && i * lb == 0) by (nonlinear_arith)
                    requires
                        i == 0,
                ;
                assert(m * la == la) by (nonlinear_arith)
                    requires
                        m == 1,
                ;
            }
        }
    }
}

/// Shuffles the `m` blocks of length `la` and the `m` blocks of length `lb`
/// that follow them, from `off` on, back into `m` pairs; the inverse of
/// `unshuffle`.
pub fn shuffle<T: Copy>(v: &mut Vec<T>, off: usize, la: usize, lb: usize, m: usize)
    requires
        off + (la + lb) * m <= old(v)@.len(),
    ensures
        final(v)@.to_multiset() == old(v)@.to_multiset(),
        is_shuffle(old(v)@, final(v)@, off as int, la as int, lb as int, m as int),
    decreases m,
{
    let ghost v0 = v@;
    let len = v.len();
    assert(off + (la + lb) * m <= len);
    if m > 1 {
        let m1 = largest_power_of_two(m);
        proof {
            lemma_pairs_split(la as int, lb as int, m as int, m1 as int);
        }
        if la * (m - m1) > 0 && lb * m1 > 0 {
            exchange(v, off + la * m1, la * (m - m1), lb * m1);
        }
        let ghost v1 = v@;
        proof {
            let la_ = la as int;
            let lb_ = lb as int;
            let m1_ = m1 as int;
            lemma_cut_places(la_, lb_, m as int, m1_, 0);
            assert forall|x: int| 0 <= x < v0.len() implies #[trigger] v1[x] == exchanged_at(
                v0,
                off + la_ * m1_,
                la_ * (m - m1_),
                lb_ * m1_,
                x,
            ) by {}
        }
        shuffle(v, off, la, lb, m1);
        let ghost v2 = v@;
        shuffle(v, off + (la + lb) * m1, la, lb, m - m1);
        proof {
            let la_ = la as int;
            let lb_ = lb as int;
            let mi = m as int;
            let m1_ = m1 as int;
            let off2 = off + (la_ + lb_) * m1_;
            assert forall|i: int, t: int| 0 <= i < mi && 0 <= t < la_ + lb_ implies #[trigger] pair_at(
                v@,
                off as int,
                la_,
                lb_,
                i,
                t,
            ) == split_at(v0, off as int, la_, lb_, mi, i, t) by {
                lemma_cut_places(la_, lb_, mi, m1_, i);
                lemma_pair_places(la_, lb_, mi, i, t);
                if i < m1_ {
                    lemma_pair_places(la_, lb_, m1_, i, t);
                    assert(pair_at(v2, off as int, la_, lb_, i, t) == split_at(v1, off as int, la_, lb_, m1_, i, t));
                } else {
                    lemma_pair_places(la_, lb_, mi - m1_, i - m1_, t);
                    assert(pair_at(v@, off2, la_, lb_, i - m1_, t) == split_at(v2, off2, la_, lb_, mi - m1_, i - m1_, t));
                }
            }
        }
    } else if m == 1 {
        proof {
            assert forall|i: int, t: int| 0 <= i < m && 0 <= t < la + lb implies #[trigger] pair_at(
                v@,
                off as int,
                la as int,
                lb as int,
                i,
                t,
            ) == split_at(v0, off as int, la as int, lb as int, m as int, i, t) by {
                assert(i == 0);
                assert(i * (la + lb) == 0 && i * la == 0 && i * lb == 0) by (nonlinear_arith)
                    requires
                        i == 0,
                ;
                assert(m * la == la) by (nonlinear_arith)
                    requires
                        m == 1,
                ;
            }
        }
    }
}

/// Facts on splitting `q1 + q2` square panels of edge `n`.
proof fn lemma_panels_split(q1: int, q2: int, n: int)
    requires
        0 <= q1,
        0 <= q2,
        0 <= n,
    ensures
        (q1 * n + q2 * n) * n == (q1 + q2) * n * n,
        q1 * n * n + q2 * n * n == (q1 + q2) * n * n,
        0 <= q1 * n * n,
        0 <= q2 * n * n,
        n * n <= (q1 + q2) * n * n || q1 + q2 == 0,
        q1 * n + q2 * n <= (q1 + q2) * n * n,
        q1 * n + q2 * n == (q1 + q2) * n,
        0 <= q1 * n,
        0 <= q2 * n,
{
    assert(q1 * n + q2 * n == (q1 + q2) * n) by (nonlinear_arith);
    assert(0 <= q1 * n) by (nonlinear_arith)
        requires
            0 <= q1,
            0 <= n,
    ;
    assert(0 <= q2 * n) by (nonlinear_arith)
        requires
            0 <= q2,
            0 <= n,
    ;
    assert(q1 * n + q2 * n <= (q1 + q2) * n * n) by (nonlinear_arith)
        requires
            0 <= q1,
            0 <= q2,
            0 <= n,
    ;
    assert((q1 * n + q2 * n) * n == (q1 + q2) * n * n) by (nonlinear_arith);
    assert(q1 * n * n + q2 * n * n == (q1 + q2) * n * n) by (nonlinear_arith);
    assert(0 <= q1 * n * n) by (nonlinear_arith)
        requires
            0 <= q1,
            0 <= n,
    ;
    assert(0 <= q2 * n * n) by (nonlinear_arith)
        requires
            0 <= q2,
            0 <= n,
    ;
    assert(n * n <= (q1 + q2) * n * n || q1 + q2 == 0) by (nonlinear_arith)
        requires
            0 <= q1 + q2,
            0 <= n,
    ;
}

/// `v` is `o` with the `rows x cols` matrix at `off` replaced by its
/// transpose, a `cols x rows` matrix, and nothing else moved.
pub open spec fn is_transpose_at<T>(o: Seq<T>, v: Seq<T>, off: int, rows: int, cols: int) -> bool {
    &&& v.len() == o.len()
    &&& forall|k: int|
        0 <= k < o.len() && !(off <= k < off + rows * cols) ==> #[trigger] v[k] == o[k]
    &&& forall|r: int, c: int|
        0 <= r < rows && 0 <= c < cols ==> #[trigger] at_from(v, off, c, r, rows) == at_from(
            o,
            off,
            r,
            c,
            cols,
        )
}

/// Index facts for a matrix whose `w` columns (or rows) are cut after `w1`.
proof fn lemma_cut_at(x: int, y: int, w1: int, n: int)
    requires
        0 <= x,
        0 <= y,
        0 <= n,
        0 <= w1,
    ensures
        x < w1 && y < n ==> x * n + y < w1 * n,
        w1 <= x ==> x * n == w1 * n + (x - w1) * n,
        0 <= (x - w1) * n || x < w1,
        w1 * n == n * w1,
        0 <= w1 * n,
{
    assert(x < w1 && y < n ==> x * n + y < w1 * n) by (nonlinear_arith)
        requires
            0 <= y,
    ;
    assert(w1 <= x ==> x * n == w1 * n + (x - w1) * n) by (nonlinear_arith);
    assert(0 <= (x - w1) * n || x < w1) by (nonlinear_arith)
        requires
            0 <= n,
    ;
    assert(w1 * n == n * w1) by (nonlinear_arith);
    assert(0 <= w1 * n) by (nonlinear_arith)
        requires
            0 <= w1,
            0 <= n,
    ;
}

/// Transposes each of the `q` square panels of edge `n` that stand side by
/// side from `off` on as an `n x qn` matrix, unshuffling them apart on the
/// way: the matrix becomes its `qn x n` transpose.
fn partition<T: Copy>(a: &mut Vec<T>, off: usize, q: usize, n: usize)
    requires
        1 <= q,
        off + q * n * n <= old(a)@.len(),
    ensures
        final(a)@.to_multiset() == old(a)@.to_multiset(),
        is_transpose_at(old(a)@, final(a)@, off as int, n as int, q * n),
    decreases q,
{
    let ghost v0 = a@;
    let len = a.len();
    assert(off + q * n * n <= len);
    proof {
        lemma_panels_split(q as int, 0, n as int);
        lemma_cut_at(0, 0, q * n, n as int);
    }
    if q == 1 {
        square_transpose_at(a, off, n);
        assert(q * n == n) by (nonlinear_arith)
            requires
                q == 1,
        ;
    } else {
        let q2 = q / 2;
        let q1 = q - q2;
        proof {
            lemma_panels_split(q1 as int, q2 as int, n as int);
            lemma_cut_at(0, 0, q1 * n, n as int);
            lemma_cut_at(0, 0, q2 * n, n as int);
        }
        unshuffle(a, off, q1 * n, q2 * n, n);
        let ghost v1 = a@;
        partition(a, off, q1, n);
        let ghost v2 = a@;
        partition(a, off + q1 * n * n, q2, n);
        proof {
            let ni = n as int;
            let w1 = q1 * ni;
            let w2 = q2 * ni;
            let off2 = off + q1 * ni * ni;
            assert((q * ni) * ni == ni * (q * ni)) by (nonlinear_arith);
            assert(ni * w1 + ni * w2 == ni * (q * ni)) by (nonlinear_arith)
                requires
                    w1 + w2 == q * ni,
            ;
            assert forall|r: int, c: int| 0 <= r < ni && 0 <= c < q * ni implies #[trigger] at_from(
                a@,
                off as int,
                c,
                r,
                ni,
            ) == at_from(v0, off as int, r, c, q * ni) by {
                lemma_index_bounds(r, c, ni, q * ni);
                lemma_cut_at(c, r, w1, ni);
                lemma_cut_at(r, 0, 0, w2);
                assert(pair_at(v0, off as int, w1, w2, r, c) == at_from(v0, off as int, r, c, q * ni));
                assert(split_at(v1, off as int, w1, w2, ni, r, c) == pair_at(v0, off as int, w1, w2, r, c));
                if c < w1 {
                    assert(at_from(v2, off as int, c, r, ni) == at_from(v1, off as int, r, c, w1));
                } else {
                    lemma_index_bounds(r, c - w1, ni, w2);
                    assert(at_from(a@, off2, c - w1, r, ni) == at_from(v2, off2, r, c - w1, w2));
                }
            }
        }
    }
}

/// Transposes each of the `q` square panels of edge `n` that are stacked
/// from `off` on as a `qn x n` matrix, shuffling them together after: the
/// matrix becomes its `n x qn` transpose.
fn join<T: Copy>(a: &mut Vec<T>, off: usize, q: usize, n: usize)
    requires
        1 <= q,
        off + q * n * n <= old(a)@.len(),
    ensures
        final(a)@.to_multiset() == old(a)@.to_multiset(),
        is_transpose_at(old(a)@, final(a)@, off as int, q * n, n as int),
    decreases q,
{
    let ghost v0 = a@;
    let len = a.len();
    assert(off + q * n * n <= len);
    proof {
        lemma_panels_split(q as int, 0, n as int);
    }
    if q == 1 {
        square_transpose_at(a, off, n);
        assert(q * n == n) by (nonlinear_arith)
            requires
                q == 1,
        ;
    } else {
        let q2 = q / 2;
        let q1 = q - q2;
        proof {
            lemma_panels_split(q1 as int, q2 as int, n as int);
            lemma_cut_at(0, 0, q1 * n, n as int);
            lemma_cut_at(0, 0, q2 * n, n as int);
        }
        join(a, off, q1, n);
        let ghost v1 = a@;
        join(a, off + q1 * n * n, q2, n);
        let ghost v2 = a@;
        shuffle(a, off, q1 * n, q2 * n, n);
        proof {
            let ni = n as int;
            let w1 = q1 * ni;
            let w2 = q2 * ni;
            let off2 = off + q1 * ni * ni;
            assert((q * ni) * ni == ni * (q * ni)) by (nonlinear_arith);
            assert(ni * w1 + ni * w2 == ni * (q * ni)) by (nonlinear_arith)
                requires
                    w1 + w2 == q * ni,
            ;
            assert forall|r: int, c: int| 0 <= r < q * ni && 0 <= c < ni implies #[trigger] at_from(
                a@,
                off as int,
                c,
                r,
                q * ni,
            ) == at_from(v0, off as int, r, c, ni) by {
                lemma_index_bounds(r, c, q * ni, ni);
                lemma_cut_at(r, c, w1, ni);
                lemma_cut_at(c, 0, 0, w2);
                lemma_cut_at(c, r, ni, w1);
                assert(pair_at(a@, off as int, w1, w2, c, r) == split_at(v2, off as int, w1, w2, ni, c, r));
                if r < w1 {
                    lemma_index_bounds(c, r, ni, w1);
                    assert(at_from(v1, off as int, c, r, w1) == at_from(v0, off as int, r, c, ni));
                } else {
                    assert(at_from(v2, off2, c, r - w1, w2) == at_from(v1, off2, r - w1, c, ni));
                }
            }
        }
    }
}

/// Cutting the longer side `big` of a `small x big` rectangle into `q` whole
/// squares and a remainder `r`.
proof fn lemma_cut(small: int, big: int)
    requires
        0 < small <= big,
    ensures
        big / small >= 1,
        0 <= big % small < small,
        (big / small) * small + big % small == big,
        (big / small) * small * small + (big % small) * small == big * small,
        (big / small) * small * small + small * (big % small) == small * big,
        (big % small) * small < big * small,
{
    vstd::arithmetic::div_mod::lemma_fundamental_div_mod(big, small);
    vstd::arithmetic::div_mod::lemma_mod_pos_bound(big, small);
    let q = big / small;
    let r = big % small;
    assert(q * small == small * q) by (nonlinear_arith);
    assert(q <= 0 ==> small * q <= 0) by (nonlinear_arith)
        requires
            0 < small,
    ;
    assert(q * small * small + r * small == big * small) by (nonlinear_arith)
        requires
            big == small * q + r,
    ;
    assert(q * small * small + small * r == small * big) by (nonlinear_arith)
        requires
            big == small * q + r,
    ;
    assert(r * small < big * small) by (nonlinear_arith)
        requires
            0 <= r < small,
            small <= big,
    ;
}


/// Transposes the `rows x cols` matrix at `off` through the workspace `w`
/// and copies the result back in place.
fn transpose_through<T: Copy>(a: &mut Vec<T>, off: usize, rows: usize, cols: usize, w: &mut Vec<T>)
    requires
        off + rows * cols <= old(a)@.len(),
        rows * cols <= old(w)@.len(),
    ensures
        is_transpose_at(old(a)@, final(a)@, off as int, rows as int, cols as int),
        final(w)@.len() == old(w)@.len(),
{
    let ghost v0 = a@;
    let len = a.len();
    transpose_from(a.as_slice(), off, w, rows, cols);
    let n = rows * cols;
    let mut k: usize = 0;
    while k < n
        invariant
            k <= n,
            n == rows * cols,
            off + n <= a@.len(),
            n <= w@.len(),
            len == a@.len(),
            v0.len() == len,
            region_done(v0, off as int, w@, rows as int, cols as int, 0, rows as int, 0, cols as int),
            forall|x: int| 0 <= x < len && !(off <= x < off + k) ==> #[trigger] a@[x] == v0[x],
            forall|x: int| 0 <= x < k ==> #[trigger] a@[off + x] == w@[x],
        decreases n - k,
    {
        a[off + k] = w[k];
        k = k + 1;
    }
    proof {
        assert forall|r: int, c: int| 0 <= r < rows && 0 <= c < cols implies #[trigger] at_from(
            a@,
            off as int,
            c,
            r,
            rows as int,
        ) == at_from(v0, off as int, r, c, cols as int) by {
            lemma_index_bounds(r, c, rows as int, cols as int);
            assert(done(v0, off as int, w@, rows as int, cols as int, r, c));
            assert(a@[off + (c * rows + r)] == w@[c * rows + r]);
        }
    }
}

/// Swap-based in-place transpose of the matrix at `off` that has `cols`
/// rows of `rows` elements each, with `cols <= rows`: the square panels are
/// unshuffled apart and transposed, and the remaining columns are handed
/// to `row_transpose`.
fn column_transpose<T: Copy>(
    a: &mut Vec<T>,
    off: usize,
    rows: usize,
    cols: usize,
    w: &mut Vec<T>,
    iw: usize,
)
    requires
        cols <= rows,
        off + rows * cols <= old(a)@.len(),
        iw == old(w)@.len(),
    ensures
        is_transpose_at(old(a)@, final(a)@, off as int, cols as int, rows as int),
        final(w)@.len() == old(w)@.len(),
    decreases rows * cols, 1nat,
{
    let ghost v0 = a@;
    let len = a.len();
    assert(off + rows * cols <= len);
    if rows * cols <= iw {
        proof {
            assert(cols * rows == rows * cols) by (nonlinear_arith);
        }
        transpose_through(a, off, cols, rows, w);
    } else {
        proof {
            assert(cols > 0) by (nonlinear_arith)
                requires
                    rows * cols > iw,
                    iw >= 0,
                    cols >= 0,
            ;
            lemma_cut(cols as int, rows as int);
            assert(cols * rows == rows * cols) by (nonlinear_arith);
        }
        let q = rows / cols;
        let r = rows % cols;
        proof {
            lemma_panels_split(q as int, 0, cols as int);
            lemma_cut_at(0, 0, q * cols, cols as int);
        }
        unshuffle(a, off, q * cols, r, cols);
        let ghost v1 = a@;
        partition(a, off, q, cols);
        let ghost v2 = a@;
        row_transpose(a, off + q * cols * cols, r, cols, w, iw);
        proof {
            let ci = cols as int;
            let ri = rows as int;
            let w1 = q * ci;
            let off2 = off + q * ci * ci;
            assert(ci * w1 + ci * (r as int) == ci * ri) by (nonlinear_arith)
                requires
                    w1 + r == ri,
            ;
            assert forall|i: int, j: int| 0 <= i < ci && 0 <= j < ri implies #[trigger] at_from(
                a@,
                off as int,
                j,
                i,
                ci,
            ) == at_from(v0, off as int, i, j, ri) by {
                lemma_index_bounds(i, j, ci, ri);
                lemma_cut_at(j, i, w1, ci);
                if w1 <= j {
                    lemma_index_bounds(i, j - w1, ci, r as int);
                }
                lemma_cut_at(i, 0, 0, r as int);
                assert(split_at(v1, off as int, w1, r as int, ci, i, j) == pair_at(v0, off as int, w1, r as int, i, j));
                if j < w1 {
                    lemma_index_bounds(i, j, ci, w1);
                    assert(at_from(v2, off as int, j, i, ci) == at_from(v1, off as int, i, j, w1));
                } else {
                    assert(at_from(a@, off2, j - w1, i, ci) == at_from(v2, off2, i, j - w1, r as int));
                }
            }
        }
    }
}

/// Swap-based in-place transpose of the matrix at `off` that has `cols`
/// rows of `rows` elements each, with `rows <= cols`: the remaining rows
/// are handed to `column_transpose`, then the square panels are transposed
/// and shuffled together.
fn row_transpose<T: Copy>(
    a: &mut Vec<T>,
    off: usize,
    rows: usize,
    cols: usize,
    w: &mut Vec<T>,
    iw: usize,
)
    requires
        rows <= cols,
        off + rows * cols <= old(a)@.len(),
        iw == old(w)@.len(),
    ensures
        is_transpose_at(old(a)@, final(a)@, off as int, cols as int, rows as int),
        final(w)@.len() == old(w)@.len(),
    decreases rows * cols, 1nat,
{
    let ghost v0 = a@;
    let len = a.len();
    assert(off + rows * cols <= len);
    if rows * cols <= iw {
        proof {
            assert(cols * rows == rows * cols) by (nonlinear_arith);
        }
        transpose_through(a, off, cols, rows, w);
    } else {
        proof {
            assert(rows > 0) by (nonlinear_arith)
                requires
                    rows * cols > iw,
                    iw >= 0,
                    rows >= 0,
            ;
            lemma_cut(rows as int, cols as int);
            assert(cols * rows == rows * cols) by (nonlinear_arith);
        }
        let q = cols / rows;
        let r = cols % rows;
        proof {
            lemma_panels_split(q as int, 0, rows as int);
            lemma_cut_at(0, 0, q * rows, rows as int);
            assert(r * rows == rows * r) by (nonlinear_arith);
        }
        column_transpose(a, off + q * rows * rows, rows, r, w, iw);
        let ghost v1 = a@;
        join(a, off, q, rows);
        let ghost v2 = a@;
        assert(off + (q * rows + r) * rows <= a@.len()) by {
            assert((q * rows + r) * rows == q * rows * rows + r * rows) by (nonlinear_arith);
        }
        shuffle(a, off, q * rows, r, rows);
        proof {
            let ci = cols as int;
            let ri = rows as int;
            let w1 = q * ri;
            let off2 = off + q * ri * ri;
            assert((w1 + r) * ri == w1 * ri + r * ri) by (nonlinear_arith);
            assert(ri * w1 + ri * (r as int) == ri * ci) by (nonlinear_arith)
                requires
                    w1 + r == ci,
            ;
            assert forall|i: int, j: int| 0 <= i < ci && 0 <= j < ri implies #[trigger] at_from(
                a@,
                off as int,
                j,
                i,
                ci,
            ) == at_from(v0, off as int, i, j, ri) by {
                lemma_index_bounds(i, j, ci, ri);
                lemma_cut_at(i, j, w1, ri);
                lemma_cut_at(j, 0, 0, r as int);
                lemma_cut_at(j, i, ri, w1);
                assert(pair_at(a@, off as int, w1, r as int, j, i) == split_at(v2, off as int, w1, r as int, ri, j, i));
                assert(w1 + r == ci);
                assert(at_from(a@, off as int, j, i, ci) == pair_at(a@, off as int, w1, r as int, j, i));
                if i < w1 {
                    lemma_index_bounds(j, i, ri, w1);
                    assert(at_from(v2, off as int, j, i, w1) == at_from(v1, off as int, i, j, ri));
                    assert(off + i * ri + j < off2);
                    assert(v1[off + i * ri + j] == v0[off + i * ri + j]);
                    assert(split_at(v2, off as int, w1, r as int, ri, j, i) == v2[off + j * w1 + i]);
                    assert(at_from(a@, off as int, j, i, ci) == at_from(v0, off as int, i, j, ri));
                } else {
                    lemma_index_bounds(j, i - w1, ri, r as int);
                    let x = off + ri * w1 + j * r + (i - w1);
                    assert(off + ri * w1 <= x < off + ri * ci);
                    assert(split_at(v2, off as int, w1, r as int, ri, j, i) == v2[x]);
                    assert(v2[x] == v1[x]);
                    assert(x == off2 + j * r + (i - w1));
                    assert(at_from(v1, off2, j, i - w1, r as int) == at_from(v0, off2, i - w1, j, ri));
                    assert(off2 + (i - w1) * ri + j == off + i * ri + j);
                    assert(at_from(a@, off as int, j, i, ci) == at_from(v0, off as int, i, j, ri));
                }
            }
        }
    }
}

/// In-place transpose: `src`, a `rows x cols` matrix, is overwritten by its
/// transpose, a `cols x rows` matrix. The workspace `w` holds sub-problems
/// that are transposed out of place; a larger one only saves work.
pub fn ip_transpose<T: Copy>(src: &mut Vec<T>, w: &mut Vec<T>, rows: usize, cols: usize)
    requires
        old(src)@.len() == rows * cols,
        old(w)@.len() >= 2,
    ensures
        is_transpose(old(src)@, final(src)@, rows as int, cols as int),
        final(w)@.len() == old(w)@.len(),
{
    let ghost v0 = src@;
    let iw = w.len();
    if rows >= cols {
        proof {
            assert(cols * rows == rows * cols) by (nonlinear_arith);
        }
        row_transpose(src, 0, cols, rows, w, iw);
    } else {
        proof {
            assert(cols * rows == rows * cols) by (nonlinear_arith);
        }
        column_transpose(src, 0, cols, rows, w, iw);
    }
    proof {
        assert forall|r: int, c: int| 0 <= r < rows && 0 <= c < cols implies #[trigger] at(
            src@,
            c,
            r,
            rows as int,
        ) == at(v0, r, c, cols as int) by {
            assert(at_from(src@, 0, c, r, rows as int) == at_from(v0, 0, r, c, cols as int));
        }
    }
}

} // verus!
