//! Row-major index arithmetic.
//!
//! A shape is a sequence of axis lengths. The elements of an array of that shape
//! are numbered in row-major order, the last axis running fastest: [`offset`]
//! gives the number of a multi-index and [`unravel`] the multi-index of a number.
use vstd::arithmetic::div_mod::*;
use vstd::prelude::*;

verus! {

/// The number of elements of an array of shape `s`.
pub open spec fn volume(s: Seq<usize>) -> nat
    decreases s.len(),
{
    if s.len() == 0 {
        1
    } else {
        volume(s.drop_last()) * (s.last() as nat)
    }
}

/// Whether `idx` names an element of an array of shape `s`.
pub open spec fn in_bounds(s: Seq<usize>, idx: Seq<int>) -> bool {
    &&& idx.len() == s.len()
    &&& forall|i: int| 0 <= i < s.len() ==> 0 <= #[trigger] idx[i] < s[i]
}

/// The row-major position of the element at `idx`.
pub open spec fn offset(s: Seq<usize>, idx: Seq<int>) -> int
    decreases s.len(),
{
    if s.len() == 0 {
        0
    } else {
        offset(s.drop_last(), idx.drop_last()) * s.last() + idx.last()
    }
}

/// The multi-index of the element at row-major position `k`.
pub open spec fn unravel(s: Seq<usize>, k: int) -> Seq<int>
    decreases s.len(),
{
    if s.len() == 0 {
        Seq::empty()
    } else {
        unravel(s.drop_last(), k / (s.last() as int)).push(k % (s.last() as int))
    }
}

pub proof fn lemma_volume_positive(s: Seq<usize>)
    ensures
        volume(s) > 0 <==> (forall|i: int| 0 <= i < s.len() ==> #[trigger] s[i] > 0),
    decreases s.len(),
{
    if s.len() > 0 {
        let t = s.drop_last();
        lemma_volume_positive(t);
        assert(volume(t) * (s.last() as nat) > 0 <==> volume(t) > 0 && s.last() > 0)
            by (nonlinear_arith);
        if volume(s) > 0 {
            assert forall|i: int| 0 <= i < s.len() implies #[trigger] s[i] > 0 by {
                if i < t.len() {
                    assert(t[i] > 0);
                }
            }
        } else if forall|i: int| 0 <= i < s.len() ==> #[trigger] s[i] > 0 {
            assert forall|i: int| 0 <= i < t.len() implies #[trigger] t[i] > 0 by {
                assert(s[i] > 0);
            }
            assert(s[s.len() - 1] > 0);
        }
    }
}

/// A prefix of a shape without empty axes holds no more elements than the whole.
pub proof fn lemma_volume_prefix(s: Seq<usize>, n: int)
    requires
        0 <= n <= s.len(),
        volume(s) > 0,
    ensures
        0 < volume(s.take(n)) <= volume(s),
    decreases s.len() - n,
{
    if n == s.len() {
        assert(s.take(n) =~= s);
    } else {
        lemma_volume_prefix(s, n + 1);
        let t = s.take(n + 1);
        assert(t.drop_last() =~= s.take(n));
        assert(0 < volume(t.drop_last()) <= volume(t.drop_last()) * (t.last() as nat)) by (
        nonlinear_arith)
            requires
                volume(t.drop_last()) * (t.last() as nat) > 0,
        ;
    }
}

pub proof fn lemma_offset_bound(s: Seq<usize>, idx: Seq<int>)
    requires
        in_bounds(s, idx),
    ensures
        0 <= offset(s, idx) < volume(s),
    decreases s.len(),
{
    if s.len() > 0 {
        let t = s.drop_last();
        let jdx = idx.drop_last();
        assert forall|i: int| 0 <= i < t.len() implies 0 <= #[trigger] jdx[i] < t[i] by {
            assert(0 <= idx[i] < s[i]);
        }
        lemma_offset_bound(t, jdx);
        assert(0 <= idx[s.len() - 1] < s[s.len() - 1]);
        let o = offset(t, jdx);
        let v = volume(t);
        let d = s.last() as int;
        let e = idx.last();
        assert(0 <= o * d + e < v * d) by (nonlinear_arith)
            requires
                0 <= o < v,
                0 <= e < d,
        ;
    }
}

pub proof fn lemma_unravel(s: Seq<usize>, k: int)
    requires
        0 <= k < volume(s),
    ensures
        in_bounds(s, unravel(s, k)),
        offset(s, unravel(s, k)) == k,
    decreases s.len(),
{
    if s.len() > 0 {
        let t = s.drop_last();
        let d = s.last() as int;
        let v = volume(t) as int;
        assert(d > 0) by (nonlinear_arith)
            requires
                v * d > 0,
                v >= 0,
                d >= 0,
        ;
        lemma_fundamental_div_mod(k, d);
        lemma_mod_bound(k, d);
        let q = k / d;
        assert(0 <= q < v) by (nonlinear_arith)
            requires
                k == d * q + k % d,
                0 <= k % d < d,
                0 <= k < v * d,
        ;
        lemma_unravel(t, q);
        let idx = unravel(s, k);
        assert(idx.drop_last() =~= unravel(t, q));
        assert(d * q == q * d) by (nonlinear_arith);
        assert forall|i: int| 0 <= i < s.len() implies 0 <= #[trigger] idx[i] < s[i] by {
            if i < t.len() {
                assert(0 <= unravel(t, q)[i] < t[i]);
            }
        }
    }
}

pub proof fn lemma_unravel_offset(s: Seq<usize>, idx: Seq<int>)
    requires
        in_bounds(s, idx),
    ensures
        unravel(s, offset(s, idx)) == idx,
    decreases s.len(),
{
    if s.len() > 0 {
        let t = s.drop_last();
        let jdx = idx.drop_last();
        assert forall|i: int| 0 <= i < t.len() implies 0 <= #[trigger] jdx[i] < t[i] by {
            assert(0 <= idx[i] < s[i]);
        }
        lemma_unravel_offset(t, jdx);
        assert(0 <= idx[s.len() - 1] < s[s.len() - 1]);
        let d = s.last() as int;
        lemma_fundamental_div_mod_converse(offset(s, idx), d, offset(t, jdx), idx.last());
        assert(unravel(s, offset(s, idx)) =~= idx);
    } else {
        assert(unravel(s, offset(s, idx)) =~= idx);
    }
}

/// The length of a multi-index, whether or not the position exists.
pub proof fn lemma_unravel_len(s: Seq<usize>, k: int)
    ensures
        unravel(s, k).len() == s.len(),
    decreases s.len(),
{
    if s.len() > 0 {
        lemma_unravel_len(s.drop_last(), k / (s.last() as int));
    }
}

/// The number of elements of an array of shape `shape`, or `None` where it does
/// not fit a `usize`.
pub fn checked_volume(shape: &[usize]) -> (r: Option<usize>)
    ensures
        r.is_some() <==> volume(shape@) <= usize::MAX,
        r matches Some(v) ==> v == volume(shape@),
{
    let n: usize = shape.len();
    let mut i: usize = 0;
    while i < n
        invariant
            n == shape@.len(),
            i <= n,
            forall|j: int| 0 <= j < i ==> shape@[j] > 0,
        decreases n - i,
    {
        if shape[i] == 0 {
            proof {
                lemma_volume_positive(shape@);
            }
            return Some(0);
        }
        i = i + 1;
    }
    proof {
        lemma_volume_positive(shape@);
    }
    let mut v: usize = 1;
    let mut k: usize = 0;
    proof {
        assert(shape@.take(0) =~= Seq::<usize>::empty());
    }
    while k < n
        invariant
            n == shape@.len(),
            k <= n,
            v == volume(shape@.take(k as int)),
            volume(shape@) > 0,
        decreases n - k,
    {
        proof {
            assert(shape@.take(k + 1).drop_last() =~= shape@.take(k as int));
            lemma_volume_prefix(shape@, k + 1);
        }
        match v.checked_mul(shape[k]) {
            Some(w) => {
                v = w;
            },
            None => {
                return None;
            },
        }
        k = k + 1;
    }
    proof {
        assert(shape@.take(n as int) =~= shape@);
    }
    Some(v)
}

/// Computes [`offset`].
pub fn ravel(shape: &[usize], idx: &[usize]) -> (k: usize)
    requires
        in_bounds(shape@, to_int(idx@)),
        volume(shape@) <= usize::MAX,
    ensures
        k == offset(shape@, to_int(idx@)),
        k < volume(shape@),
{
    let ghost s = shape@;
    let ghost ix = to_int(idx@);
    proof {
        lemma_offset_bound(s, ix);
        assert(s.take(0) =~= Seq::<usize>::empty());
        assert(idx@.len() == ix.len());
    }
    let n: usize = shape.len();
    let mut k: usize = 0;
    let mut i: usize = 0;
    while i < n
        invariant
            n == s.len(),
            s == shape@,
            ix == to_int(idx@),
            in_bounds(s, ix),
            i <= n,
            0 < volume(s) <= usize::MAX,
            k == offset(s.take(i as int), ix.take(i as int)),
        decreases n - i,
    {
        proof {
            let t = s.take(i + 1);
            let jx = ix.take(i + 1);
            assert(t.drop_last() =~= s.take(i as int));
            assert(jx.drop_last() =~= ix.take(i as int));
            assert forall|j: int| 0 <= j < t.len() implies 0 <= #[trigger] jx[j] < t[j] by {
                assert(0 <= ix[j] < s[j]);
            }
            lemma_offset_bound(t, jx);
            lemma_volume_prefix(s, i + 1);
            assert(0 <= ix[i as int] < s[i as int]);
            assert(ix[i as int] == idx@[i as int]);
            let kk = k as int;
            let d = s[i as int] as int;
            assert(0 <= kk * d) by (nonlinear_arith)
                requires
                    kk >= 0,
                    d >= 0,
            ;
        }
        k = k * shape[i] + idx[i];
        i = i + 1;
    }
    proof {
        assert(s.take(n as int) =~= s);
        assert(ix.take(n as int) =~= ix);
    }
    k
}

/// The multi-index `idx` as mathematical integers.
pub open spec fn to_int(idx: Seq<usize>) -> Seq<int> {
    Seq::new(idx.len(), |i: int| idx[i] as int)
}

/// Computes [`unravel`].
pub fn unravel_index(shape: &[usize], k: usize) -> (idx: Vec<usize>)
    requires
        k < volume(shape@),
    ensures
        to_int(idx@) == unravel(shape@, k as int),
        in_bounds(shape@, to_int(idx@)),
{
    let ghost s = shape@;
    proof {
        lemma_unravel(s, k as int);
        lemma_volume_positive(s);
        assert(s.take(s.len() as int) =~= s);
    }
    let n: usize = shape.len();
    let mut idx: Vec<usize> = Vec::new();
    let mut j: usize = 0;
    while j < n
        invariant
            j <= n,
            n == s.len(),
            idx.len() == j,
        decreases n - j,
    {
        idx.push(0);
        j = j + 1;
    }
    let mut rest: usize = k;
    let mut i: usize = n;
    while i > 0
        invariant
            i <= n,
            n == s.len(),
            s == shape@,
            idx.len() == n,
            unravel(s, k as int).len() == n,
            forall|m: int| 0 <= m < n ==> #[trigger] s[m] > 0,
            unravel(s, k as int).take(i as int) == unravel(s.take(i as int), rest as int),
            forall|m: int| i <= m < n ==> #[trigger] idx@[m] as int == unravel(s, k as int)[m],
        decreases i,
    {
        let ghost r0 = rest as int;
        i = i - 1;
        proof {
            let t = s.take(i + 1);
            assert(t.drop_last() =~= s.take(i as int));
            assert(t.last() == s[i as int]);
            assert(s[i as int] > 0);
            let u = unravel(t, r0);
            assert(u == unravel(s.take(i as int), r0 / (s[i as int] as int)).push(
                r0 % (s[i as int] as int),
            ));
            assert(unravel(s, k as int).take(i + 1)[i as int] == unravel(s, k as int)[i as int]);
            lemma_unravel_len(s.take(i as int), r0 / (s[i as int] as int));
            assert(unravel(s, k as int).take(i as int) =~= u.drop_last());
            assert(u.drop_last() =~= unravel(s.take(i as int), r0 / (s[i as int] as int)));
        }
        idx.set(i, rest % shape[i]);
        rest = rest / shape[i];
    }
    proof {
        assert(to_int(idx@) =~= unravel(s, k as int));
    }
    idx
}

} // verus!
