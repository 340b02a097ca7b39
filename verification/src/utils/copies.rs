//! How many copies of each element broadcasting makes.

use vstd::arithmetic::div_mod::lemma_fundamental_div_mod_converse;
use vstd::prelude::*;

use crate::index::{lemma_unravel_len, unravel, volume};
use crate::remap::{repeated, scattering_back_counts_the_visits, visits};
use crate::scalar::Ring;
use crate::tensor::Array;
use crate::utils::down::summing_axis_by_axis_is_summing_at_once;
use crate::utils::shape::{
    broadcast_map, broadcast_source, broadcast_spec, broadcasts_to, lemma_broadcast_map,
    seen_through, sum_to_spec,
};

verus! {

/// The number of elements of an array of shape `to` that see one element of an array of
/// shape `from`: the product of the axes along which it is spread.
pub open spec fn copies(from: Seq<usize>, to: Seq<usize>) -> nat
    decreases to.len(),
{
    if from.len() == 0 || to.len() == 0 {
        volume(to)
    } else if from.last() == 1 {
        copies(from.drop_last(), to.drop_last()) * (to.last() as nat)
    } else {
        copies(from.drop_last(), to.drop_last())
    }
}

/// How many of the first `n` positions of the spread array see position `j`.
spec fn seen(from: Seq<usize>, to: Seq<usize>, j: int, n: int) -> nat
    decreases n,
{
    if n <= 0 {
        0
    } else if broadcast_source(from, to, n - 1) == j {
        seen(from, to, j, n - 1) + 1
    } else {
        seen(from, to, j, n - 1)
    }
}

proof fn lemma_shorter(from: Seq<usize>, to: Seq<usize>)
    requires
        broadcasts_to(from, to),
        from.len() > 0,
    ensures
        broadcasts_to(from.drop_last(), to.drop_last()),
        from.last() == 1 || from.last() == to.last(),
{
    let (f, t) = (from.drop_last(), to.drop_last());
    assert forall|i: int| 0 <= i < f.len() implies #[trigger] f[i] == 1 || f[i] == t[i + t.len()
        - f.len()] by {
        assert(from[i] == 1 || from[i] == to[i + to.len() - from.len()]);
    }
    assert(from[from.len() - 1] == 1 || from[from.len() - 1] == to[to.len() - 1]);
}

/// What an element sees, one axis at a time.
proof fn lemma_source(from: Seq<usize>, to: Seq<usize>, q: int, r: int)
    requires
        broadcasts_to(from, to),
        from.len() > 0,
        0 <= r < to.last(),
    ensures
        broadcast_source(from, to, q * to.last() + r) == broadcast_source(
            from.drop_last(),
            to.drop_last(),
            q,
        ) * from.last() + if from.last() == 1 {
            0
        } else {
            r
        },
{
    let d = to.last() as int;
    let k = q * d + r;
    lemma_fundamental_div_mod_converse(k, d, q, r);
    let (f, t) = (from.drop_last(), to.drop_last());
    let idx = unravel(to, k);
    let jdx = unravel(t, q);
    lemma_unravel_len(t, q);
    assert(idx == jdx.push(r));
    let s = seen_through(idx, from);
    assert(s.drop_last() =~= seen_through(jdx, f)) by {
        assert forall|i: int| 0 <= i < f.len() implies s.drop_last()[i] == seen_through(
            jdx,
            f,
        )[i] by {
            assert(f[i] == from[i]);
            assert(idx[i + idx.len() - from.len()] == jdx[i + jdx.len() - f.len()]);
        }
    }
    assert(s.last() == if from.last() == 1 { 0 } else { r });
}

/// A run of positions along an axis that is spread.
proof fn lemma_seen_spread(from: Seq<usize>, to: Seq<usize>, j: int, q: int, r: int)
    requires
        broadcasts_to(from, to),
        from.len() > 0,
        from.last() == 1,
        0 <= q,
        0 <= r <= to.last(),
    ensures
        seen(from, to, j, q * to.last() + r) == seen(
            from.drop_last(),
            to.drop_last(),
            j,
            q,
        ) * to.last() + if broadcast_source(from.drop_last(), to.drop_last(), q) == j {
            r
        } else {
            0
        },
    decreases q, r,
{
    let d = to.last() as int;
    let (f, t) = (from.drop_last(), to.drop_last());
    assert(0 <= q * d) by (nonlinear_arith)
        requires
            0 <= q,
            0 <= d,
    ;
    if r > 0 {
        lemma_seen_spread(from, to, j, q, r - 1);
        lemma_source(from, to, q, r - 1);
    } else if q > 0 {
        lemma_seen_spread(from, to, j, q - 1, d);
        assert((q - 1) * d + d == q * d) by (nonlinear_arith);
        let c = seen(f, t, j, q - 1) as int;
        assert((c + 1) * d == c * d + d) by (nonlinear_arith);
    } else {
        assert(0 * d == 0);
    }
}

/// A run of positions along an axis that is copied.
proof fn lemma_seen_copied(from: Seq<usize>, to: Seq<usize>, j: int, q: int, r: int)
    requires
        broadcasts_to(from, to),
        from.len() > 0,
        from.last() != 1,
        from.last() == to.last(),
        0 <= j,
        0 <= q,
        0 <= r <= to.last(),
        to.last() > 0,
    ensures
        seen(from, to, j, q * to.last() + r) == seen(
            from.drop_last(),
            to.drop_last(),
            j / (to.last() as int),
            q,
        ) + if broadcast_source(from.drop_last(), to.drop_last(), q) == j / (to.last() as int) && j
            % (to.last() as int) < r {
            1nat
        } else {
            0nat
        },
    decreases q, r,
{
    let d = to.last() as int;
    let (f, t) = (from.drop_last(), to.drop_last());
    assert(0 <= q * d) by (nonlinear_arith)
        requires
            0 <= q,
            0 <= d,
    ;
    if r > 0 {
        lemma_seen_copied(from, to, j, q, r - 1);
        lemma_source(from, to, q, r - 1);
        let b = broadcast_source(f, t, q);
        let k = b * d + (r - 1);
        lemma_fundamental_div_mod_converse(k, d, b, r - 1);
        vstd::arithmetic::div_mod::lemma_fundamental_div_mod(j, d);
        assert(d * (j / d) == (j / d) * d) by (nonlinear_arith);
    } else if q > 0 {
        lemma_seen_copied(from, to, j, q - 1, d);
        assert((q - 1) * d + d == q * d) by (nonlinear_arith);
    } else {
        assert(0 * d == 0);
    }
}

/// Every element is seen equally often.
proof fn lemma_seen(from: Seq<usize>, to: Seq<usize>, j: int)
    requires
        broadcasts_to(from, to),
        0 <= j < volume(from),
    ensures
        seen(from, to, j, volume(to) as int) == copies(from, to),
    decreases to.len(),
{
    if from.len() == 0 {
        lemma_seen_at_once(from, to, volume(to) as int);
    } else {
        let (f, t) = (from.drop_last(), to.drop_last());
        let d = to.last() as int;
        let q = volume(t) as int;
        lemma_shorter(from, to);
        assert(volume(to) == q * d);
        if from.last() == 1 {
            assert(volume(f) * 1 == volume(f)) by (nonlinear_arith);
            lemma_seen(f, t, j);
            lemma_seen_spread(from, to, j, q, 0);
        } else {
            let v = volume(f) as int;
            assert(d > 0 && 0 <= j / d < v) by (nonlinear_arith)
                requires
                    0 <= j < v * d,
                    0 <= d,
            ;
            lemma_seen(f, t, j / d);
            lemma_seen_copied(from, to, j, q, 0);
        }
    }
}

/// The array without axes is seen from everywhere.
proof fn lemma_seen_at_once(from: Seq<usize>, to: Seq<usize>, n: int)
    requires
        from.len() == 0,
        0 <= n,
    ensures
        seen(from, to, 0, n) == n,
    decreases n,
{
    if n > 0 {
        lemma_seen_at_once(from, to, n - 1);
    }
}

/// The copies of all elements make up the spread array.
pub proof fn copies_fill_the_shape(from: Seq<usize>, to: Seq<usize>)
    requires
        broadcasts_to(from, to),
    ensures
        copies(from, to) * volume(from) == volume(to),
    decreases to.len(),
{
    if from.len() == 0 {
        assert(volume(to) * 1 == volume(to)) by (nonlinear_arith);
    } else {
        lemma_shorter(from, to);
        let (f, t) = (from.drop_last(), to.drop_last());
        copies_fill_the_shape(f, t);
        let (c, v, d) = (copies(f, t), volume(f), to.last() as nat);
        if from.last() == 1 {
            assert((c * d) * (v * 1) == (c * v) * d) by (nonlinear_arith);
        } else {
            assert(c * (v * d) == (c * v) * d) by (nonlinear_arith);
        }
    }
}

proof fn lemma_visits_are_seen(from: Seq<usize>, to: Seq<usize>, j: int, n: int)
    requires
        broadcasts_to(from, to),
        volume(from) <= usize::MAX,
        0 <= n <= volume(to),
    ensures
        visits(broadcast_map(from, to), j, n) == seen(from, to, j, n),
    decreases n,
{
    if n > 0 {
        lemma_visits_are_seen(from, to, j, n - 1);
        lemma_broadcast_map(from, to);
        assert(0 <= broadcast_source(from, to, n - 1) < volume(from));
    }
}

/// Over a ring, spreading an array over a shape and summing it back down adds up each
/// element as many times as there are copies of it.
pub proof fn summing_back_counts_the_copies<R: Ring>(x: Array<R>, shape: Seq<usize>, j: int)
    requires
        x.wf(),
        broadcasts_to(x.shape, shape),
        volume(shape) <= usize::MAX,
        0 <= j < x.data.len(),
    ensures
        sum_to_spec(broadcast_spec(x, shape), x.shape).data[j] == repeated(
            x.data[j],
            copies(x.shape, shape),
        ),
{
    lemma_broadcast_map(x.shape, shape);
    summing_axis_by_axis_is_summing_at_once(broadcast_spec(x, shape), x.shape);
    scattering_back_counts_the_visits(x.data, broadcast_map(x.shape, shape), j);
    lemma_visits_are_seen(x.shape, shape, j, volume(shape) as int);
    lemma_seen(x.shape, shape, j);
}

} // verus!
