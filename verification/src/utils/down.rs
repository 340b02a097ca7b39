//! Summing an array down to a shape, axis by axis.

use vstd::prelude::*;

use crate::index::{
    lemma_unravel, lemma_unravel_offset, lemma_volume_positive, offset, unravel, volume,
};
use crate::remap::{
    gather, lemma_visits_once, repeated, scatter, scattering_back_counts_the_visits, sum_onto,
};
use crate::scalar::{Ring, Scalar};
use crate::tensor::Array;
use crate::utils::shape::{
    aligned_axis, broadcast_map, broadcast_source, broadcasts_to, lemma_broadcast_identity,
    lemma_broadcast_map, lemma_seen_through, partly, seen_through, sum_to_spec, summed_down,
};

verus! {

/// A shape with shorter axes holds no more.
proof fn lemma_volume_shrinks(a: Seq<usize>, b: Seq<usize>)
    requires
        a.len() == b.len(),
        forall|i: int| 0 <= i < a.len() ==> #[trigger] a[i] <= b[i],
    ensures
        volume(a) <= volume(b),
    decreases a.len(),
{
    if a.len() > 0 {
        let (s, t) = (a.drop_last(), b.drop_last());
        assert forall|i: int| 0 <= i < s.len() implies #[trigger] s[i] <= t[i] by {
            assert(a[i] <= b[i]);
        }
        lemma_volume_shrinks(s, t);
        let (u, v, x, y) = (volume(s), volume(t), a.last() as nat, b.last() as nat);
        assert(a[a.len() - 1] <= b[a.len() - 1]);
        assert(u * x <= v * y) by (nonlinear_arith)
            requires
                u <= v,
                x <= y,
        ;
    }
}

/// The shapes in between spread over each other.
pub proof fn lemma_partly(from: Seq<usize>, shape: Seq<usize>, n: int)
    requires
        broadcasts_to(shape, from),
        0 <= n < from.len(),
    ensures
        broadcasts_to(partly(from, shape, n), partly(from, shape, n + 1)),
        broadcasts_to(partly(from, shape, n), from),
        broadcasts_to(partly(from, shape, n + 1), from),
        volume(from) > 0 ==> 0 < volume(partly(from, shape, n)) <= volume(from),
{
    let (a, b) = (partly(from, shape, n), partly(from, shape, n + 1));
    assert forall|i: int| 0 <= i < from.len() implies (#[trigger] a[i] == 1 || a[i] == from[i])
        by {
        lemma_aligned(from, shape, i);
    }
    assert forall|i: int| 0 <= i < from.len() implies (#[trigger] b[i] == 1 || b[i] == from[i])
        by {
        lemma_aligned(from, shape, i);
    }
    assert forall|i: int| 0 <= i < from.len() implies (#[trigger] a[i] == 1 || a[i] == b[i]) by {
        lemma_aligned(from, shape, i);
    }
    if volume(from) > 0 {
        lemma_volume_positive(from);
        assert forall|i: int| 0 <= i < from.len() implies #[trigger] a[i] <= from[i] by {
            assert(from[i] > 0);
            assert(a[i] == 1 || a[i] == from[i]);
        }
        assert forall|i: int| 0 <= i < a.len() implies #[trigger] a[i] > 0 by {
            assert(from[i] > 0);
            assert(a[i] == 1 || a[i] == from[i]);
        }
        lemma_volume_shrinks(a, from);
        lemma_volume_positive(a);
    }
}

/// An axis of the target is 1 or that of the array.
proof fn lemma_aligned(from: Seq<usize>, shape: Seq<usize>, i: int)
    requires
        broadcasts_to(shape, from),
        0 <= i < from.len(),
    ensures
        aligned_axis(shape, from.len(), i) == 1 || aligned_axis(shape, from.len(), i) == from[i],
{
    let j = i + shape.len() - from.len();
    if j >= 0 {
        assert(shape[j] == 1 || shape[j] == from[j + from.len() - shape.len()]);
    }
}

/// Leading axes of length 1 hold nothing more.
pub proof fn lemma_partly_volume(from: Seq<usize>, shape: Seq<usize>)
    requires
        shape.len() <= from.len(),
    ensures
        volume(partly(from, shape, 0)) == volume(shape),
    decreases from.len(),
{
    let a = partly(from, shape, 0);
    if from.len() > 0 {
        let f = from.drop_last();
        if shape.len() == 0 {
            lemma_partly_volume(f, shape);
            assert(a.drop_last() =~= partly(f, shape, 0));
            assert(a.last() == 1);
            assert(volume(a.drop_last()) * 1 == volume(a.drop_last())) by (nonlinear_arith);
        } else {
            let t = shape.drop_last();
            lemma_partly_volume(f, t);
            assert(a.drop_last() =~= partly(f, t, 0)) by {
                assert forall|i: int| 0 <= i < f.len() implies a.drop_last()[i] == partly(
                    f,
                    t,
                    0,
                )[i] by {
                    if i + shape.len() >= from.len() {
                        assert(shape[i + shape.len() - from.len()] == t[i + t.len() - f.len()]);
                    }
                }
            }
            assert(a.last() == shape.last());
        }
    } else {
        assert(a =~= shape);
    }
}

/// Leading axes of length 1 are not seen.
proof fn lemma_leading_ones(from: Seq<usize>, shape: Seq<usize>, idx: Seq<int>)
    requires
        shape.len() <= from.len(),
        idx.len() == from.len(),
    ensures
        offset(partly(from, shape, 0), seen_through(idx, partly(from, shape, 0))) == offset(
            shape,
            seen_through(idx, shape),
        ),
    decreases from.len(),
{
    let a = partly(from, shape, 0);
    if from.len() > 0 {
        let (f, i) = (from.drop_last(), idx.drop_last());
        let s = seen_through(idx, a);
        if shape.len() == 0 {
            lemma_leading_ones(f, shape, i);
            assert(a.drop_last() =~= partly(f, shape, 0));
            assert(s.drop_last() =~= seen_through(i, a.drop_last()));
            assert(offset(a.drop_last(), s.drop_last()) == 0);
            assert(a.last() == 1 && s.last() == 0);
        } else {
            let t = shape.drop_last();
            lemma_leading_ones(f, t, i);
            assert(a.drop_last() =~= partly(f, t, 0)) by {
                assert forall|m: int| 0 <= m < f.len() implies a.drop_last()[m] == partly(
                    f,
                    t,
                    0,
                )[m] by {
                    if m + shape.len() >= from.len() {
                        assert(shape[m + shape.len() - from.len()] == t[m + t.len() - f.len()]);
                    }
                }
            }
            assert(s.drop_last() =~= seen_through(i, a.drop_last()));
            let u = seen_through(idx, shape);
            assert(u.drop_last() =~= seen_through(i, t)) by {
                assert forall|m: int| 0 <= m < t.len() implies u.drop_last()[m] == seen_through(
                    i,
                    t,
                )[m] by {
                    assert(shape[m] == t[m]);
                    assert(idx[m + idx.len() - shape.len()] == i[m + i.len() - t.len()]);
                }
            }
            assert(a.last() == shape.last());
            assert(s.last() == u.last());
        }
    } else {
        assert(a =~= shape);
    }
}

/// Spreading in two steps sees the same as spreading at once.
proof fn lemma_sources_compose(from: Seq<usize>, mid: Seq<usize>, to: Seq<usize>, k: int)
    requires
        from.len() == mid.len() == to.len(),
        broadcasts_to(from, mid),
        broadcasts_to(mid, to),
        0 <= k < volume(to),
    ensures
        broadcast_source(from, to, k) == broadcast_source(from, mid, broadcast_source(mid, to, k)),
{
    let idx = unravel(to, k);
    lemma_unravel(to, k);
    lemma_seen_through(mid, to, idx);
    let jdx = seen_through(idx, mid);
    lemma_unravel_offset(mid, jdx);
    assert(seen_through(jdx, from) =~= seen_through(idx, from)) by {
        assert forall|i: int| 0 <= i < from.len() implies seen_through(jdx, from)[i]
            == seen_through(idx, from)[i] by {
            assert(from[i] == 1 || from[i] == mid[i]);
        }
    }
}

/// What one more element adds to a sum of sums.
proof fn lemma_sum_onto_grows<R: Ring>(
    z: Seq<R>,
    map: Seq<Option<usize>>,
    t: int,
    v: R,
    j: int,
    n: int,
)
    requires
        0 <= t < z.len(),
        0 <= n <= z.len(),
    ensures
        sum_onto(z.update(t, z[t].plus(v)), map, j, n) == if t < n && (map[t] matches Some(m)
            && m == j) {
            sum_onto(z, map, j, n).plus(v)
        } else {
            sum_onto(z, map, j, n)
        },
    decreases n,
{
    if n > 0 {
        lemma_sum_onto_grows(z, map, t, v, j, n - 1);
        let s = sum_onto(z, map, j, n - 1);
        if t == n - 1 {
            R::plus_associates(s, z[t], v);
        } else {
            let e = z[n - 1];
            R::plus_associates(s, v, e);
            R::plus_commutes(v, e);
            R::plus_associates(s, e, v);
        }
    }
}

/// The first `n` elements, added onto positions.
spec fn scattered_first<R: Scalar>(y: Seq<R>, map: Seq<Option<usize>>, len: nat, n: int) -> Seq<R> {
    Seq::new(len, |t: int| sum_onto(y, map, t, n))
}

/// Adding onto positions in two steps comes to the same as adding at once.
proof fn lemma_scatter_twice<R: Ring>(
    y: Seq<R>,
    first: Seq<Option<usize>>,
    mid: nat,
    second: Seq<Option<usize>>,
    both: Seq<Option<usize>>,
    j: int,
    n: int,
)
    requires
        first.len() == y.len(),
        both.len() == y.len(),
        0 <= n <= y.len(),
        forall|k: int|
            0 <= k < y.len() ==> (#[trigger] first[k] matches Some(t) && t < mid && both[k]
                == second[t as int]),
    ensures
        sum_onto(scattered_first(y, first, mid, n), second, j, mid as int) == sum_onto(
            y,
            both,
            j,
            n,
        ),
    decreases n,
{
    let z = scattered_first(y, first, mid, n);
    if n == 0 {
        lemma_sum_of_zeros(z, second, j, mid as int);
    } else {
        lemma_scatter_twice(y, first, mid, second, both, j, n - 1);
        let before = scattered_first(y, first, mid, n - 1);
        assert(first[n - 1] is Some);
        let t = first[n - 1]->0 as int;
        assert(both[n - 1] == second[t]);
        assert(z =~= before.update(t, before[t].plus(y[n - 1])));
        lemma_sum_onto_grows(before, second, t, y[n - 1], j, mid as int);
    }
}

proof fn lemma_sum_of_zeros<R: Ring>(z: Seq<R>, map: Seq<Option<usize>>, j: int, n: int)
    requires
        0 <= n <= z.len(),
        forall|k: int| 0 <= k < z.len() ==> #[trigger] z[k] == R::zero_spec(),
    ensures
        sum_onto(z, map, j, n) == R::zero_spec(),
    decreases n,
{
    if n > 0 {
        lemma_sum_of_zeros(z, map, j, n - 1);
        assert(z[n - 1] == R::zero_spec());
        R::zero_is_neutral(R::zero_spec());
    }
}

/// Adding every element onto its own position changes nothing.
proof fn lemma_scatter_in_place<R: Ring>(x: Array<R>)
    requires
        x.wf(),
    ensures
        scatter(x.data, broadcast_map(x.shape, x.shape), volume(x.shape)) == x.data,
{
    let map = broadcast_map(x.shape, x.shape);
    lemma_broadcast_identity(x.shape);
    assert(gather(x.data, map) =~= x.data) by {
        assert forall|k: int| 0 <= k < x.data.len() implies gather(x.data, map)[k]
            == x.data[k] by {
            assert(broadcast_source(x.shape, x.shape, k) == k);
        }
    }
    let r = scatter(x.data, map, volume(x.shape));
    assert forall|j: int| 0 <= j < x.data.len() implies r[j] == x.data[j] by {
        scattering_back_counts_the_visits(x.data, map, j);
        assert(broadcast_source(x.shape, x.shape, j) == j);
        assert forall|m: int| 0 <= m < volume(x.shape) && m != j implies !(#[trigger] map[m] matches Some(
            t,
        ) && t == j) by {
            assert(broadcast_source(x.shape, x.shape, m) == m);
        }
        lemma_visits_once(map, j, j, volume(x.shape) as int);
        assert(repeated(x.data[j], 1) == repeated(x.data[j], 0).plus(x.data[j]));
        R::plus_commutes(R::zero_spec(), x.data[j]);
        R::zero_is_neutral(x.data[j]);
    }
    assert(r =~= x.data);
}

/// The array after some axes has as many elements as its shape says.
pub proof fn lemma_summed_down_wf<T: Scalar>(x: Array<T>, shape: Seq<usize>, n: int)
    requires
        x.wf(),
        x.data.len() > 0,
        broadcasts_to(shape, x.shape),
        0 <= n <= x.shape.len(),
    ensures
        summed_down(x, shape, n).wf(),
        summed_down(x, shape, n).shape == partly(x.shape, shape, n),
    decreases x.shape.len() - n,
{
    reveal(summed_down);
    if n == x.shape.len() {
        assert(partly(x.shape, shape, n) =~= x.shape);
    } else {
        lemma_summed_down_wf(x, shape, n + 1);
        lemma_partly(x.shape, shape, n);
    }
}

/// The sum has as many elements as its shape says.
pub proof fn lemma_sum_to_wf<T: Scalar>(x: Array<T>, shape: Seq<usize>)
    requires
        x.wf(),
        broadcasts_to(shape, x.shape),
    ensures
        sum_to_spec(x, shape).data.len() == volume(shape),
{
    if x.data.len() > 0 {
        lemma_summed_down_wf(x, shape, 0);
        lemma_partly_volume(x.shape, shape);
    }
}

proof fn lemma_down_at_once<R: Ring>(x: Array<R>, shape: Seq<usize>, n: int)
    requires
        x.wf(),
        x.data.len() > 0,
        broadcasts_to(shape, x.shape),
        0 <= n <= x.shape.len(),
    ensures
        summed_down(x, shape, n).data == scatter(
            x.data,
            broadcast_map(partly(x.shape, shape, n), x.shape),
            volume(partly(x.shape, shape, n)),
        ),
    decreases x.shape.len() - n,
{
    reveal(summed_down);
    if n == x.shape.len() {
        assert(partly(x.shape, shape, n) =~= x.shape);
        lemma_scatter_in_place(x);
    } else {
        lemma_down_at_once(x, shape, n + 1);
        lemma_summed_down_wf(x, shape, n + 1);
        lemma_partly(x.shape, shape, n);
        let above = summed_down(x, shape, n + 1);
        let (a, b) = (partly(x.shape, shape, n), partly(x.shape, shape, n + 1));
        if a != b {
            lemma_broadcast_map(b, x.shape);
            lemma_broadcast_map(a, b);
            lemma_broadcast_map(a, x.shape);
            let (first, second) = (broadcast_map(b, x.shape), broadcast_map(a, b));
            let both = broadcast_map(a, x.shape);
            assert forall|k: int| 0 <= k < x.data.len() implies (#[trigger] first[k] matches Some(t)
                && t < volume(b) && both[k] == second[t as int]) by {
                assert(0 <= broadcast_source(b, x.shape, k) < volume(b));
                lemma_sources_compose(a, b, x.shape, k);
            }
            let (l, r) = (
                scatter(above.data, second, volume(a)),
                scatter(x.data, both, volume(a)),
            );
            assert(above.data =~= scattered_first(x.data, first, volume(b), x.data.len() as int));
            assert forall|j: int| 0 <= j < volume(a) implies l[j] == r[j] by {
                lemma_scatter_twice(
                    x.data,
                    first,
                    volume(b),
                    second,
                    both,
                    j,
                    x.data.len() as int,
                );
            }
            assert(l =~= r);
        }
    }
}

/// Over a ring, summing axis by axis comes to the same as adding every element at once to
/// the one that it would have come from had the sum been spread.
pub proof fn summing_axis_by_axis_is_summing_at_once<R: Ring>(x: Array<R>, shape: Seq<usize>)
    requires
        x.wf(),
        broadcasts_to(shape, x.shape),
    ensures
        sum_to_spec(x, shape).data == scatter(
            x.data,
            broadcast_map(shape, x.shape),
            volume(shape),
        ),
{
    if x.data.len() == 0 {
        assert(sum_to_spec(x, shape).data =~= scatter(
            x.data,
            broadcast_map(shape, x.shape),
            volume(shape),
        ));
    } else {
        lemma_down_at_once(x, shape, 0);
        lemma_partly_volume(x.shape, shape);
        let a = partly(x.shape, shape, 0);
        assert(broadcast_map(a, x.shape) =~= broadcast_map(shape, x.shape)) by {
            assert forall|k: int| 0 <= k < volume(x.shape) implies broadcast_source(a, x.shape, k)
                == broadcast_source(shape, x.shape, k) by {
                lemma_unravel(x.shape, k);
                lemma_leading_ones(x.shape, shape, unravel(x.shape, k));
            }
        }
    }
}

} // verus!
