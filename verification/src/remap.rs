//! Reading and accumulating through an index map.
//!
//! An index map lists, for each position of one array, the position of another
//! array that it is tied to, or nothing. [`gather`] reads through such a map and
//! [`scatter`] adds back through it. Broadcasting, transposing, extracting image
//! patches and selecting one column per row are all gathers; summing over axes,
//! folding patches back and spreading a selected gradient are the scatters of the
//! same maps. One law, [`scatter_is_adjoint_to_gather`], covers all those pairs.
use crate::scalar::{Ring, Scalar};
use vstd::prelude::*;

verus! {

/// Whether every position that `map` names lies below `n`.
pub open spec fn maps_into(map: Seq<Option<usize>>, n: nat) -> bool {
    forall|k: int|
        0 <= k < map.len() ==> (#[trigger] map[k] matches Some(j) ==> (j as nat) < n)
}

/// The element of `x` that each position of `map` names, and zero where it names
/// none.
pub open spec fn gather<T: Scalar>(x: Seq<T>, map: Seq<Option<usize>>) -> Seq<T> {
    Seq::new(
        map.len(),
        |k: int|
            match map[k] {
                Some(j) => x[j as int],
                None => T::zero_spec(),
            },
    )
}

/// The sum, in order, of those of the first `n` elements of `y` whose position is
/// mapped to `j`.
pub open spec fn sum_onto<T: Scalar>(
    y: Seq<T>,
    map: Seq<Option<usize>>,
    j: int,
    n: int,
) -> T
    decreases n,
{
    if n <= 0 {
        T::zero_spec()
    } else if map[n - 1] matches Some(t) && t == j {
        sum_onto(y, map, j, n - 1).plus(y[n - 1])
    } else {
        sum_onto(y, map, j, n - 1)
    }
}

/// An array of `len` elements in which each element of `y` has been added to the
/// position that `map` ties it to.
pub open spec fn scatter<T: Scalar>(y: Seq<T>, map: Seq<Option<usize>>, len: nat) -> Seq<T> {
    Seq::new(len, |j: int| sum_onto(y, map, j, y.len() as int))
}

/// The last of the first `n` elements of `y` whose position is mapped to `j`, or
/// zero where there is none.
pub open spec fn last_onto<T: Scalar>(
    y: Seq<T>,
    map: Seq<Option<usize>>,
    j: int,
    n: int,
) -> T
    decreases n,
{
    if n <= 0 {
        T::zero_spec()
    } else if map[n - 1] matches Some(t) && t == j {
        y[n - 1]
    } else {
        last_onto(y, map, j, n - 1)
    }
}

/// An array of `len` elements in which each element of `y` has been written to the
/// position that `map` ties it to.
pub open spec fn place<T: Scalar>(y: Seq<T>, map: Seq<Option<usize>>, len: nat) -> Seq<T> {
    Seq::new(len, |j: int| last_onto(y, map, j, y.len() as int))
}

/// The sum of the products of the first `n` elements of `a` and `b`.
pub open spec fn dot<T: Scalar>(a: Seq<T>, b: Seq<T>, n: int) -> T
    decreases n,
{
    if n <= 0 {
        T::zero_spec()
    } else {
        dot(a, b, n - 1).plus(a[n - 1].times(b[n - 1]))
    }
}

/// Computes [`gather`].
pub fn gather_through<T: Scalar>(x: &Vec<T>, map: &Vec<Option<usize>>) -> (r: Vec<T>)
    requires
        maps_into(map@, x@.len()),
    ensures
        r@ == gather(x@, map@),
{
    let n: usize = map.len();
    let mut r: Vec<T> = Vec::new();
    let mut k: usize = 0;
    while k < n
        invariant
            n == map@.len(),
            k <= n,
            r@.len() == k,
            maps_into(map@, x@.len()),
            forall|i: int| 0 <= i < k ==> #[trigger] r@[i] == gather(x@, map@)[i],
        decreases n - k,
    {
        let v: T = match map[k] {
            Some(j) => {
                assert(map@[k as int] == Some(j));
                x[j]
            },
            None => T::zero(),
        };
        r.push(v);
        k = k + 1;
    }
    assert(r@ =~= gather(x@, map@));
    r
}

/// Computes [`scatter`].
pub fn scatter_through<T: Scalar>(
    y: &Vec<T>,
    map: &Vec<Option<usize>>,
    len: usize,
) -> (r: Vec<T>)
    requires
        map@.len() == y@.len(),
        maps_into(map@, len as nat),
    ensures
        r@ == scatter(y@, map@, len as nat),
{
    let mut r: Vec<T> = Vec::new();
    let mut z: usize = 0;
    while z < len
        invariant
            z <= len,
            r@.len() == z,
            forall|i: int| 0 <= i < z ==> #[trigger] r@[i] == T::zero_spec(),
        decreases len - z,
    {
        r.push(T::zero());
        z = z + 1;
    }
    let n: usize = y.len();
    let mut k: usize = 0;
    while k < n
        invariant
            n == y@.len(),
            n == map@.len(),
            k <= n,
            r@.len() == len,
            maps_into(map@, len as nat),
            forall|j: int| 0 <= j < len ==> #[trigger] r@[j] == sum_onto(y@, map@, j, k as int),
        decreases n - k,
    {
        match map[k] {
            Some(j) => {
                assert(map@[k as int] == Some(j));
                let v: T = r[j].add(y[k]);
                r.set(j, v);
            },
            None => {},
        }
        k = k + 1;
    }
    assert(r@ =~= scatter(y@, map@, len as nat));
    r
}

/// Computes [`place`].
pub fn place_through<T: Scalar>(y: &Vec<T>, map: &Vec<Option<usize>>, len: usize) -> (r: Vec<T>)
    requires
        map@.len() == y@.len(),
        maps_into(map@, len as nat),
    ensures
        r@ == place(y@, map@, len as nat),
{
    let mut r: Vec<T> = Vec::new();
    let mut z: usize = 0;
    while z < len
        invariant
            z <= len,
            r@.len() == z,
            forall|i: int| 0 <= i < z ==> #[trigger] r@[i] == T::zero_spec(),
        decreases len - z,
    {
        r.push(T::zero());
        z = z + 1;
    }
    let n: usize = y.len();
    let mut k: usize = 0;
    while k < n
        invariant
            n == y@.len(),
            n == map@.len(),
            k <= n,
            r@.len() == len,
            maps_into(map@, len as nat),
            forall|j: int| 0 <= j < len ==> #[trigger] r@[j] == last_onto(y@, map@, j, k as int),
        decreases n - k,
    {
        match map[k] {
            Some(j) => {
                assert(map@[k as int] == Some(j));
                r.set(j, y[k]);
            },
            None => {},
        }
        k = k + 1;
    }
    assert(r@ =~= place(y@, map@, len as nat));
    r
}

/// Where no position is named twice, writing and adding come to the same.
pub proof fn placing_is_scattering_where_no_position_repeats<R: Ring>(
    y: Seq<R>,
    map: Seq<Option<usize>>,
    len: nat,
)
    requires
        map.len() == y.len(),
        forall|k: int, l: int|
            0 <= k < l < map.len() && (#[trigger] map[k]).is_some() ==> map[k]
                != #[trigger] map[l],
    ensures
        place(y, map, len) == scatter(y, map, len),
{
    assert forall|j: int| 0 <= j < len implies place(y, map, len)[j] == scatter(
        y,
        map,
        len,
    )[j] by {
        lemma_place_is_scatter(y, map, j, y.len() as int);
    }
    assert(place(y, map, len) =~= scatter(y, map, len));
}

proof fn lemma_place_is_scatter<R: Ring>(y: Seq<R>, map: Seq<Option<usize>>, j: int, n: int)
    requires
        map.len() == y.len(),
        0 <= n <= y.len(),
        forall|k: int, l: int|
            0 <= k < l < map.len() && (#[trigger] map[k]).is_some() ==> map[k]
                != #[trigger] map[l],
    ensures
        last_onto(y, map, j, n) == sum_onto(y, map, j, n),
    decreases n,
{
    if n > 0 {
        lemma_place_is_scatter(y, map, j, n - 1);
        if map[n - 1] matches Some(t) && t == j {
            assert forall|k: int| 0 <= k < n - 1 implies !(#[trigger] map[k] matches Some(t)
                && t == j) by {
                assert(map[k].is_some() ==> map[k] != map[n - 1]);
            }
            lemma_visits_none(map, j, n - 1);
            lemma_unvisited(y, map, j, n - 1);
            R::plus_commutes(R::zero_spec(), y[n - 1]);
            R::zero_is_neutral(y[n - 1]);
        }
    }
}

/// Changing one element of `a` by `v` changes the product with `x` by `v` times
/// the element of `x` there.
proof fn lemma_dot_update<R: Ring>(a: Seq<R>, x: Seq<R>, j: int, v: R, n: int)
    requires
        0 <= j < a.len(),
        a.len() == x.len(),
        n <= a.len(),
    ensures
        dot(a.update(j, a[j].plus(v)), x, n) == if j < n {
            dot(a, x, n).plus(v.times(x[j]))
        } else {
            dot(a, x, n)
        },
    decreases n,
{
    if n > 0 {
        lemma_dot_update(a, x, j, v, n - 1);
        let b = a.update(j, a[j].plus(v));
        let d = dot(a, x, n - 1);
        if j == n - 1 {
            R::times_distributes(a[j], v, x[j]);
            R::plus_associates(d, a[j].times(x[j]), v.times(x[j]));
        } else if j < n - 1 {
            let p = v.times(x[j]);
            let q = a[n - 1].times(x[n - 1]);
            R::plus_associates(d, p, q);
            R::plus_commutes(p, q);
            R::plus_associates(d, q, p);
        }
    }
}

proof fn lemma_dot_zero<R: Ring>(x: Seq<R>, n: int)
    requires
        n <= x.len(),
    ensures
        dot(Seq::new(x.len(), |j: int| R::zero_spec()), x, n) == R::zero_spec(),
    decreases n,
{
    if n > 0 {
        lemma_dot_zero(x, n - 1);
        R::times_commutes(R::zero_spec(), x[n - 1]);
        R::zero_absorbs(x[n - 1]);
        R::zero_is_neutral(R::zero_spec());
    }
}

proof fn lemma_adjoint<R: Ring>(x: Seq<R>, y: Seq<R>, map: Seq<Option<usize>>, n: int)
    requires
        map.len() == y.len(),
        maps_into(map, x.len()),
        0 <= n <= y.len(),
    ensures
        dot(Seq::new(x.len(), |j: int| sum_onto(y, map, j, n)), x, x.len() as int) == dot(
            y,
            gather(x, map),
            n,
        ),
    decreases n,
{
    let sums = Seq::new(x.len(), |j: int| sum_onto(y, map, j, n));
    if n == 0 {
        lemma_dot_zero(x, x.len() as int);
        assert(sums =~= Seq::new(x.len(), |j: int| R::zero_spec()));
    } else {
        lemma_adjoint(x, y, map, n - 1);
        let before = Seq::new(x.len(), |j: int| sum_onto(y, map, j, n - 1));
        let g = gather(x, map);
        match map[n - 1] {
            Some(j) => {
                lemma_dot_update(before, x, j as int, y[n - 1], x.len() as int);
                assert(sums =~= before.update(j as int, before[j as int].plus(y[n - 1])));
            },
            None => {
                assert(sums =~= before);
                R::zero_absorbs(y[n - 1]);
                R::zero_is_neutral(dot(y, g, n - 1));
            },
        }
    }
}

/// Scattering through a map is the adjoint of gathering through it: the product of
/// `scatter(y)` with `x` is the product of `y` with `gather(x)`.
pub proof fn scatter_is_adjoint_to_gather<R: Ring>(
    x: Seq<R>,
    y: Seq<R>,
    map: Seq<Option<usize>>,
)
    requires
        map.len() == y.len(),
        maps_into(map, x.len()),
    ensures
        dot(scatter(y, map, x.len()), x, x.len() as int) == dot(
            y,
            gather(x, map),
            y.len() as int,
        ),
{
    lemma_adjoint(x, y, map, y.len() as int);
    assert(scatter(y, map, x.len()) =~= Seq::new(
        x.len(),
        |j: int| sum_onto(y, map, j, y.len() as int),
    ));
}

/// How many of the first `n` positions of `map` name `j`.
pub open spec fn visits(map: Seq<Option<usize>>, j: int, n: int) -> nat
    decreases n,
{
    if n <= 0 {
        0
    } else if map[n - 1] matches Some(t) && t == j {
        visits(map, j, n - 1) + 1
    } else {
        visits(map, j, n - 1)
    }
}

/// `v` added up `count` times.
pub open spec fn repeated<T: Scalar>(v: T, count: nat) -> T
    decreases count,
{
    if count == 0 {
        T::zero_spec()
    } else {
        repeated(v, (count - 1) as nat).plus(v)
    }
}

proof fn lemma_sum_of_gathered<T: Scalar>(x: Seq<T>, map: Seq<Option<usize>>, j: int, n: int)
    requires
        0 <= n <= map.len(),
    ensures
        sum_onto(gather(x, map), map, j, n) == repeated(x[j], visits(map, j, n)),
    decreases n,
{
    if n > 0 {
        lemma_sum_of_gathered(x, map, j, n - 1);
    }
}

/// Gathering and scattering back adds each element up as often as the map names
/// it; an element that it never names comes back as zero.
pub proof fn scattering_back_counts_the_visits<T: Scalar>(
    x: Seq<T>,
    map: Seq<Option<usize>>,
    j: int,
)
    requires
        0 <= j < x.len(),
    ensures
        scatter(gather(x, map), map, x.len())[j] == repeated(
            x[j],
            visits(map, j, map.len() as int),
        ),
{
    lemma_sum_of_gathered(x, map, j, map.len() as int);
}

/// A position that nothing maps to receives nothing.
pub proof fn lemma_unvisited<T: Scalar>(y: Seq<T>, map: Seq<Option<usize>>, j: int, n: int)
    requires
        visits(map, j, n) == 0,
    ensures
        sum_onto(y, map, j, n) == T::zero_spec(),
    decreases n,
{
    if n > 0 {
        lemma_unvisited(y, map, j, n - 1);
    }
}

/// A position that no entry before `n` names has no visits, and one that a single
/// entry names has one.
pub proof fn lemma_visits_none(map: Seq<Option<usize>>, j: int, n: int)
    requires
        0 <= n <= map.len(),
        forall|k: int| 0 <= k < n ==> !(#[trigger] map[k] matches Some(t) && t == j),
    ensures
        visits(map, j, n) == 0,
    decreases n,
{
    if n > 0 {
        lemma_visits_none(map, j, n - 1);
    }
}

pub proof fn lemma_visits_once(map: Seq<Option<usize>>, j: int, k: int, n: int)
    requires
        0 <= k < n <= map.len(),
        map[k] matches Some(t) && t == j,
        forall|m: int|
            0 <= m < n && m != k ==> !(#[trigger] map[m] matches Some(t) && t == j),
    ensures
        visits(map, j, n) == 1,
    decreases n,
{
    if k == n - 1 {
        lemma_visits_none(map, j, n - 1);
    } else {
        lemma_visits_once(map, j, k, n - 1);
    }
}

} // verus!
