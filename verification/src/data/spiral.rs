//! Three spiral arms in the plane, a class each.

use vstd::prelude::*;
use vstd::relations::injective_on;
use vstd::set_lib::{lemma_int_range, lemma_map_size, set_int_range};

use crate::data::Dataset;
use crate::functions::basic_math::{image, is_function};
use crate::laws::data::{lies_on_its_arm, points_lie_on_their_arms};
use crate::laws::elements::entry;
use crate::scalar::{Ring, Scalar};
use crate::tensor::{is_permutation, Array, Tensor};
use crate::utils::array::lemma_volume1;
use crate::utils::conv::lemma_volume2;
use crate::utils::random::{counting, nth_state, numerator, shuffled, Rng};

verus! {

/// Spiral arms, one for each class.
pub const CLASSES: usize = 3;

/// Points on each arm.
pub const POINTS_PER_CLASS: usize = 100;

/// Coordinates of a point.
pub const INPUT_DIM: usize = 2;

/// Points with the arm that each lies on.
#[derive(Debug, Clone, PartialEq)]
pub struct Spiral<T> {
    pub x: Tensor<T>,
    pub t: Vec<usize>,
}

/// Row `i` of a matrix.
pub open spec fn row<T>(x: Array<T>, i: int) -> Array<T> {
    Array {
        shape: seq![x.shape[1]],
        data: x.data.subrange(i * x.shape[1], i * x.shape[1] + x.shape[1]),
    }
}

/// The rows of a matrix in the order given.
pub open spec fn rows_in_order<T>(x: Array<T>, order: Seq<usize>) -> Array<T> {
    let columns = x.shape[1] as int;
    Array {
        shape: seq![order.len() as usize, x.shape[1]],
        data: Seq::new(
            (order.len() * x.shape[1]) as nat,
            |k: int| x.data[order[k / columns] * columns + k % columns],
        ),
    }
}

/// The arms of points that stand in the order given, when there are
/// [`POINTS_PER_CLASS`] points to each arm, one arm after the other.
pub open spec fn arms(order: Seq<usize>) -> Seq<usize> {
    Seq::new(order.len(), |i: int| (order[i] as int / POINTS_PER_CLASS as int) as usize)
}

/// Whether `noise` is what `normal` makes of the first draws behind a seed, a pair for
/// each point.
pub open spec fn drawn_from<T, F: Fn(u64, u64) -> T>(normal: F, seed: u64, noise: Seq<T>) -> bool {
    &&& noise.len() == CLASSES * POINTS_PER_CLASS
    &&& forall|i: int|
        0 <= i < noise.len() ==> call_ensures(
            normal,
            (numerator(seed, (2 * i + 1) as nat), numerator(seed, (2 * i + 2) as nat)),
            #[trigger] noise[i],
        )
}

/// How far point `k` lies from the middle, and how far along its arm.
pub open spec fn along<T: Scalar>(k: int) -> T {
    T::count_spec((k % POINTS_PER_CLASS as int) as usize).over(T::count_spec(POINTS_PER_CLASS))
}

/// The angle of point `k`: an arm starts four radians behind the last one and turns by
/// four, and each point strays by a fifth of its normal draw.
pub open spec fn angle<T: Scalar>(k: int, noise: T) -> T {
    let four = T::count_spec(4);
    T::count_spec((k / POINTS_PER_CLASS as int) as usize).times(four).plus(
        four.times(along(k)),
    ).plus(noise.times(T::one_spec().over(T::count_spec(5))))
}

/// Coordinate `j` of the points one after the other.
pub open spec fn coordinate<T: Scalar, S: Fn(T) -> T, C: Fn(T) -> T>(
    noise: Seq<T>,
    sin: S,
    cos: C,
    j: int,
) -> T {
    let k = j / 2;
    let theta = angle(k, noise[k]);
    along::<T>(k).times(
        if j % 2 == 0 {
            image(sin, theta)
        } else {
            image(cos, theta)
        },
    )
}

/// The points, one arm after the other.
pub open spec fn arm_points<T: Scalar, S: Fn(T) -> T, C: Fn(T) -> T>(
    noise: Seq<T>,
    sin: S,
    cos: C,
) -> Array<T> {
    Array {
        shape: seq![(CLASSES * POINTS_PER_CLASS) as usize, INPUT_DIM],
        data: Seq::new(
            (CLASSES * POINTS_PER_CLASS * INPUT_DIM) as nat,
            |j: int| coordinate(noise, sin, cos, j),
        ),
    }
}

proof fn lemma_row<T>(x: Array<T>, i: int)
    requires
        x.wf(),
        x.shape.len() == 2,
        0 <= i < x.shape[0],
    ensures
        0 <= i * x.shape[1],
        i * x.shape[1] + x.shape[1] <= x.data.len(),
        row(x, i).wf(),
{
    let (n, c) = (x.shape[0], x.shape[1]);
    assert(x.shape =~= seq![n, c]);
    lemma_volume2(n, c);
    lemma_volume1(c);
    assert(0 <= i * c && i * c + c <= n * c) by (nonlinear_arith)
        requires
            0 <= i < n,
    ;
}

impl<T: Scalar> Spiral<T> {
    /// There is a label below [`CLASSES`] for every row.
    pub open spec fn wf(self) -> bool {
        &&& self.x.wf()
        &&& self.x@.shape.len() == 2
        &&& self.x@.shape[0] == self.t@.len()
        &&& forall|i: int| 0 <= i < self.t@.len() ==> #[trigger] self.t@[i] < CLASSES
    }

    /// Builds the dataset from a matrix of points and the matching arms.
    #[must_use]
    pub fn new(x: Tensor<T>, t: Vec<usize>) -> (r: Spiral<T>)
        requires
            x.wf(),
            x@.shape.len() == 2,
            x@.shape[0] == t@.len(),
            forall|i: int| 0 <= i < t@.len() ==> #[trigger] t@[i] < CLASSES,
        ensures
            r.wf(),
            r.x == x,
            r.t == t,
    {
        Spiral { x, t }
    }

    /// Draws a spiral: `normal` makes a normal draw of two uniform ones.
    #[must_use]
    pub fn generate<F: Fn(u64, u64) -> T, S: Fn(T) -> T, C: Fn(T) -> T>(
        seed: u64,
        normal: &F,
        sin: &S,
        cos: &C,
    ) -> (r: Spiral<T>)
        requires
            forall|a: u64, b: u64| #[trigger] call_requires(*normal, (a, b)),
            is_function(*sin),
            is_function(*cos),
        ensures
            r.wf(),
            exists|noise: Seq<T>| #[trigger]
                drawn_from(*normal, seed, noise) && ({
                    let n = CLASSES * POINTS_PER_CLASS;
                    let order = shuffled(
                        counting(n as nat),
                        nth_state(seed, (2 * n) as nat),
                        n - 1,
                    ).0;
                    &&& is_permutation(order, n as nat)
                    &&& r.x@ == rows_in_order(arm_points(noise, *sin, *cos), order)
                    &&& r.t@ == arms(order)
                    &&& forall|i: int|
                        0 <= i < 300 ==> lies_on_its_arm(
                            entry(r.x@, i, 0),
                            entry(r.x@, i, 1),
                            #[trigger] r.t@[i] as int,
                            order[i] as int % 100,
                            noise[order[i] as int],
                            *sin,
                            *cos,
                        )
                }),
    {
        let n: usize = CLASSES * POINTS_PER_CLASS;
        let mut rng = Rng::new(seed);
        let shape: [usize; 1] = [n];
        proof {
            lemma_volume1(n);
            lemma_volume2(n, INPUT_DIM);
            assert(shape@ =~= seq![n]);
        }
        let noise = rng.randn(shape.as_slice(), normal);
        assert(drawn_from(*normal, seed, noise@.data));
        let spread: T = T::one().div(T::from_count(5));
        let four: T = T::from_count(4);
        let mut flat: Vec<T> = Vec::new();
        let mut k: usize = 0;
        while k < n
            invariant
                n == 300,
                k <= n,
                noise@.data.len() == n,
                is_function(*sin),
                is_function(*cos),
                spread == T::one_spec().over(T::count_spec(5)),
                four == T::count_spec(4),
                flat@.len() == 2 * k,
                forall|j: int|
                    0 <= j < 2 * k ==> #[trigger] flat@[j] == coordinate(
                        noise@.data,
                        *sin,
                        *cos,
                        j,
                    ),
            decreases n - k,
        {
            let rate: T = T::from_count(k % 100).div(T::from_count(POINTS_PER_CLASS));
            let theta: T = T::from_count(k / 100).mul(four).add(four.mul(rate)).add(
                noise.data[k].mul(spread),
            );
            assert(call_requires(*sin, (theta,)));
            let s: T = sin(theta);
            assert(call_ensures(*sin, (theta,), s));
            assert(call_requires(*cos, (theta,)));
            let c: T = cos(theta);
            assert(call_ensures(*cos, (theta,), c));
            flat.push(rate.mul(s));
            flat.push(rate.mul(c));
            proof {
                assert((2 * k) / 2 == k && (2 * k + 1) / 2 == k);
                assert((2 * k) % 2 == 0 && (2 * k + 1) % 2 == 1);
            }
            k = k + 1;
        }
        let dims: Vec<usize> = vec![n, INPUT_DIM];
        let points = Tensor { shape: dims, data: flat };
        proof {
            assert(points@.shape =~= seq![n, INPUT_DIM]);
            assert(points@ =~= arm_points(noise@.data, *sin, *cos));
        }
        let ghost order = shuffled(counting(n as nat), rng.state, n - 1).0;
        let r = Self::shuffle(&points, &mut rng);
        proof {
            assert forall|i: int| 0 <= i < 300 implies lies_on_its_arm(
                entry(r.x@, i, 0),
                entry(r.x@, i, 1),
                #[trigger] r.t@[i] as int,
                order[i] as int % 100,
                noise@.data[order[i] as int],
                *sin,
                *cos,
            ) by {
                let k = order[i] as int;
                points_lie_on_their_arms(noise@.data, *sin, *cos, order, i, k / 100, k % 100);
            }
        }
        r
    }

    /// Shuffles points that come one arm after the other, each with its arm.
    #[must_use]
    pub fn shuffle(points: &Tensor<T>, rng: &mut Rng) -> (r: Spiral<T>)
        requires
            points.wf(),
            points@.shape == seq![(CLASSES * POINTS_PER_CLASS) as usize, INPUT_DIM],
        ensures
            r.wf(),
            ({
                let n = CLASSES * POINTS_PER_CLASS;
                let drawn = shuffled(counting(n as nat), old(rng).state, n - 1);
                &&& final(rng).state == drawn.1
                &&& is_permutation(drawn.0, n as nat)
                &&& r.x@ == rows_in_order(points@, drawn.0)
                &&& r.t@ == arms(drawn.0)
            }),
    {
        let n: usize = CLASSES * POINTS_PER_CLASS;
        let order = rng.permutation(n);
        let mut shuffled_points: Vec<T> = Vec::new();
        let mut shuffled_labels: Vec<usize> = Vec::new();
        let mut i: usize = 0;
        proof {
            lemma_volume2(n, INPUT_DIM);
        }
        while i < n
            invariant
                n == 300,
                i <= n,
                is_permutation(order@, n as nat),
                points@.data.len() == 600,
                shuffled_points@.len() == 2 * i,
                shuffled_labels@.len() == i,
                forall|k: int|
                    0 <= k < 2 * i ==> #[trigger] shuffled_points@[k] == points@.data[order@[k / 2]
                        * 2 + k % 2],
                forall|k: int| 0 <= k < i ==> #[trigger] shuffled_labels@[k] == order@[k] / 100,
            decreases n - i,
        {
            let source: usize = order[i];
            let first: T = points.data[source * 2];
            let second: T = points.data[source * 2 + 1];
            shuffled_points.push(first);
            shuffled_points.push(second);
            shuffled_labels.push(source / 100);
            assert((2 * i) / 2 == i && (2 * i + 1) / 2 == i);
            i = i + 1;
        }
        let shape: Vec<usize> = vec![n, INPUT_DIM];
        let x = Tensor { shape, data: shuffled_points };
        assert(x@.shape =~= seq![n, INPUT_DIM]);
        assert(x@ =~= rows_in_order(points@, order@));
        assert(shuffled_labels@ =~= arms(order@));
        Spiral { x, t: shuffled_labels }
    }

    /// Every point, as one matrix.
    #[must_use]
    pub fn inputs(&self) -> (r: &Tensor<T>)
        ensures
            *r == self.x,
    {
        &self.x
    }

    /// Every arm.
    #[must_use]
    pub fn labels(&self) -> (r: &[usize])
        ensures
            r@ == self.t@,
    {
        self.t.as_slice()
    }
}

impl<T: Scalar> Dataset<T> for Spiral<T> {
    open spec fn valid(&self) -> bool {
        self.wf()
    }

    open spec fn size(&self) -> nat {
        self.t@.len()
    }

    open spec fn yields(&self, i: int, x: Array<T>) -> bool {
        x == row(self.x@, i)
    }

    open spec fn labels(&self, i: int, t: Option<usize>) -> bool {
        t == Some(self.t@[i])
    }

    fn len(&self) -> (r: usize) {
        self.t.len()
    }

    fn input(&self, index: usize) -> (r: Tensor<T>) {
        proof {
            lemma_row(self.x@, index as int);
        }
        let columns: usize = self.x.shape[1];
        let start: usize = index * columns;
        let mut data: Vec<T> = Vec::new();
        let mut k: usize = 0;
        while k < columns
            invariant
                start + columns <= self.x@.data.len() <= usize::MAX,
                k <= columns,
                data@ == self.x@.data.subrange(start as int, start + k),
            decreases columns - k,
        {
            let x: T = self.x.data[start + k];
            data.push(x);
            assert(data@ =~= self.x@.data.subrange(start as int, start + k + 1));
            k = k + 1;
        }
        let shape: Vec<usize> = vec![columns];
        let r = Tensor { shape, data };
        assert(r@ =~= row(self.x@, index as int));
        r
    }

    fn label(&self, index: usize) -> (r: Option<usize>) {
        Some(self.t[index])
    }
}

/// However the points are shuffled, each arm keeps all of its points.
pub proof fn every_arm_keeps_its_points(order: Seq<usize>, arm: int)
    requires
        is_permutation(order, (CLASSES * POINTS_PER_CLASS) as nat),
        0 <= arm < CLASSES,
    ensures
        set_int_range(0, order.len() as int).filter(|i: int| arms(order)[i] == arm).finite(),
        set_int_range(0, order.len() as int).filter(|i: int| arms(order)[i] == arm).len()
            == POINTS_PER_CLASS,
{
    let n = order.len() as int;
    let places = set_int_range(0, n).filter(|i: int| arms(order)[i] == arm);
    let points = set_int_range(100 * arm, 100 * arm + 100);
    let f = |i: int| order[i] as int;
    lemma_int_range(0, n);
    lemma_int_range(100 * arm, 100 * arm + 100);
    assert(places.subset_of(set_int_range(0, n)));
    vstd::set_lib::lemma_set_subset_finite(set_int_range(0, n), places);
    assert(injective_on(f, places)) by {
        assert forall|i: int, j: int|
            places.contains(i) && places.contains(j) && #[trigger] f(i) == #[trigger] f(j) implies i
            == j by {
            if i < j {
                assert(order[i] != order[j]);
            } else if j < i {
                assert(order[j] != order[i]);
            }
        }
    }
    assert(places.map(f) =~= points) by {
        assert forall|v: int| #[trigger] places.map(f).contains(v) implies points.contains(v) by {
            let i = choose|i: int| places.contains(i) && v == f(i);
            assert(arms(order)[i] == arm);
        }
        assert forall|v: int| #[trigger] points.contains(v) implies places.map(f).contains(v) by {
            assert(order.contains(v as usize));
            let i = choose|i: int| 0 <= i < order.len() && order[i] == v as usize;
            assert(arms(order)[i] == arm);
            assert(places.contains(i));
            assert(v == f(i));
        }
    }
    lemma_map_size(places, points, f);
}

/// Whether sine and cosine are the sides of a right triangle with a long side of one.
pub open spec fn on_a_circle<T: Scalar, S: Fn(T) -> T, C: Fn(T) -> T>(sin: S, cos: C) -> bool {
    forall|theta: T|
        #![trigger image(sin, theta)]
        #![trigger image(cos, theta)]
        image(sin, theta).times(image(sin, theta)).plus(
            image(cos, theta).times(image(cos, theta)),
        ) == T::one_spec()
}

/// How far a point lies from the middle, squared.
pub open spec fn squared_distance<T: Scalar>(point: Array<T>) -> T {
    point.data[0].times(point.data[0]).plus(point.data[1].times(point.data[1]))
}

proof fn lemma_scaled_square<T: Ring>(r: T, s: T)
    ensures
        r.times(s).times(r.times(s)) == s.times(s).times(r.times(r)),
{
    T::times_commutes(r, s);
    T::times_associates(s, r, s.times(r));
    T::times_commutes(s, r);
    T::times_associates(r, r, s);
    T::times_commutes(r.times(r), s);
    T::times_associates(s, s, r.times(r));
}

/// However the points are shuffled, point `i` lies as far out as it came on its arm: the
/// first in the middle, and each a hundredth further than the last.
pub proof fn points_lie_where_they_came<T: Ring, S: Fn(T) -> T, C: Fn(T) -> T>(
    noise: Seq<T>,
    sin: S,
    cos: C,
    order: Seq<usize>,
    i: int,
)
    requires
        on_a_circle(sin, cos),
        is_permutation(order, (CLASSES * POINTS_PER_CLASS) as nat),
        0 <= i < order.len(),
    ensures
        squared_distance(row(rows_in_order(arm_points(noise, sin, cos), order), i)) == along::<T>(
            order[i] as int,
        ).times(along::<T>(order[i] as int)),
{
    let k = order[i] as int;
    let points = arm_points(noise, sin, cos);
    let all = rows_in_order(points, order);
    let p = row(all, i);
    let r = along::<T>(k);
    let theta = angle(k, noise[k]);
    let (s, c) = (image(sin, theta), image(cos, theta));
    assert((2 * i) / 2 == i && (2 * i + 1) / 2 == i);
    assert((2 * k) / 2 == k && (2 * k + 1) / 2 == k);
    assert(p.data[0] == all.data[2 * i] && p.data[1] == all.data[2 * i + 1]);
    assert(all.data[2 * i] == points.data[k * 2] && all.data[2 * i + 1] == points.data[k * 2 + 1]);
    assert(p.data[0] == r.times(s));
    assert(p.data[1] == r.times(c));
    lemma_scaled_square(r, s);
    lemma_scaled_square(r, c);
    T::times_distributes(s.times(s), c.times(c), r.times(r));
    T::times_commutes(T::one_spec(), r.times(r));
    T::one_is_neutral(r.times(r));
}

/// However the points are shuffled, every arm has exactly one point at each distance from
/// nought up to ninety-nine hundredths.
pub proof fn every_arm_reaches_every_distance<T: Ring, S: Fn(T) -> T, C: Fn(T) -> T>(
    noise: Seq<T>,
    sin: S,
    cos: C,
    order: Seq<usize>,
    arm: int,
    j: int,
) -> (i: int)
    requires
        on_a_circle(sin, cos),
        is_permutation(order, (CLASSES * POINTS_PER_CLASS) as nat),
        0 <= arm < CLASSES,
        0 <= j < POINTS_PER_CLASS,
    ensures
        0 <= i < order.len(),
        arms(order)[i] == arm,
        order[i] % POINTS_PER_CLASS == j,
        ({
            let rate = T::count_spec(j as usize).over(T::count_spec(POINTS_PER_CLASS));
            squared_distance(row(rows_in_order(arm_points(noise, sin, cos), order), i))
                == rate.times(rate)
        }),
        forall|m: int|
            0 <= m < order.len() && #[trigger] arms(order)[m] == arm && order[m] % POINTS_PER_CLASS
                == j ==> m == i,
{
    let k = POINTS_PER_CLASS * arm + j;
    assert(order.contains(k as usize));
    let i = order.index_of(k as usize);
    assert(order[i] == k);
    points_lie_where_they_came(noise, sin, cos, order, i);
    assert forall|m: int|
        0 <= m < order.len() && #[trigger] arms(order)[m] == arm && order[m] % POINTS_PER_CLASS
            == j implies m == i by {
        assert(order[m] == k);
        if m < i {
            assert(order[m] != order[i]);
        } else if i < m {
            assert(order[i] != order[m]);
        }
    }
    i
}

} // verus!
