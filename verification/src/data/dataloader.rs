//! A dataset cut into batches.

use std::marker::PhantomData;
use vstd::prelude::*;

use crate::data::{all_shaped, contents, stack_rows, stacked, Dataset};
use crate::engine::graph::{one_more, Graph, Variable};
use crate::index::volume;
use crate::scalar::Scalar;
use crate::tensor::{is_permutation, Array, Tensor};
use crate::utils::random::{counting, lemma_counting, shuffled, Rng};

verus! {

/// The seed that a shuffling loader starts from when none is given.
pub const DEFAULT_SHUFFLE_SEED: u64 = 0x5EED_0DA7_A10A_DE12;

/// One batch: stacked inputs and their labels.
#[derive(Debug, Clone, PartialEq)]
pub struct Batch<T> {
    /// The inputs, along a new leading axis.
    pub x: Tensor<T>,
    /// One label for each input, in the same order; none for an unlabelled
    /// dataset.
    pub t: Vec<usize>,
}

impl<T: Scalar> Batch<T> {
    /// The number of examples in the batch.
    pub open spec fn count(self) -> int {
        if self.x@.shape.len() == 0 {
            0
        } else {
            self.x@.shape[0] as int
        }
    }

    /// The number of examples in the batch.
    #[must_use]
    pub fn len(&self) -> (r: usize)
        ensures
            r == self.count(),
    {
        if self.x.shape.len() == 0 {
            0
        } else {
            self.x.shape[0]
        }
    }

    /// Whether the batch holds no examples.
    #[must_use]
    pub fn is_empty(&self) -> (r: bool)
        ensures
            r == (self.count() == 0),
    {
        self.len() == 0
    }

    /// The inputs as a variable.
    pub fn input<O>(&self, g: &mut Graph<T, O>) -> (v: Variable)
        requires
            self.x.wf(),
            old(g).wf(),
        ensures
            final(g).wf(),
            one_more(*old(g), *final(g), v),
            final(g).array(v) == Some(self.x@),
    {
        Variable::new(g, self.x.duplicate())
    }
}

/// How many parts of size `b` it takes to hold `n`.
pub open spec fn ceiling(n: int, b: int) -> int {
    if n % b == 0 {
        n / b
    } else {
        n / b + 1
    }
}

/// Where batch `k` ends.
pub open spec fn batch_end(n: int, b: int, k: int) -> int {
    if k * b + b < n {
        k * b + b
    } else {
        n
    }
}

/// The examples that batch `k` is made of.
pub open spec fn picked(order: Seq<usize>, b: int, k: int) -> Seq<usize> {
    order.subrange(k * b, batch_end(order.len() as int, b, k))
}

/// The order of an epoch, and the random state after it was drawn.
pub open spec fn epoch(shuffle: bool, n: nat, state: u64) -> (Seq<usize>, u64) {
    if shuffle {
        shuffled(counting(n), state, n - 1)
    } else {
        (counting(n), state)
    }
}

/// Every input of these examples has the shape `shape`.
pub open spec fn shaped<T: Scalar, D: Dataset<T>>(
    d: &D,
    examples: Seq<usize>,
    shape: Seq<usize>,
) -> bool {
    forall|j: int, a: Array<T>|
        0 <= j < examples.len() && #[trigger] d.yields(examples[j] as int, a) ==> a.shape == shape
}

/// Every one of these examples has a label, or none has.
pub open spec fn labelled<T: Scalar, D: Dataset<T>>(
    d: &D,
    examples: Seq<usize>,
    some: bool,
) -> bool {
    forall|j: int, t: Option<usize>|
        0 <= j < examples.len() && #[trigger] d.labels(examples[j] as int, t) ==> (t is Some) == some
}

/// These examples can be put into one batch: their inputs share a shape, they fit
/// into memory, and either all or none of them are labelled.
pub open spec fn uniform<T: Scalar, D: Dataset<T>>(d: &D, examples: Seq<usize>) -> bool {
    &&& exists|shape: Seq<usize>| #[trigger]
        shaped::<T, D>(d, examples, shape) && examples.len() * volume(shape) <= usize::MAX
    &&& labelled::<T, D>(d, examples, true) || labelled::<T, D>(d, examples, false)
}

/// `x` is the inputs of these examples, in their order.
pub open spec fn holds_inputs<T: Scalar, D: Dataset<T>>(
    d: &D,
    examples: Seq<usize>,
    x: Array<T>,
) -> bool {
    exists|rows: Seq<Array<T>>|
        {
            &&& rows.len() == examples.len()
            &&& forall|j: int|
                0 <= j < examples.len() ==> d.yields(examples[j] as int, #[trigger] rows[j])
            &&& x == #[trigger] stacked(rows)
        }
}

/// `t` is the labels of these examples, in their order, or nothing where they
/// have none.
pub open spec fn holds_labels<T: Scalar, D: Dataset<T>>(
    d: &D,
    examples: Seq<usize>,
    t: Seq<usize>,
) -> bool {
    if labelled::<T, D>(d, examples, true) {
        &&& t.len() == examples.len()
        &&& forall|j: int|
            0 <= j < examples.len() ==> d.labels(examples[j] as int, Some(#[trigger] t[j]))
    } else {
        t.len() == 0
    }
}

/// Walks a dataset in batches, an epoch at a time.
pub struct DataLoader<'a, T: Scalar, D: Dataset<T>> {
    pub dataset: &'a D,
    pub batch_size: usize,
    pub shuffle: bool,
    pub data_size: usize,
    pub max_iter: usize,
    pub iteration: usize,
    pub index: Vec<usize>,
    pub rng: Rng,
    pub element: PhantomData<T>,
}

impl<'a, T: Scalar, D: Dataset<T>> DataLoader<'a, T, D> {
    /// The order visits every example exactly once, and the batches are counted
    /// rightly.
    pub open spec fn wf(self) -> bool {
        &&& self.dataset.valid()
        &&& self.data_size == self.dataset.size()
        &&& self.batch_size > 0
        &&& self.max_iter == ceiling(self.data_size as int, self.batch_size as int)
        &&& self.iteration <= self.max_iter
        &&& is_permutation(self.index@, self.data_size as nat)
    }

    /// The examples of batch `k` of this epoch.
    pub open spec fn examples(self, k: int) -> Seq<usize> {
        picked(self.index@, self.batch_size as int, k)
    }

    /// The same dataset is walked in batches of the same size.
    pub open spec fn walks_as(self, other: Self) -> bool {
        &&& self.dataset == other.dataset
        &&& self.batch_size == other.batch_size
        &&& self.shuffle == other.shuffle
        &&& self.data_size == other.data_size
        &&& self.max_iter == other.max_iter
    }

    /// Wraps a dataset. Whether each epoch is shuffled is the caller's to say.
    #[must_use]
    pub fn new(dataset: &'a D, batch_size: usize, shuffle: bool) -> (r: Self)
        requires
            dataset.valid(),
            batch_size > 0,
        ensures
            r.wf(),
            r.dataset == dataset,
            r.batch_size == batch_size,
            r.shuffle == shuffle,
            r.iteration == 0,
            (r.index@, r.rng.state) == epoch(shuffle, dataset.size(), DEFAULT_SHUFFLE_SEED),
    {
        let data_size: usize = dataset.len();
        proof {
            lemma_ceiling(data_size as int, batch_size as int);
        }
        let mut max_iter: usize = data_size / batch_size;
        if data_size % batch_size != 0 {
            max_iter = max_iter + 1;
        }
        let mut rng = Rng::new(DEFAULT_SHUFFLE_SEED);
        let index = draw_order(shuffle, data_size, &mut rng);
        DataLoader {
            dataset,
            batch_size,
            shuffle,
            data_size,
            max_iter,
            iteration: 0,
            index,
            rng,
            element: PhantomData,
        }
    }

    /// Pins the random stream, and draws the order of this epoch anew from it.
    #[must_use]
    pub fn with_seed(self, seed: u64) -> (r: Self)
        requires
            self.wf(),
        ensures
            r.wf(),
            r.walks_as(self),
            r.iteration == 0,
            (r.index@, r.rng.state) == epoch(self.shuffle, self.data_size as nat, seed),
    {
        let mut rng = Rng::new(seed);
        let index = draw_order(self.shuffle, self.data_size, &mut rng);
        DataLoader {
            dataset: self.dataset,
            batch_size: self.batch_size,
            shuffle: self.shuffle,
            data_size: self.data_size,
            max_iter: self.max_iter,
            iteration: 0,
            index,
            rng,
            element: PhantomData,
        }
    }

    /// Starts a fresh epoch, in a new order where it shuffles.
    pub fn reset(&mut self)
        requires
            old(self).wf(),
        ensures
            final(self).wf(),
            final(self).walks_as(*old(self)),
            final(self).iteration == 0,
            (final(self).index@, final(self).rng.state) == epoch(
                old(self).shuffle,
                old(self).data_size as nat,
                old(self).rng.state,
            ),
    {
        self.iteration = 0;
        self.index = draw_order(self.shuffle, self.data_size, &mut self.rng);
    }

    /// The number of examples in the dataset.
    #[must_use]
    pub fn data_size(&self) -> (r: usize)
        ensures
            r == self.data_size,
    {
        self.data_size
    }

    /// The number of batches in one epoch.
    #[must_use]
    pub fn max_iter(&self) -> (r: usize)
        ensures
            r == self.max_iter,
    {
        self.max_iter
    }

    /// The size that was asked for; only the last batch may be smaller.
    #[must_use]
    pub fn batch_size(&self) -> (r: usize)
        ensures
            r == self.batch_size,
    {
        self.batch_size
    }

    /// Whether each epoch permutes the examples.
    #[must_use]
    pub fn shuffle(&self) -> (r: bool)
        ensures
            r == self.shuffle,
    {
        self.shuffle
    }

    /// How many batches this epoch has already given.
    #[must_use]
    pub fn iteration(&self) -> (r: usize)
        ensures
            r == self.iteration,
    {
        self.iteration
    }

    /// The order in which this epoch visits the examples.
    #[must_use]
    pub fn order(&self) -> (r: &[usize])
        ensures
            r@ == self.index@,
    {
        self.index.as_slice()
    }

    /// The batches that are left, as a lower and an upper bound.
    #[must_use]
    pub fn size_hint(&self) -> (r: (usize, Option<usize>))
        requires
            self.wf(),
        ensures
            r.0 == self.max_iter - self.iteration,
            r.1 == Some(r.0),
    {
        let left: usize = self.max_iter - self.iteration;
        (left, Some(left))
    }

    /// Assembles batch `iteration`, without advancing.
    pub fn batch_at(&self, iteration: usize) -> (r: Batch<T>)
        requires
            self.wf(),
            iteration < self.max_iter,
            uniform::<T, D>(self.dataset, self.examples(iteration as int)),
        ensures
            r.x.wf(),
            holds_inputs(self.dataset, self.examples(iteration as int), r.x@),
            holds_labels::<T, D>(self.dataset, self.examples(iteration as int), r.t@),
            r.count() == self.examples(iteration as int).len(),
    {
        let ghost n = self.data_size as int;
        let ghost b = self.batch_size as int;
        let ghost k = iteration as int;
        let ghost examples = self.examples(k);
        proof {
            lemma_batch_range(n, b, k);
        }
        let start: usize = iteration * self.batch_size;
        let end: usize = if self.data_size - start < self.batch_size {
            self.data_size
        } else {
            start + self.batch_size
        };
        assert(end == batch_end(n, b, k));
        let mut inputs: Vec<Tensor<T>> = Vec::new();
        let mut labels: Vec<usize> = Vec::new();
        let ghost some = labelled::<T, D>(self.dataset, examples, true);
        let ghost shape = choose|shape: Seq<usize>| #[trigger]
            shaped::<T, D>(self.dataset, examples, shape) && examples.len() * volume(shape)
                <= usize::MAX;
        let mut at: usize = start;
        while at < end
            invariant
                self.wf(),
                examples == self.index@.subrange(start as int, end as int),
                start <= at <= end <= self.index@.len(),
                labelled::<T, D>(self.dataset, examples, some),
                shaped::<T, D>(self.dataset, examples, shape),
                inputs@.len() == at - start,
                forall|j: int|
                    0 <= j < at - start ==> {
                        &&& (#[trigger] inputs@[j]).wf()
                        &&& self.dataset.yields(examples[j] as int, inputs@[j]@)
                        &&& inputs@[j]@.shape == shape
                    },
                labels@.len() == if some {
                    at - start
                } else {
                    0
                },
                forall|j: int|
                    0 <= j < labels@.len() ==> self.dataset.labels(
                        examples[j] as int,
                        Some(#[trigger] labels@[j]),
                    ),
            decreases end - at,
        {
            let i: usize = self.index[at];
            assert(i == examples[at - start]);
            let x = self.dataset.input(i);
            assert(self.dataset.yields(examples[at - start] as int, x@));
            inputs.push(x);
            let t = self.dataset.label(i);
            assert(self.dataset.labels(examples[at - start] as int, t));
            match t {
                Some(label) => {
                    labels.push(label);
                },
                None => {},
            }
            at = at + 1;
        }
        proof {
            let rows = contents(inputs@);
            assert(examples.len() > 0);
            assert(inputs@[0]@.shape == shape);
            assert forall|j: int| 0 <= j < rows.len() implies (#[trigger] rows[j]).shape
                == inputs@[0]@.shape by {
                assert(inputs@[j]@.shape == shape);
            }
            assert(all_shaped(rows, inputs@[0]@.shape));
            assert forall|j: int| 0 <= j < examples.len() implies self.dataset.yields(
                examples[j] as int,
                #[trigger] rows[j],
            ) by {
                assert(self.dataset.yields(examples[j] as int, inputs@[j]@));
            }
        }
        let x = stack_rows(inputs.as_slice());
        assert(x@ == stacked(contents(inputs@)));
        Batch { x, t: labels }
    }

    /// The next batch of this epoch, or nothing once it is exhausted, for good.
    pub fn next(&mut self) -> (r: Option<Batch<T>>)
        requires
            old(self).wf(),
            old(self).iteration < old(self).max_iter ==> uniform::<T, D>(
                old(self).dataset,
                old(self).examples(old(self).iteration as int),
            ),
        ensures
            final(self).wf(),
            final(self).walks_as(*old(self)),
            final(self).index == old(self).index,
            final(self).rng == old(self).rng,
            r is Some <==> old(self).iteration < old(self).max_iter,
            r is None ==> final(self).iteration == old(self).iteration,
            r matches Some(batch) ==> {
                let examples = old(self).examples(old(self).iteration as int);
                &&& final(self).iteration == old(self).iteration + 1
                &&& batch.x.wf()
                &&& holds_inputs(old(self).dataset, examples, batch.x@)
                &&& holds_labels::<T, D>(old(self).dataset, examples, batch.t@)
                &&& batch.count() == examples.len()
            },
    {
        if self.iteration >= self.max_iter {
            return None;
        }
        let batch = self.batch_at(self.iteration);
        self.iteration = self.iteration + 1;
        Some(batch)
    }
}

fn draw_order(shuffle: bool, n: usize, rng: &mut Rng) -> (order: Vec<usize>)
    ensures
        (order@, final(rng).state) == epoch(shuffle, n as nat, old(rng).state),
        is_permutation(order@, n as nat),
{
    if shuffle {
        return rng.permutation(n);
    }
    let mut order: Vec<usize> = Vec::new();
    let mut k: usize = 0;
    while k < n
        invariant
            k <= n,
            order@ == counting(k as nat),
        decreases n - k,
    {
        order.push(k);
        assert(order@ =~= counting((k + 1) as nat));
        k = k + 1;
    }
    proof {
        lemma_counting(n as nat);
    }
    order
}

proof fn lemma_ceiling(n: int, b: int)
    requires
        n >= 0,
        b > 0,
    ensures
        0 <= ceiling(n, b) <= n,
        ceiling(n, b) * b >= n,
        n > 0 ==> (ceiling(n, b) - 1) * b < n,
        n / b <= n,
        n % b != 0 ==> n / b < n,
{
    let q = n / b;
    let r = n % b;
    vstd::arithmetic::div_mod::lemma_fundamental_div_mod(n, b);
    vstd::arithmetic::div_mod::lemma_mod_bound(n, b);
    vstd::arithmetic::div_mod::lemma_div_pos_is_pos(n, b);
    assert(q <= n && (r > 0 ==> q < n)) by (nonlinear_arith)
        requires
            n == b * q + r,
            b > 0,
            q >= 0,
            0 <= r,
    ;
    assert(b * q == q * b) by (nonlinear_arith);
    assert((q + 1) * b == q * b + b) by (nonlinear_arith);
    assert((q - 1) * b == q * b - b) by (nonlinear_arith);
}

proof fn lemma_batch_range(n: int, b: int, k: int)
    requires
        n >= 0,
        b > 0,
        0 <= k < ceiling(n, b),
    ensures
        0 <= k * b < n,
        k * b < batch_end(n, b, k) <= n,
{
    lemma_ceiling(n, b);
    assert(0 <= k * b && k * b <= (ceiling(n, b) - 1) * b) by (nonlinear_arith)
        requires
            0 <= k <= ceiling(n, b) - 1,
            b > 0,
    ;
}

/// The examples of the first `k` batches, one batch after the other.
pub open spec fn visited(order: Seq<usize>, b: int, k: int) -> Seq<usize>
    decreases k,
{
    if k <= 0 {
        Seq::empty()
    } else {
        visited(order, b, k - 1) + picked(order, b, k - 1)
    }
}

proof fn lemma_visited(order: Seq<usize>, b: int, k: int)
    requires
        b > 0,
        0 <= k <= ceiling(order.len() as int, b),
    ensures
        visited(order, b, k) == order.take(
            if k * b < order.len() {
                k * b
            } else {
                order.len() as int
            },
        ),
    decreases k,
{
    let n = order.len() as int;
    if k == 0 {
        assert(0 * b == 0) by (nonlinear_arith);
        assert(visited(order, b, 0) =~= order.take(0));
    } else {
        lemma_visited(order, b, k - 1);
        lemma_batch_range(n, b, k - 1);
        assert((k - 1) * b + b == k * b) by (nonlinear_arith);
        let upto = if k * b < n {
            k * b
        } else {
            n
        };
        assert(visited(order, b, k) =~= order.take(upto));
    }
}

/// Walking an epoch to its end visits the examples in its order, leaving none
/// out and repeating none.
pub proof fn an_epoch_visits_every_example_once(order: Seq<usize>, n: nat, b: int, example: usize)
    requires
        is_permutation(order, n),
        b > 0,
        example < n,
    ensures
        visited(order, b, ceiling(n as int, b)) == order,
        exists|i: int| 0 <= i < n && #[trigger] order[i] == example,
        forall|i: int, j: int|
            0 <= i < n && 0 <= j < n && #[trigger] order[i] == example && #[trigger] order[j]
                == example ==> i == j,
{
    let k = ceiling(n as int, b);
    lemma_ceiling(n as int, b);
    lemma_visited(order, b, k);
    assert(visited(order, b, k) =~= order);
    assert(order.contains((example as int) as usize));
}

/// Every batch but the last has the size asked for, and the last has what is
/// left, which is never nothing.
pub proof fn only_the_last_batch_is_short(order: Seq<usize>, b: int, k: int)
    requires
        b > 0,
        0 <= k < ceiling(order.len() as int, b),
    ensures
        k + 1 < ceiling(order.len() as int, b) ==> picked(order, b, k).len() == b,
        k + 1 == ceiling(order.len() as int, b) ==> picked(order, b, k).len() == order.len() - k * b,
        0 < picked(order, b, k).len() <= b,
{
    let n = order.len() as int;
    lemma_batch_range(n, b, k);
    lemma_ceiling(n, b);
    assert((k + 1) * b == k * b + b) by (nonlinear_arith);
    if k + 1 < ceiling(n, b) {
        lemma_batch_range(n, b, k + 1);
    }
}

} // verus!
