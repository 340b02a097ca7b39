//! Loss functions.
use crate::laws::axes::{
    cross_entropy_averages_over_rows, log_share, squared_differences_are_shared_by_the_rows,
};
use crate::laws::elements::sum_of;
use crate::scalar::Scalar;
use crate::tensor::{copy_of, full_spec, scalar_spec, Array, Tensor};
use crate::utils::array::{
    gather_rows, gather_rows_spec, lemma_one_axis, lemma_volume1, logsumexp, logsumexp_spec,
    scatter_add_rows, scatter_rows_spec, selects,
};
use crate::engine::builtin::{apply_binary, derives, held, holds, Builtin};
use crate::engine::elementwise::{
    lemma_joint_absorbs, lemma_scalar_broadcasts, zip_map, zip_spec, Arithmetic,
};
use crate::engine::function::{applied, Op};
use crate::engine::gradient::shape_held;
use crate::engine::graph::{Graph, Variable};
use crate::engine::ops::scalar;
use crate::engine::rule::Rule;
use crate::engine::term::{binary, lemma_binary, lemma_constant, means, Term};
use crate::functions::basic_math::{is_function, lemma_same_shape};
use vstd::prelude::*;

verus! {

/// The sum of the squared differences of the first `n` elements.
pub open spec fn squared_distance<T: Scalar>(a: Seq<T>, b: Seq<T>, n: int) -> T
    decreases n,
{
    if n <= 0 {
        T::zero_spec()
    } else {
        squared_distance(a, b, n - 1).plus(
            a[n - 1].minus(b[n - 1]).times(a[n - 1].minus(b[n - 1])),
        )
    }
}

/// The sum of the squared differences over the number of rows.
pub open spec fn mean_squared_error_spec<T: Scalar>(x0: Array<T>, x1: Array<T>) -> Array<T> {
    scalar_spec(
        squared_distance(x0.data, x1.data, x0.data.len() as int).over(T::count_spec(x0.shape[0])),
    )
}

/// The number of rows of a batch.
pub fn batch_size(shape: &[usize]) -> (n: usize)
    requires
        shape@.len() > 0,
    ensures
        n == shape@[0],
{
    shape[0]
}

pub fn mean_squared_error_array<T: Scalar>(x0: &Tensor<T>, x1: &Tensor<T>) -> (r: Tensor<T>)
    requires
        x0.wf(),
        x1.wf(),
        x0@.shape == x1@.shape,
        x0@.shape.len() > 0,
    ensures
        r.wf(),
        r@ == mean_squared_error_spec(x0@, x1@),
        r@.data == seq![
            sum_of(
                x0@.data.len() as int,
                |k: int| x0@.data[k].minus(x1@.data[k]).times(x0@.data[k].minus(x1@.data[k])),
            ).over(T::count_spec(x0@.shape[0])),
        ],
{
    proof {
        squared_differences_are_shared_by_the_rows(x0@, x1@);
    }
    let n: usize = x0.data.len();
    let mut total: T = T::zero();
    let mut k: usize = 0;
    while k < n
        invariant
            n == x0.data@.len(),
            n == x1.data@.len(),
            k <= n,
            total == squared_distance(x0.data@, x1.data@, k as int),
        decreases n - k,
    {
        let d: T = x0.data[k].sub(x1.data[k]);
        total = total.add(d.mul(d));
        k = k + 1;
    }
    let rows: usize = batch_size(x0.shape.as_slice());
    Tensor::scalar(total.div(T::from_count(rows)))
}

/// The mean squared error as an operation.
#[derive(Debug, Clone, Copy)]
pub struct MeanSquaredError;

/// The mean squared error of two variables.
pub fn mean_squared_error<T: Scalar, O: Op<T>>(
    g: &mut Graph<T, O>,
    x0: &Variable,
    x1: &Variable,
) -> (r: Variable)
    requires
        old(g).wf(),
        holds(*old(g), *x0),
        holds(*old(g), *x1),
        held(*old(g), *x0).shape == held(*old(g), *x1).shape,
        held(*old(g), *x0).shape.len() > 0,
    ensures
        applied(*old(g), *final(g), O::embed(Rule::MeanSquaredError), seq![*x0, *x1], seq![r]),
        derives(
            *old(g),
            *final(g),
            r,
            mean_squared_error_spec(held(*old(g), *x0), held(*old(g), *x1)),
        ),
{
    apply_binary(g, Builtin::MeanSquaredError(MeanSquaredError), x0, x1)
}

/// The cross entropy of the normalised exponential as an operation, with the class of
/// each row.
#[derive(Debug)]
pub struct SoftmaxCrossEntropy {
    pub labels: Vec<usize>,
}

/// A matrix with a one per row, at the column of its label.
pub open spec fn one_hot_spec<T: Scalar>(labels: Seq<usize>, classes: usize) -> Array<T> {
    scatter_rows_spec(
        labels,
        full_spec(seq![labels.len() as usize], T::one_spec()),
        classes,
    )
}

/// The gradient of the cross entropy: the excess of each probability over its target,
/// scaled by `gy` over the number of rows.
pub open spec fn cross_entropy_gradient<T: Scalar>(
    probabilities: Array<T>,
    labels: Seq<usize>,
    gy: Array<T>,
) -> Array<T> {
    let rows = probabilities.shape[0];
    zip_spec(
        Arithmetic::Times,
        zip_spec(
            Arithmetic::Minus,
            probabilities,
            one_hot_spec(labels, probabilities.shape[1]),
        ),
        zip_spec(
            Arithmetic::Times,
            gy,
            scalar_spec(T::one_spec().over(T::count_spec(rows))),
        ),
    )
}

/// The logarithms of the probabilities of each row.
pub open spec fn log_softmax_rows_spec<T: Scalar, E: Fn(T) -> T, L: Fn(T) -> T>(
    x: Array<T>,
    lowest: T,
    exp: E,
    ln: L,
) -> Array<T> {
    zip_spec(Arithmetic::Minus, x, logsumexp_spec(x, 1, lowest, exp, ln))
}

/// The logarithms of the probabilities of each row.
pub fn log_softmax_rows<T: Scalar, E: Fn(T) -> T, L: Fn(T) -> T>(
    x: &Tensor<T>,
    lowest: T,
    exp: &E,
    ln: &L,
) -> (r: Tensor<T>)
    requires
        x.wf(),
        x@.shape.len() == 2,
        x@.shape[1] > 0,
        is_function(*exp),
        is_function(*ln),
    ensures
        r.wf(),
        r@ == log_softmax_rows_spec(x@, lowest, *exp, *ln),
        r@.shape == x@.shape,
{
    proof {
        lemma_one_axis::<T>(x@.shape, 1);
        lemma_joint_absorbs(x@.shape, x@.shape.update(1, 1));
    }
    let lse = logsumexp(x, 1, lowest, exp, ln);
    zip_map(Arithmetic::Minus, x, &lse)
}

/// The first `n` elements added up from nought.
pub open spec fn total<T: Scalar>(data: Seq<T>, n: int) -> T
    decreases n,
{
    if n <= 0 {
        T::zero_spec()
    } else {
        total(data, n - 1).plus(data[n - 1])
    }
}

/// The cross entropy: the logarithms of the probabilities of the labels, added up,
/// negated and divided by the number of rows.
pub open spec fn cross_entropy_spec<T: Scalar, E: Fn(T) -> T, L: Fn(T) -> T>(
    x: Array<T>,
    labels: Seq<usize>,
    lowest: T,
    exp: E,
    ln: L,
) -> Array<T> {
    let picked = gather_rows_spec(log_softmax_rows_spec(x, lowest, exp, ln), labels);
    scalar_spec(
        total(picked.data, picked.data.len() as int).negated().over(T::count_spec(x.shape[0])),
    )
}

impl SoftmaxCrossEntropy {
    /// The cross entropy of the logits and the labels.
    pub fn forward<T: Scalar, E: Fn(T) -> T, L: Fn(T) -> T>(
        &self,
        x: &Tensor<T>,
        lowest: T,
        exp: &E,
        ln: &L,
    ) -> (r: Tensor<T>)
        requires
            x.wf(),
            x@.shape.len() == 2,
            x@.shape[1] > 0,
            self.labels@.len() == x@.shape[0],
            selects(self.labels@, x@.shape[1] as nat),
            is_function(*exp),
            is_function(*ln),
        ensures
            r.wf(),
            r@ == cross_entropy_spec(x@, self.labels@, lowest, *exp, *ln),
            r@.data == seq![
                sum_of(
                    x@.shape[0] as int,
                    |i: int| log_share(x@, seq![i, self.labels@[i] as int], lowest, *exp, *ln),
                ).negated().over(T::count_spec(x@.shape[0])),
            ],
    {
        proof {
            cross_entropy_averages_over_rows(x@, self.labels@, lowest, *exp, *ln);
        }
        let (rows, _) = self.dimensions(x.shape.as_slice());
        let log_p = log_softmax_rows(x, lowest, exp, ln);
        let picked = gather_rows(&log_p, self.labels.as_slice());
        let n: usize = picked.data.len();
        let mut sum: T = T::zero();
        let mut i: usize = 0;
        while i < n
            invariant
                i <= n,
                n == picked.data@.len(),
                sum == total(picked.data@, i as int),
            decreases n - i,
        {
            sum = sum.add(picked.data[i]);
            i = i + 1;
        }
        Tensor::scalar(sum.neg().div(T::from_count(rows)))
    }

    pub fn new(labels: &[usize]) -> (r: SoftmaxCrossEntropy)
        ensures
            r.labels@ == labels@,
    {
        SoftmaxCrossEntropy { labels: copy_of(labels) }
    }

    /// The number of rows and of classes of the logits.
    pub fn dimensions(&self, shape: &[usize]) -> (r: (usize, usize))
        requires
            shape@.len() == 2,
            self.labels@.len() == shape@[0],
        ensures
            r == (shape@[0], shape@[1]),
    {
        (shape[0], shape[1])
    }

    /// The gradient of the logits, given their probabilities.
    pub fn backward<T: Scalar, O: Op<T>>(
        &self,
        g: &mut Graph<T, O>,
        probabilities: &Variable,
        gy: &Variable,
    ) -> (gx: Variable)
        requires
            old(g).wf(),
            holds(*old(g), *probabilities),
            holds(*old(g), *gy),
            held(*old(g), *gy).shape == Seq::<usize>::empty(),
            held(*old(g), *probabilities).shape.len() == 2,
            self.labels@.len() == held(*old(g), *probabilities).shape[0],
            selects(self.labels@, held(*old(g), *probabilities).shape[1] as nat),
        ensures
            derives(
                *old(g),
                *final(g),
                gx,
                cross_entropy_gradient(
                    held(*old(g), *probabilities),
                    self.labels@,
                    held(*old(g), *gy),
                ),
            ),
            held(*final(g), gx).shape == held(*old(g), *probabilities).shape,
            old(g).config.enable_backprop ==> {
                let s = held(*old(g), *probabilities).shape;
                let hot = one_hot_spec(self.labels@, s[1]);
                let share = scalar_spec(T::one_spec().over(T::count_spec(s[0])));
                means(
                    *final(g),
                    gx,
                    binary(
                        Rule::Mul,
                        binary(Rule::Sub, Term::Given(*probabilities), Term::Constant(hot)),
                        binary(Rule::Mul, Term::Given(*gy), Term::Constant(share)),
                    ),
                )
            },
    {
        let ghost g0 = *g;
        let shape = shape_held(g, probabilities);
        let (rows, classes) = self.dimensions(shape.as_slice());
        let per_row: [usize; 1] = [rows];
        proof {
            assert(g.node_ok(probabilities.id as int));
            assert(shape@ =~= seq![rows, classes]);
            assert(per_row@ =~= seq![rows]);
            lemma_volume1(rows);
            crate::utils::conv::lemma_volume2(rows, classes);
        }
        let ones = Tensor::full(per_row.as_slice(), T::one());
        let hot = scatter_add_rows(self.labels.as_slice(), &ones, classes);
        let ghost hot_array = hot@;
        let target = Variable::new(g, hot);
        let ghost g1 = *g;
        proof {
            assert(held(*g, target).shape =~= shape@);
            lemma_same_shape(*g, *probabilities, target);
        }
        let excess = crate::engine::ops::sub(g, probabilities, &target);
        let ghost g2 = *g;
        let share = scalar(g, T::one().div(T::from_count(rows)));
        let ghost g3 = *g;
        proof {
            lemma_same_shape(*g, *gy, share);
        }
        let scaled = crate::engine::ops::mul(g, gy, &share);
        let ghost g4 = *g;
        proof {
            lemma_scalar_broadcasts(shape@);
            lemma_joint_absorbs(shape@, Seq::empty());
        }
        let gx = crate::engine::ops::mul(g, &excess, &scaled);
        proof {
            let (d, a) = (Term::Given(*gy), Term::Given(*probabilities));
            let c = scalar_spec(T::one_spec().over(T::count_spec(rows)));
            let te = binary(Rule::Sub, a, Term::Constant(hot_array));
            let ts = binary(Rule::Mul, d, Term::Constant(c));
            lemma_constant(g0, g1, target, hot_array);
            lemma_binary(
                g1,
                g2,
                Rule::Sub,
                *probabilities,
                target,
                excess,
                a,
                Term::Constant(hot_array),
            );
            lemma_constant(g2, g3, share, c);
            lemma_binary(g3, g4, Rule::Mul, *gy, share, scaled, d, Term::Constant(c));
            lemma_binary(g4, *g, Rule::Mul, excess, scaled, gx, te, ts);
        }
        gx
    }
}

} // verus!
