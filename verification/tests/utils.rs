#![allow(dead_code, unused_imports)]

use dezero::engine::builtin::Builtin;
use dezero::engine::config::ConfigGuard;
use dezero::engine::function::{apply1, Backprop, Op};
use dezero::engine::graph::{Function, Graph, Variable as Handle};
use dezero::engine::rule::Rule;
use dezero::functions::activation::{sigmoid_array, softmax_array, Sigmoid, Softmax};
use dezero::functions::basic_math::{map_array, Cos, Exp, Pow, Sin, Tanh};
use dezero::functions::loss::SoftmaxCrossEntropy;
use dezero::functions::reduce::Axes;
use dezero::scalar::Scalar;
use dezero::tensor::Tensor;
use dezero::utils::numerical::GradientCheckError;
use dezero::utils::random::Rng;
use dezero::utils::shape::normalize_axis;
use std::cell::RefCell;
use ndarray::{arr0, arr1, arr2, arr3, ArrayD, IxDyn};
use std::fmt;
use std::ops;
use std::rc::Rc;

/// A floating-point number as the elements of arrays.
#[derive(Debug, Clone, Copy, PartialEq)]
struct Real(f64);

impl Scalar for Real {
    fn zero() -> Self {
        Real(0.0)
    }

    fn one() -> Self {
        Real(1.0)
    }

    fn from_count(n: usize) -> Self {
        Real(n as f64)
    }

    fn add(self, other: Self) -> Self {
        Real(self.0 + other.0)
    }

    fn sub(self, other: Self) -> Self {
        Real(self.0 - other.0)
    }

    fn mul(self, other: Self) -> Self {
        Real(self.0 * other.0)
    }

    fn div(self, other: Self) -> Self {
        Real(self.0 / other.0)
    }

    fn neg(self) -> Self {
        Real(-self.0)
    }

    fn gt(self, other: Self) -> bool {
        self.0 > other.0
    }
}

type Values = Tensor<Real>;

fn tensor(a: &ArrayD<f64>) -> Values {
    Tensor::from_shape_vec(a.shape().to_vec(), a.iter().map(|&v| Real(v)).collect())
        .expect("as many elements as the shape says")
}

fn array_of(t: &Values) -> ArrayD<f64> {
    ArrayD::from_shape_vec(IxDyn(t.shape()), t.data().iter().map(|v| v.0).collect())
        .expect("as many elements as the shape says")
}

/// The operations of the framework, and those that need floating-point functions.
enum Ext {
    Basic(Builtin),
    Exp,
    Sin,
    Cos,
    Tanh,
    Pow(f64),
    Sigmoid,
    Softmax(isize),
    CrossEntropy(Vec<usize>),
    WrongSquare,
}

impl Op<Real> for Ext {
    type Rule = ();

    fn embedding(_rule: Rule) {}

    fn from_builtin(op: Builtin) -> Self {
        Ext::Basic(op)
    }

    fn op_name(&self) -> String {
        match self {
            Ext::Basic(op) => op.name(),
            Ext::Exp => "Exp".to_owned(),
            Ext::Sin => "Sin".to_owned(),
            Ext::Cos => "Cos".to_owned(),
            Ext::Tanh => "Tanh".to_owned(),
            Ext::Pow(_) => "Pow".to_owned(),
            Ext::Sigmoid => "Sigmoid".to_owned(),
            Ext::Softmax(_) => "Softmax".to_owned(),
            Ext::CrossEntropy(_) => "SoftmaxCrossEntropy".to_owned(),
            Ext::WrongSquare => "WrongSquare".to_owned(),
        }
    }

    fn forward(&mut self, xs: &Vec<Values>) -> Vec<Values> {
        let exp = |v: Real| Real(v.0.exp());
        let ln = |v: Real| Real(v.0.ln());
        let lowest = Real(f64::NEG_INFINITY);
        match self {
            Ext::Basic(op) => vec![op.evaluate(xs)],
            Ext::Exp => vec![map_array(&xs[0], &exp)],
            Ext::Sin => vec![map_array(&xs[0], &|v: Real| Real(v.0.sin()))],
            Ext::Cos => vec![map_array(&xs[0], &|v: Real| Real(v.0.cos()))],
            Ext::Tanh => vec![map_array(&xs[0], &|v: Real| Real(v.0.tanh()))],
            Ext::Pow(c) => {
                let c = *c;
                vec![map_array(&xs[0], &|v: Real| Real(v.0.powf(c)))]
            }
            Ext::Sigmoid => vec![sigmoid_array(&xs[0], &|v: Real| Real(v.0.tanh()))],
            Ext::Softmax(axis) => {
                let axis = normalize_axis(*axis, xs[0].ndim());
                vec![softmax_array(&xs[0], axis, lowest, &exp)]
            }
            Ext::CrossEntropy(labels) => {
                vec![SoftmaxCrossEntropy::new(labels).forward(&xs[0], lowest, &exp, &ln)]
            }
            Ext::WrongSquare => vec![map_array(&xs[0], &|v: Real| Real(v.0 * v.0))],
        }
    }
}

impl Backprop<Real> for Ext {
    fn backward(
        &self,
        g: &mut Graph<Real, Ext>,
        inputs: &Vec<Handle>,
        outputs: &Vec<Handle>,
        gys: &Vec<Handle>,
    ) -> Vec<Handle> {
        let gx = match self {
            Ext::Basic(op) => return op.differentiate(g, inputs, &gys[0]),
            Ext::Exp => Exp.backward(g, &outputs[0], &gys[0]),
            Ext::Sin => {
                let cos_x = apply1(g, Ext::Cos, &[inputs[0]]);
                Sin.backward(g, &cos_x, &gys[0])
            }
            Ext::Cos => {
                let sin_x = apply1(g, Ext::Sin, &[inputs[0]]);
                Cos.backward(g, &sin_x, &gys[0])
            }
            Ext::Tanh => Tanh.backward(g, &outputs[0], &gys[0]),
            Ext::Pow(c) => {
                let lower = apply1(g, Ext::Pow(c - 1.0), &[inputs[0]]);
                Pow::new(Real(*c)).backward(g, &lower, &gys[0])
            }
            Ext::Sigmoid => Sigmoid.backward(g, &outputs[0], &gys[0]),
            Ext::Softmax(axis) => Softmax::new(*axis).backward(g, &outputs[0], &gys[0]),
            Ext::CrossEntropy(labels) => {
                let p = apply1(g, Ext::Softmax(1), &[inputs[0]]);
                SoftmaxCrossEntropy::new(labels).backward(g, &p, &gys[0])
            }
            Ext::WrongSquare => gys[0],
        };
        vec![gx]
    }
}

type Net = Graph<Real, Ext>;

/// A graph that several handles share.
#[derive(Clone)]
struct Tape {
    net: Rc<RefCell<Net>>,
    rng: Rc<RefCell<Rng>>,
}

/// A variable together with the graph it belongs to.
#[derive(Clone)]
struct Variable {
    tape: Tape,
    v: Handle,
}

/// Puts a flag back when it goes out of scope.
struct Guard {
    tape: Tape,
    inner: Option<ConfigGuard>,
}

impl Drop for Guard {
    fn drop(&mut self) {
        if let Some(guard) = self.inner.take() {
            self.tape.with(|g| guard.restore(&mut g.config));
        }
    }
}

impl PartialEq for Variable {
    fn eq(&self, other: &Self) -> bool {
        self.v == other.v
    }
}

impl fmt::Debug for Variable {
    fn fmt(&self, f: &mut fmt::Formatter<'_>) -> fmt::Result {
        fmt::Debug::fmt(&self.v, f)
    }
}

impl Tape {
    fn new() -> Self {
        let rng = Rc::new(RefCell::new(Rng::new(42)));
        Tape { net: Rc::new(RefCell::new(Graph::new())), rng }
    }

    fn with<R>(&self, f: impl FnOnce(&mut Net) -> R) -> R {
        f(&mut self.net.borrow_mut())
    }

    /// Takes the graph out of its cell.
    fn take(&self) -> Net {
        std::mem::replace(&mut *self.net.borrow_mut(), Graph::new())
    }

    /// Puts a graph into the cell.
    fn put(&self, g: Net) {
        *self.net.borrow_mut() = g;
    }

    /// Runs `f` with the given graph in the cell, and takes it out again.
    fn through(&self, g: Net, v: &Handle, f: &dyn Fn(&Variable) -> Variable) -> (Net, Handle) {
        self.put(g);
        let y = self.handle(&f(&self.at(*v)));
        (self.take(), y)
    }

    fn at(&self, v: Handle) -> Variable {
        Variable { tape: self.clone(), v }
    }

    fn var(&self, data: ArrayD<f64>) -> Variable {
        let v = self.with(|g| Handle::new(g, tensor(&data)));
        self.at(v)
    }

    fn scalar(&self, value: f64) -> Variable {
        let v = self.with(|g| Handle::from_scalar(g, Real(value)));
        self.at(v)
    }

    fn empty(&self) -> Variable {
        let v = self.with(|g| Handle::empty(g));
        self.at(v)
    }

    fn no_grad(&self) -> Guard {
        let inner = self.with(|g| dezero::engine::config::no_grad(&mut g.config));
        Guard { tape: self.clone(), inner: Some(inner) }
    }

    fn test_mode(&self) -> Guard {
        let inner = self.with(|g| dezero::engine::config::test_mode(&mut g.config));
        Guard { tape: self.clone(), inner: Some(inner) }
    }

    /// The handle in this graph of what a variable stands for.
    fn handle(&self, x: &Variable) -> Handle {
        if Rc::ptr_eq(&self.net, &x.tape.net) {
            x.v
        } else {
            let data = tensor(&x.data().expect("data"));
            self.with(|g| Handle::new(g, data))
        }
    }

    fn creator_inputs(&self, f: &Function) -> Vec<Variable> {
        self.with(|g| f.inputs(g)).into_iter().map(|v| self.at(v)).collect()
    }

    fn creator_outputs(&self, f: &Function) -> Vec<Option<Variable>> {
        self.with(|g| f.outputs(g)).into_iter().map(|v| v.map(|v| self.at(v))).collect()
    }
}

impl Variable {
    fn id(&self) -> usize {
        self.v.id()
    }

    fn data(&self) -> Option<ArrayD<f64>> {
        self.tape.with(|g| self.v.data(g).map(array_of))
    }

    fn set_data(&self, data: ArrayD<f64>) {
        self.tape.with(|g| self.v.set_data(g, tensor(&data)));
    }

    fn grad(&self) -> Option<Variable> {
        self.tape.with(|g| self.v.grad(g)).map(|v| self.tape.at(v))
    }

    fn set_grad(&self, grad: Option<Variable>) {
        self.tape.with(|g| self.v.set_grad(g, grad.map(|w| w.v)));
    }

    fn cleargrad(&self) {
        self.tape.with(|g| self.v.cleargrad(g));
    }

    fn creator(&self) -> Option<Function> {
        self.tape.with(|g| self.v.creator(g))
    }

    fn generation(&self) -> u32 {
        self.tape.with(|g| self.v.generation(g))
    }

    fn name(&self) -> Option<String> {
        self.tape.with(|g| self.v.name(g).cloned())
    }

    fn set_name(&self, name: Option<String>) {
        self.tape.with(|g| self.v.set_name(g, name));
    }

    fn shape(&self) -> Option<Vec<usize>> {
        self.tape.with(|g| self.v.shape(g))
    }

    fn ndim(&self) -> Option<usize> {
        self.tape.with(|g| self.v.ndim(g))
    }

    fn size(&self) -> Option<usize> {
        self.tape.with(|g| self.v.size(g))
    }

    fn len(&self) -> Option<usize> {
        self.tape.with(|g| self.v.len(g))
    }

    fn full_like(&self, value: f64) -> Option<Variable> {
        self.tape.with(|g| self.v.full_like(g, Real(value))).map(|v| self.tape.at(v))
    }

    fn backward(&self) {
        self.tape.with(|g| self.v.backward(g));
    }

    fn backward_with(&self, retain_grad: bool, create_graph: bool) {
        self.tape.with(|g| self.v.backward_with(g, retain_grad, create_graph));
    }

    fn unchain(&self) {
        self.tape.with(|g| self.v.unchain(g));
    }

    fn unchain_backward(&self) {
        self.tape.with(|g| self.v.unchain_backward(g));
    }

    /// Gives up the last handle to the variable.
    fn release(self) {
        self.tape.with(|g| self.v.release(g));
    }

    fn ext(&self, op: Ext) -> Variable {
        let v = self.tape.with(|g| apply1(g, op, &[self.v]));
        self.tape.at(v)
    }
}

fn unary(x: &Variable, f: impl FnOnce(&mut Net, &Handle) -> Handle) -> Variable {
    let v = x.tape.with(|g| f(g, &x.v));
    x.tape.at(v)
}

fn binary(
    a: &Variable,
    b: &Variable,
    f: impl FnOnce(&mut Net, &Handle, &Handle) -> Handle,
) -> Variable {
    let tape = &a.tape;
    let (u, v) = (tape.handle(a), tape.handle(b));
    let r = tape.with(|g| f(g, &u, &v));
    tape.at(r)
}

fn ternary(
    a: &Variable,
    b: &Variable,
    c: Option<&Variable>,
    f: impl FnOnce(&mut Net, &Handle, &Handle, Option<&Handle>) -> Handle,
) -> Variable {
    let tape = &a.tape;
    let (u, v, w) = (tape.handle(a), tape.handle(b), c.map(|c| tape.handle(c)));
    let r = tape.with(|g| f(g, &u, &v, w.as_ref()));
    tape.at(r)
}

fn add(a: &Variable, b: &Variable) -> Variable {
    binary(a, b, |g, u, v| dezero::engine::ops::add(g, u, v))
}

fn sub(a: &Variable, b: &Variable) -> Variable {
    binary(a, b, |g, u, v| dezero::engine::ops::sub(g, u, v))
}

fn mul(a: &Variable, b: &Variable) -> Variable {
    binary(a, b, |g, u, v| dezero::engine::ops::mul(g, u, v))
}

fn div(a: &Variable, b: &Variable) -> Variable {
    binary(a, b, |g, u, v| dezero::engine::ops::div(g, u, v))
}

impl ops::Mul<&Variable> for &Variable {
    type Output = Variable;

    fn mul(self, other: &Variable) -> Variable {
        mul(self, other)
    }
}

impl ops::Mul<f64> for &Variable {
    type Output = Variable;

    fn mul(self, other: f64) -> Variable {
        mul(self, &self.tape.scalar(other))
    }
}

impl ops::Mul<Variable> for f64 {
    type Output = Variable;

    fn mul(self, other: Variable) -> Variable {
        mul(&other.tape.scalar(self), &other)
    }
}

impl ops::Add<&Variable> for &Variable {
    type Output = Variable;

    fn add(self, other: &Variable) -> Variable {
        add(self, other)
    }
}

impl ops::Add<Variable> for Variable {
    type Output = Variable;

    fn add(self, other: Variable) -> Variable {
        add(&self, &other)
    }
}

impl ops::Sub<&Variable> for &Variable {
    type Output = Variable;

    fn sub(self, other: &Variable) -> Variable {
        sub(self, other)
    }
}

fn square(x: &Variable) -> Variable {
    unary(x, |g, v| dezero::functions::basic_math::square(g, v))
}

fn exp(x: &Variable) -> Variable {
    x.ext(Ext::Exp)
}

fn sin(x: &Variable) -> Variable {
    x.ext(Ext::Sin)
}

fn cos(x: &Variable) -> Variable {
    x.ext(Ext::Cos)
}

fn tanh(x: &Variable) -> Variable {
    x.ext(Ext::Tanh)
}

fn pow(x: &Variable, c: f64) -> Variable {
    x.ext(Ext::Pow(c))
}

fn relu(x: &Variable) -> Variable {
    unary(x, |g, v| dezero::functions::activation::relu(g, v))
}

fn sigmoid(x: &Variable) -> Variable {
    x.ext(Ext::Sigmoid)
}

fn softmax(x: &Variable) -> Variable {
    x.ext(Ext::Softmax(1))
}

fn softmax_axis(x: &Variable, axis: isize) -> Variable {
    x.ext(Ext::Softmax(axis))
}

fn softmax_cross_entropy(x: &Variable, labels: &[usize]) -> Variable {
    x.ext(Ext::CrossEntropy(labels.to_vec()))
}

fn mean_squared_error(a: &Variable, b: &Variable) -> Variable {
    binary(a, b, |g, u, v| dezero::functions::loss::mean_squared_error(g, u, v))
}

fn reshape(x: &Variable, shape: &[usize]) -> Variable {
    unary(x, |g, v| dezero::functions::shape::reshape(g, v, shape))
}

fn transpose(x: &Variable) -> Variable {
    unary(x, |g, v| dezero::functions::shape::transpose(g, v))
}

fn sum_all(x: &Variable) -> Variable {
    unary(x, |g, v| dezero::functions::reduce::sum_all(g, v))
}

fn sum(x: &Variable, axis: impl Into<Axes>, keepdims: bool) -> Variable {
    unary(x, |g, v| dezero::functions::reduce::sum(g, v, axis, keepdims))
}

fn sum_to(x: &Variable, shape: &[usize]) -> Variable {
    unary(x, |g, v| dezero::functions::reduce::sum_to(g, v, shape))
}

fn broadcast_to(x: &Variable, shape: &[usize]) -> Variable {
    unary(x, |g, v| dezero::functions::reduce::broadcast_to(g, v, shape))
}

fn matmul(x: &Variable, w: &Variable) -> Variable {
    binary(x, w, |g, u, v| dezero::functions::matmul::matmul(g, u, v))
}

fn linear(x: &Variable, w: &Variable, b: Option<&Variable>) -> Variable {
    ternary(x, w, b, |g, u, v, b| dezero::functions::matmul::linear(g, u, v, b))
}

const EPS: f64 = 1e-4;
const RTOL: f64 = 1e-4;
const ATOL: f64 = 1e-5;

fn data(v: &Variable) -> ArrayD<f64> {
    v.data().expect("variable holds data")
}

fn grad(v: &Variable) -> ArrayD<f64> {
    data(&v.grad().expect("variable has a gradient"))
}

/// Checks backpropagation through `f` against central differences at `x`.
fn gradient_check<F: Fn(&Variable) -> Variable>(
    f: F,
    x: &Variable,
    eps: f64,
    rtol: f64,
    atol: f64,
) -> Result<(), GradientCheckError<Real>> {
    let (g, verdict) = dezero::utils::numerical::gradient_check(
        x.tape.take(),
        &|g: Net, v: &Handle| x.tape.through(g, v, &f),
        &x.v,
        Real(eps),
        Real(rtol),
        Real(atol),
    );
    x.tape.put(g);
    verdict
}

fn infinity() -> Real {
    Real(f64::NEG_INFINITY)
}

fn max_keepdims(x: &ArrayD<f64>, axis: usize) -> ArrayD<f64> {
    array_of(&dezero::utils::array::max_keepdims(&tensor(x), axis, infinity()))
}

fn sum_keepdims(x: &ArrayD<f64>, axis: usize) -> ArrayD<f64> {
    array_of(&dezero::utils::array::sum_keepdims(&tensor(x), axis))
}

fn logsumexp(x: &ArrayD<f64>, axis: usize) -> ArrayD<f64> {
    let (exp, ln) = (|v: Real| Real(v.0.exp()), |v: Real| Real(v.0.ln()));
    array_of(&dezero::utils::array::logsumexp(&tensor(x), axis, infinity(), &exp, &ln))
}

fn gather_rows(x: &ArrayD<f64>, indices: &[usize]) -> ArrayD<f64> {
    array_of(&dezero::utils::array::gather_rows(&tensor(x), indices))
}

fn scatter_add_rows(indices: &[usize], values: &ArrayD<f64>, columns: usize) -> ArrayD<f64> {
    array_of(&dezero::utils::array::scatter_add_rows(indices, &tensor(values), columns))
}

fn get_dot_graph(v: &Variable, verbose: bool) -> String {
    v.tape.with(|g| dezero::utils::dot::get_dot_graph(g, &v.v, verbose))
}

/// The derivative of the sum of `f` at `x`, measured without recording anything.
fn numerical_diff<F: Fn(&Variable) -> Variable>(f: F, x: &Variable, eps: f64) -> ArrayD<f64> {
    let (g, grad) = dezero::utils::numerical::numerical_diff(
        x.tape.take(),
        &|g: Net, v: &Handle| x.tape.through(g, v, &f),
        &x.v,
        Real(eps),
    );
    x.tape.put(g);
    array_of(&grad)
}

fn matrix() -> ArrayD<f64> {
    arr2(&[[1.0, 5.0, 3.0], [9.0, 2.0, 4.0]]).into_dyn()
}

#[test]
fn max_keepdims_reduces_the_named_axis_only() {
    assert_eq!(
        max_keepdims(&matrix(), 0),
        arr2(&[[9.0, 5.0, 4.0]]).into_dyn()
    );
    assert_eq!(max_keepdims(&matrix(), 1), arr2(&[[5.0], [9.0]]).into_dyn());
}

#[test]
fn max_keepdims_works_at_rank_three() {
    let x = arr3(&[[[1.0, 2.0], [3.0, 4.0]], [[8.0, 7.0], [6.0, 5.0]]]).into_dyn();
    let y = max_keepdims(&x, 2);
    assert_eq!(y.shape(), &[2, 2, 1]);
    assert_eq!(y[[1, 0, 0]], 8.0);
}

#[test]
fn max_keepdims_handles_all_negative_lanes() {
    // The fold seeds with -inf, so an all-negative lane must still come out
    // as its own largest element rather than 0.
    let x = arr2(&[[-3.0, -1.0, -2.0]]).into_dyn();
    assert_eq!(max_keepdims(&x, 1), arr2(&[[-1.0]]).into_dyn());
}

#[test]
fn sum_keepdims_matches_numpy() {
    let x = arr2(&[[1.0, 2.0, 3.0], [4.0, 5.0, 6.0]]).into_dyn();
    assert_eq!(sum_keepdims(&x, 0), arr2(&[[5.0, 7.0, 9.0]]).into_dyn());
    assert_eq!(sum_keepdims(&x, 1), arr2(&[[6.0], [15.0]]).into_dyn());
}

#[test]
fn logsumexp_matches_the_direct_formula_on_tame_input() {
    let x = arr2(&[[0.5, -1.0, 2.0], [1.0, 1.0, 1.0]]).into_dyn();
    let actual = logsumexp(&x, 1);
    assert_eq!(actual.shape(), &[2, 1]);

    for row in 0..2 {
        let direct: f64 = (0..3).map(|c| x[[row, c]].exp()).sum::<f64>().ln();
        assert!((actual[[row, 0]] - direct).abs() < 1e-12, "row {row}");
    }
}

/// The shift is the whole point: the direct formula overflows here.
#[test]
fn logsumexp_survives_logits_that_would_overflow() {
    let x = arr2(&[[800.0, 800.0, 800.0]]).into_dyn();
    let y = logsumexp(&x, 1);
    assert!(y[[0, 0]].is_finite());
    assert!((y[[0, 0]] - (800.0 + 3.0_f64.ln())).abs() < 1e-9);
    assert!(
        x.mapv(f64::exp).sum().is_infinite(),
        "the unshifted computation really does overflow"
    );
}

#[test]
fn logsumexp_over_axis_zero() {
    let x = arr2(&[[0.0], [0.0]]).into_dyn();
    let y = logsumexp(&x, 0);
    assert_eq!(y.shape(), &[1, 1]);
    assert!((y[[0, 0]] - 2.0_f64.ln()).abs() < 1e-15);
}

#[test]
fn gather_picks_one_element_per_row() {
    let x = arr2(&[[1.0, 2.0, 3.0], [4.0, 5.0, 6.0], [7.0, 8.0, 9.0]]).into_dyn();
    assert_eq!(
        gather_rows(&x, &[0, 2, 1]),
        arr1(&[1.0, 6.0, 8.0]).into_dyn()
    );
}

#[test]
fn scatter_with_ones_is_a_one_hot_encoding() {
    let ones = ArrayD::from_elem(IxDyn(&[3]), 1.0);
    assert_eq!(
        scatter_add_rows(&[0, 2, 1], &ones, 3),
        arr2(&[[1.0, 0.0, 0.0], [0.0, 0.0, 1.0], [0.0, 1.0, 0.0]]).into_dyn()
    );
}

/// `scatter_add_rows` is the adjoint of `gather_rows`, i.e.
/// `<gather(x), g> == <x, scatter(g)>` for every `x` and `g`. Getting the
/// row/column order backwards passes every shape check and fails this.
#[test]
fn scatter_is_the_adjoint_of_gather() {
    let x = arr2(&[[1.0, 2.0, 3.0], [4.0, 5.0, 6.0], [7.0, 8.0, 9.0]]).into_dyn();
    let g = arr1(&[0.5, -2.0, 3.0]).into_dyn();
    for indices in [[0_usize, 1, 2], [2, 2, 0], [1, 0, 1]] {
        let left: f64 = (&gather_rows(&x, &indices) * &g).sum();
        let right: f64 = (&x * &scatter_add_rows(&indices, &g, 3)).sum();
        assert!((left - right).abs() < 1e-12, "indices {indices:?}");
    }
}

fn named(t: &Tape, value: f64, name: &str) -> Variable {
    let v = t.scalar(value);
    v.set_name(Some(name.to_owned()));
    v
}

#[test]
fn a_leaf_renders_as_a_single_node_with_no_edges() {
    let t = Tape::new();
    let x = named(&t, 1.0, "x");
    let dot = get_dot_graph(&x, false);

    assert!(dot.contains("label=\"x\""));
    assert!(!dot.contains("->"), "a leaf has no creator, so no edges");
    assert_eq!(dot.matches("color=orange").count(), 1);
}

#[test]
fn every_node_and_edge_of_a_chain_appears() {
    let t = Tape::new();
    let x = named(&t, 1.0, "x");
    let y = exp(&x);
    y.set_name(Some("y".to_owned()));

    let dot = get_dot_graph(&y, false);
    assert!(dot.contains("label=\"Exp\""));
    // x -> Exp -> y
    assert_eq!(dot.matches("->").count(), 2);
    assert_eq!(
        dot.matches("color=orange").count(),
        2,
        "two variables: x and y"
    );
    assert_eq!(dot.matches("shape=box").count(), 1, "one function");
}

/// A variable used twice must still be drawn once, and the function that
/// consumed it must show both edges.
#[test]
fn a_reused_variable_is_one_node_with_two_edges() {
    let t = Tape::new();
    let x = named(&t, 3.0, "x");
    let y = &x * &x;

    let dot = get_dot_graph(&y, false);
    let from_x = dot.matches(&format!("{} -> ", x.id())).count();
    assert_eq!(from_x, 2, "both operands of the multiply come from x");
}

/// The traversal must not revisit a function reachable by two paths, or a
/// diamond would render duplicate nodes.
#[test]
fn a_diamond_renders_each_function_once() {
    let t = Tape::new();
    let x = named(&t, 2.0, "x");
    let a = exp(&x);
    let y = &a + &a;

    let dot = get_dot_graph(&y, false);
    assert_eq!(dot.matches("label=\"Exp\"").count(), 1);
    assert_eq!(dot.matches("label=\"Add\"").count(), 1);
}

#[test]
fn verbose_adds_shapes_and_plain_does_not() {
    let t = Tape::new();
    let x = t.var(ArrayD::zeros(IxDyn(&[2, 3])));
    x.set_name(Some("x".to_owned()));
    let y = exp(&x);

    assert!(get_dot_graph(&y, true).contains("(2, 3)"));
    assert!(!get_dot_graph(&y, false).contains("(2, 3)"));
}

#[test]
fn an_unnamed_variable_gets_an_empty_label_not_a_missing_one() {
    let t = Tape::new();
    let x = t.scalar(1.0);
    let dot = get_dot_graph(&exp(&x), false);
    assert!(dot.contains("label=\"\""));
}

#[test]
fn the_output_is_a_well_formed_digraph() {
    let t = Tape::new();
    let x = named(&t, 1.0, "x");
    let dot = get_dot_graph(&exp(&x), true);
    assert!(dot.starts_with("digraph g {\n"));
    assert!(dot.ends_with("}"));
}

#[test]
fn scalar_numerical_diff_matches_step04() {
    let t = Tape::new();
    let x = t.scalar(2.0);
    let grad = numerical_diff(square, &x, 1e-4);
    assert_eq!(grad.shape(), arr0(0.0).into_dyn().shape());
    assert!((grad.sum() - 4.0).abs() < 1e-8);
}

#[test]
fn composed_numerical_diff_matches_step04() {
    let t = Tape::new();
    let x = t.scalar(0.5);
    let grad = numerical_diff(|x| square(&exp(&square(x))), &x, 1e-4);
    assert!((grad.sum() - 3.297_442_541_400_256).abs() < 1e-6);
}

#[test]
fn numerical_diff_is_elementwise_for_arrays() {
    let t = Tape::new();
    let x = t.var(arr2(&[[1.0, 2.0], [3.0, 4.0]]).into_dyn());
    let grad = numerical_diff(square, &x, 1e-4);
    let expected = arr2(&[[2.0, 4.0], [6.0, 8.0]]).into_dyn();
    assert_eq!(grad.shape(), expected.shape());
    for (actual, expected) in grad.iter().zip(expected.iter()) {
        assert!((actual - expected).abs() < 1e-6);
    }
}

#[test]
fn gradient_check_leaves_the_caller_untouched() {
    let t = Tape::new();
    let x = t.var(arr1(&[1.0, 2.0]).into_dyn());
    gradient_check(square, &x, 1e-4, 1e-4, 1e-5).expect("square");
    assert!(x.grad().is_none());
    assert!(x.creator().is_none());
}

#[test]
fn gradient_check_accepts_a_multi_argument_closure() {
    let t = Tape::new();
    let a = t.var(arr1(&[3.0, -1.0]).into_dyn());
    gradient_check(
        |x| add(&mul(x, &a), x),
        &t.var(arr1(&[1.0, 2.0]).into_dyn()),
        1e-4,
        1e-4,
        1e-5,
    )
    .expect("mul + add");
}

#[test]
fn gradient_check_reports_a_missing_gradient() {
    let t = Tape::new();
    let constant = t.var(arr1(&[1.0, 2.0]).into_dyn());
    let result = gradient_check(
        |_| square(&constant),
        &t.var(arr1(&[1.0, 2.0]).into_dyn()),
        1e-4,
        1e-4,
        1e-5,
    );
    assert_eq!(result, Err(GradientCheckError::NoGradient));
}

#[test]
fn gradient_check_reports_missing_data() {
    let t = Tape::new();
    let result = gradient_check(square, &t.empty(), 1e-4, 1e-4, 1e-5);
    assert_eq!(result, Err(GradientCheckError::NoData));
}

#[test]
fn numerical_diff_does_not_build_a_graph() {
    let t = Tape::new();
    let x = t.var(arr1(&[1.0, 2.0]).into_dyn());
    let _ = numerical_diff(square, &x, 1e-4);
    assert!(
        t.with(|g| dezero::engine::config::enable_backprop(&g.config)),
        "the guard is scoped"
    );
    assert!(x.grad().is_none(), "the input is never differentiated");
}

#[test]
fn gradient_check_rejects_a_wrong_gradient() {
    // A deliberately broken op: forward squares, backward claims d/dx = 1.
    let t = Tape::new();
    let result = gradient_check(
        |x| unary(x, |g, v| apply1(g, Ext::WrongSquare, &[*v])),
        &t.var(arr1(&[3.0, 4.0]).into_dyn()),
        1e-4,
        1e-4,
        1e-5,
    );
    let Err(GradientCheckError::ValueMismatch(mismatch)) = result else {
        panic!("expected a value mismatch, got {result:?}");
    };
    assert!(mismatch.max_abs_diff.0 > 1.0);
    assert!((mismatch.max_abs_diff.0 - 7.0).abs() < 1e-6, "8 claimed to be 1");
    let shapes: GradientCheckError<Real> =
        GradientCheckError::ShapeMismatch { numerical: vec![2], analytical: vec![2, 1] };
    assert!(shapes.to_string("", "", "").contains("[2, 1]"));
}

#[test]
fn gradient_check_rejects_a_gradient_of_another_shape() {
    let (slope, wide) = (Tensor::full(&[2], Real(1.0)), Tensor::full(&[2, 1], Real(1.0)));
    let result = dezero::utils::numerical::judge(slope, wide, Real(1e-4), Real(1e-5));
    assert_eq!(
        result,
        Err(GradientCheckError::ShapeMismatch { numerical: vec![2], analytical: vec![2, 1] })
    );
}

#[test]
fn gradient_check_rejects_what_is_not_a_number() {
    let (slope, none) = (Tensor::full(&[1], Real(1.0)), Tensor::full(&[1], Real(f64::NAN)));
    let result = dezero::utils::numerical::judge(slope, none, Real(1e-4), Real(1e-5));
    assert!(matches!(result, Err(GradientCheckError::ValueMismatch(_))));
}

#[test]
fn gradient_check_errors_say_what_went_wrong() {
    let none: GradientCheckError<Real> = GradientCheckError::NoData;
    assert_eq!(none.to_string("", "", ""), "gradient check: the variable holds no data");
    let none: GradientCheckError<Real> = GradientCheckError::NoGradient;
    assert_eq!(
        none.to_string("", "", ""),
        "gradient check: backpropagation produced no gradient for the input"
    );
}
