#![allow(dead_code, unused_imports)]

use dezero::engine::builtin::Builtin;
use dezero::engine::config::ConfigGuard;
use dezero::engine::function::{apply1, Backprop, Op};
use dezero::engine::graph::{Function, Graph, Variable as Handle};
use dezero::engine::rule::Rule;
use dezero::functions::activation::{sigmoid_array, softmax_array, Sigmoid, Softmax};
use dezero::functions::basic_math::{map_array, Cos, Exp, Pow, Sin, Tanh};
use dezero::functions::loss::SoftmaxCrossEntropy;
use dezero::functions::reduce::Axes;
use dezero::scalar::Scalar;
use dezero::tensor::Tensor;
use dezero::utils::numerical::GradientCheckError;
use dezero::utils::random::Rng;
use dezero::utils::shape::normalize_axis;
use dezero::utils::conv::Pair;
use std::cell::RefCell;
use ndarray::{arr0, arr1, arr2, arr3, ArrayD, IxDyn};
use std::fmt;
use std::ops;
use std::rc::Rc;

/// A floating-point number as the elements of arrays.
#[derive(Debug, Clone, Copy, PartialEq)]
struct Real(f64);

impl Scalar for Real {
    fn zero() -> Self {
        Real(0.0)
    }

    fn one() -> Self {
        Real(1.0)
    }

    fn from_count(n: usize) -> Self {
        Real(n as f64)
    }

    fn add(self, other: Self) -> Self {
        Real(self.0 + other.0)
    }

    fn sub(self, other: Self) -> Self {
        Real(self.0 - other.0)
    }

    fn mul(self, other: Self) -> Self {
        Real(self.0 * other.0)
    }

    fn div(self, other: Self) -> Self {
        Real(self.0 / other.0)
    }

    fn neg(self) -> Self {
        Real(-self.0)
    }

    fn gt(self, other: Self) -> bool {
        self.0 > other.0
    }
}

type Values = Tensor<Real>;

fn tensor(a: &ArrayD<f64>) -> Values {
    Tensor::from_shape_vec(a.shape().to_vec(), a.iter().map(|&v| Real(v)).collect())
        .expect("as many elements as the shape says")
}

fn array_of(t: &Values) -> ArrayD<f64> {
    ArrayD::from_shape_vec(IxDyn(t.shape()), t.data().iter().map(|v| v.0).collect())
        .expect("as many elements as the shape says")
}

/// The operations of the framework, and those that need floating-point functions.
enum Ext {
    Basic(Builtin),
    Exp,
    Sin,
    Cos,
    Tanh,
    Pow(f64),
    Sigmoid,
    Softmax(isize),
    CrossEntropy(Vec<usize>),
}

impl Op<Real> for Ext {
    type Rule = ();

    fn embedding(_rule: Rule) {}

    fn from_builtin(op: Builtin) -> Self {
        Ext::Basic(op)
    }

    fn op_name(&self) -> String {
        match self {
            Ext::Basic(op) => op.name(),
            Ext::Exp => "Exp".to_owned(),
            Ext::Sin => "Sin".to_owned(),
            Ext::Cos => "Cos".to_owned(),
            Ext::Tanh => "Tanh".to_owned(),
            Ext::Pow(_) => "Pow".to_owned(),
            Ext::Sigmoid => "Sigmoid".to_owned(),
            Ext::Softmax(_) => "Softmax".to_owned(),
            Ext::CrossEntropy(_) => "SoftmaxCrossEntropy".to_owned(),
        }
    }

    fn forward(&mut self, xs: &Vec<Values>) -> Vec<Values> {
        let exp = |v: Real| Real(v.0.exp());
        let ln = |v: Real| Real(v.0.ln());
        let lowest = Real(f64::NEG_INFINITY);
        match self {
            Ext::Basic(op) => vec![op.evaluate(xs)],
            Ext::Exp => vec![map_array(&xs[0], &exp)],
            Ext::Sin => vec![map_array(&xs[0], &|v: Real| Real(v.0.sin()))],
            Ext::Cos => vec![map_array(&xs[0], &|v: Real| Real(v.0.cos()))],
            Ext::Tanh => vec![map_array(&xs[0], &|v: Real| Real(v.0.tanh()))],
            Ext::Pow(c) => {
                let c = *c;
                vec![map_array(&xs[0], &|v: Real| Real(v.0.powf(c)))]
            }
            Ext::Sigmoid => vec![sigmoid_array(&xs[0], &|v: Real| Real(v.0.tanh()))],
            Ext::Softmax(axis) => {
                let axis = normalize_axis(*axis, xs[0].ndim());
                vec![softmax_array(&xs[0], axis, lowest, &exp)]
            }
            Ext::CrossEntropy(labels) => {
                vec![SoftmaxCrossEntropy::new(labels).forward(&xs[0], lowest, &exp, &ln)]
            }
        }
    }
}

impl Backprop<Real> for Ext {
    fn backward(
        &self,
        g: &mut Graph<Real, Ext>,
        inputs: &Vec<Handle>,
        outputs: &Vec<Handle>,
        gys: &Vec<Handle>,
    ) -> Vec<Handle> {
        let gx = match self {
            Ext::Basic(op) => return op.differentiate(g, inputs, &gys[0]),
            Ext::Exp => Exp.backward(g, &outputs[0], &gys[0]),
            Ext::Sin => {
                let cos_x = apply1(g, Ext::Cos, &[inputs[0]]);
                Sin.backward(g, &cos_x, &gys[0])
            }
            Ext::Cos => {
                let sin_x = apply1(g, Ext::Sin, &[inputs[0]]);
                Cos.backward(g, &sin_x, &gys[0])
            }
            Ext::Tanh => Tanh.backward(g, &outputs[0], &gys[0]),
            Ext::Pow(c) => {
                let lower = apply1(g, Ext::Pow(c - 1.0), &[inputs[0]]);
                Pow::new(Real(*c)).backward(g, &lower, &gys[0])
            }
            Ext::Sigmoid => Sigmoid.backward(g, &outputs[0], &gys[0]),
            Ext::Softmax(axis) => Softmax::new(*axis).backward(g, &outputs[0], &gys[0]),
            Ext::CrossEntropy(labels) => {
                let p = apply1(g, Ext::Softmax(1), &[inputs[0]]);
                SoftmaxCrossEntropy::new(labels).backward(g, &p, &gys[0])
            }
        };
        vec![gx]
    }
}

type Net = Graph<Real, Ext>;

/// A graph that several handles share.
#[derive(Clone)]
struct Tape {
    net: Rc<RefCell<Net>>,
    rng: Rc<RefCell<Rng>>,
}

/// A variable together with the graph it belongs to.
#[derive(Clone)]
struct Variable {
    tape: Tape,
    v: Handle,
}

/// Puts a flag back when it goes out of scope.
struct Guard {
    tape: Tape,
    inner: Option<ConfigGuard>,
}

impl Drop for Guard {
    fn drop(&mut self) {
        if let Some(guard) = self.inner.take() {
            self.tape.with(|g| guard.restore(&mut g.config));
        }
    }
}

impl PartialEq for Variable {
    fn eq(&self, other: &Self) -> bool {
        self.v == other.v
    }
}

impl fmt::Debug for Variable {
    fn fmt(&self, f: &mut fmt::Formatter<'_>) -> fmt::Result {
        fmt::Debug::fmt(&self.v, f)
    }
}

impl Tape {
    fn new() -> Self {
        let rng = Rc::new(RefCell::new(Rng::new(42)));
        Tape { net: Rc::new(RefCell::new(Graph::new())), rng }
    }

    fn with<R>(&self, f: impl FnOnce(&mut Net) -> R) -> R {
        f(&mut self.net.borrow_mut())
    }

    /// Takes the graph out of its cell.
    fn take(&self) -> Net {
        std::mem::replace(&mut *self.net.borrow_mut(), Graph::new())
    }

    /// Puts a graph into the cell.
    fn put(&self, g: Net) {
        *self.net.borrow_mut() = g;
    }

    /// Runs `f` with the given graph in the cell, and takes it out again.
    fn through(&self, g: Net, v: &Handle, f: &dyn Fn(&Variable) -> Variable) -> (Net, Handle) {
        self.put(g);
        let y = self.handle(&f(&self.at(*v)));
        (self.take(), y)
    }

    fn at(&self, v: Handle) -> Variable {
        Variable { tape: self.clone(), v }
    }

    fn var(&self, data: ArrayD<f64>) -> Variable {
        let v = self.with(|g| Handle::new(g, tensor(&data)));
        self.at(v)
    }

    fn scalar(&self, value: f64) -> Variable {
        let v = self.with(|g| Handle::from_scalar(g, Real(value)));
        self.at(v)
    }

    fn empty(&self) -> Variable {
        let v = self.with(|g| Handle::empty(g));
        self.at(v)
    }

    fn no_grad(&self) -> Guard {
        let inner = self.with(|g| dezero::engine::config::no_grad(&mut g.config));
        Guard { tape: self.clone(), inner: Some(inner) }
    }

    fn test_mode(&self) -> Guard {
        let inner = self.with(|g| dezero::engine::config::test_mode(&mut g.config));
        Guard { tape: self.clone(), inner: Some(inner) }
    }

    /// The handle in this graph of what a variable stands for.
    fn handle(&self, x: &Variable) -> Handle {
        if Rc::ptr_eq(&self.net, &x.tape.net) {
            x.v
        } else {
            let data = tensor(&x.data().expect("data"));
            self.with(|g| Handle::new(g, data))
        }
    }

    fn creator_inputs(&self, f: &Function) -> Vec<Variable> {
        self.with(|g| f.inputs(g)).into_iter().map(|v| self.at(v)).collect()
    }

    fn creator_outputs(&self, f: &Function) -> Vec<Option<Variable>> {
        self.with(|g| f.outputs(g)).into_iter().map(|v| v.map(|v| self.at(v))).collect()
    }
}

impl Variable {
    fn id(&self) -> usize {
        self.v.id()
    }

    fn data(&self) -> Option<ArrayD<f64>> {
        self.tape.with(|g| self.v.data(g).map(array_of))
    }

    fn set_data(&self, data: ArrayD<f64>) {
        self.tape.with(|g| self.v.set_data(g, tensor(&data)));
    }

    fn grad(&self) -> Option<Variable> {
        self.tape.with(|g| self.v.grad(g)).map(|v| self.tape.at(v))
    }

    fn set_grad(&self, grad: Option<Variable>) {
        self.tape.with(|g| self.v.set_grad(g, grad.map(|w| w.v)));
    }

    fn cleargrad(&self) {
        self.tape.with(|g| self.v.cleargrad(g));
    }

    fn creator(&self) -> Option<Function> {
        self.tape.with(|g| self.v.creator(g))
    }

    fn generation(&self) -> u32 {
        self.tape.with(|g| self.v.generation(g))
    }

    fn name(&self) -> Option<String> {
        self.tape.with(|g| self.v.name(g).cloned())
    }

    fn set_name(&self, name: Option<String>) {
        self.tape.with(|g| self.v.set_name(g, name));
    }

    fn shape(&self) -> Option<Vec<usize>> {
        self.tape.with(|g| self.v.shape(g))
    }

    fn ndim(&self) -> Option<usize> {
        self.tape.with(|g| self.v.ndim(g))
    }

    fn size(&self) -> Option<usize> {
        self.tape.with(|g| self.v.size(g))
    }

    fn len(&self) -> Option<usize> {
        self.tape.with(|g| self.v.len(g))
    }

    fn full_like(&self, value: f64) -> Option<Variable> {
        self.tape.with(|g| self.v.full_like(g, Real(value))).map(|v| self.tape.at(v))
    }

    fn backward(&self) {
        self.tape.with(|g| self.v.backward(g));
    }

    fn backward_with(&self, retain_grad: bool, create_graph: bool) {
        self.tape.with(|g| self.v.backward_with(g, retain_grad, create_graph));
    }

    fn unchain(&self) {
        self.tape.with(|g| self.v.unchain(g));
    }

    fn unchain_backward(&self) {
        self.tape.with(|g| self.v.unchain_backward(g));
    }

    /// Gives up the last handle to the variable.
    fn release(self) {
        self.tape.with(|g| self.v.release(g));
    }

    fn ext(&self, op: Ext) -> Variable {
        let v = self.tape.with(|g| apply1(g, op, &[self.v]));
        self.tape.at(v)
    }
}

fn unary(x: &Variable, f: impl FnOnce(&mut Net, &Handle) -> Handle) -> Variable {
    let v = x.tape.with(|g| f(g, &x.v));
    x.tape.at(v)
}

fn binary(
    a: &Variable,
    b: &Variable,
    f: impl FnOnce(&mut Net, &Handle, &Handle) -> Handle,
) -> Variable {
    let tape = &a.tape;
    let (u, v) = (tape.handle(a), tape.handle(b));
    let r = tape.with(|g| f(g, &u, &v));
    tape.at(r)
}

fn ternary(
    a: &Variable,
    b: &Variable,
    c: Option<&Variable>,
    f: impl FnOnce(&mut Net, &Handle, &Handle, Option<&Handle>) -> Handle,
) -> Variable {
    let tape = &a.tape;
    let (u, v, w) = (tape.handle(a), tape.handle(b), c.map(|c| tape.handle(c)));
    let r = tape.with(|g| f(g, &u, &v, w.as_ref()));
    tape.at(r)
}

fn add(a: &Variable, b: &Variable) -> Variable {
    binary(a, b, |g, u, v| dezero::engine::ops::add(g, u, v))
}

fn sub(a: &Variable, b: &Variable) -> Variable {
    binary(a, b, |g, u, v| dezero::engine::ops::sub(g, u, v))
}

fn mul(a: &Variable, b: &Variable) -> Variable {
    binary(a, b, |g, u, v| dezero::engine::ops::mul(g, u, v))
}

fn div(a: &Variable, b: &Variable) -> Variable {
    binary(a, b, |g, u, v| dezero::engine::ops::div(g, u, v))
}

impl ops::Mul<&Variable> for &Variable {
    type Output = Variable;

    fn mul(self, other: &Variable) -> Variable {
        mul(self, other)
    }
}

impl ops::Mul<f64> for &Variable {
    type Output = Variable;

    fn mul(self, other: f64) -> Variable {
        mul(self, &self.tape.scalar(other))
    }
}

impl ops::Mul<Variable> for f64 {
    type Output = Variable;

    fn mul(self, other: Variable) -> Variable {
        mul(&other.tape.scalar(self), &other)
    }
}

impl ops::Add<&Variable> for &Variable {
    type Output = Variable;

    fn add(self, other: &Variable) -> Variable {
        add(self, other)
    }
}

impl ops::Add<Variable> for Variable {
    type Output = Variable;

    fn add(self, other: Variable) -> Variable {
        add(&self, &other)
    }
}

impl ops::Sub<&Variable> for &Variable {
    type Output = Variable;

    fn sub(self, other: &Variable) -> Variable {
        sub(self, other)
    }
}

fn square(x: &Variable) -> Variable {
    unary(x, |g, v| dezero::functions::basic_math::square(g, v))
}

fn exp(x: &Variable) -> Variable {
    x.ext(Ext::Exp)
}

fn sin(x: &Variable) -> Variable {
    x.ext(Ext::Sin)
}

fn cos(x: &Variable) -> Variable {
    x.ext(Ext::Cos)
}

fn tanh(x: &Variable) -> Variable {
    x.ext(Ext::Tanh)
}

fn pow(x: &Variable, c: f64) -> Variable {
    x.ext(Ext::Pow(c))
}

fn relu(x: &Variable) -> Variable {
    unary(x, |g, v| dezero::functions::activation::relu(g, v))
}

fn sigmoid(x: &Variable) -> Variable {
    x.ext(Ext::Sigmoid)
}

fn softmax(x: &Variable) -> Variable {
    x.ext(Ext::Softmax(1))
}

fn softmax_axis(x: &Variable, axis: isize) -> Variable {
    x.ext(Ext::Softmax(axis))
}

fn softmax_cross_entropy(x: &Variable, labels: &[usize]) -> Variable {
    x.ext(Ext::CrossEntropy(labels.to_vec()))
}

fn mean_squared_error(a: &Variable, b: &Variable) -> Variable {
    binary(a, b, |g, u, v| dezero::functions::loss::mean_squared_error(g, u, v))
}

fn reshape(x: &Variable, shape: &[usize]) -> Variable {
    unary(x, |g, v| dezero::functions::shape::reshape(g, v, shape))
}

fn transpose(x: &Variable) -> Variable {
    unary(x, |g, v| dezero::functions::shape::transpose(g, v))
}

fn sum_all(x: &Variable) -> Variable {
    unary(x, |g, v| dezero::functions::reduce::sum_all(g, v))
}

fn sum(x: &Variable, axis: impl Into<Axes>, keepdims: bool) -> Variable {
    unary(x, |g, v| dezero::functions::reduce::sum(g, v, axis, keepdims))
}

fn sum_to(x: &Variable, shape: &[usize]) -> Variable {
    unary(x, |g, v| dezero::functions::reduce::sum_to(g, v, shape))
}

fn broadcast_to(x: &Variable, shape: &[usize]) -> Variable {
    unary(x, |g, v| dezero::functions::reduce::broadcast_to(g, v, shape))
}

fn matmul(x: &Variable, w: &Variable) -> Variable {
    binary(x, w, |g, u, v| dezero::functions::matmul::matmul(g, u, v))
}

fn linear(x: &Variable, w: &Variable, b: Option<&Variable>) -> Variable {
    ternary(x, w, b, |g, u, v, b| dezero::functions::matmul::linear(g, u, v, b))
}

const EPS: f64 = 1e-4;
const RTOL: f64 = 1e-4;
const ATOL: f64 = 1e-5;

fn data(v: &Variable) -> ArrayD<f64> {
    v.data().expect("variable holds data")
}

fn grad(v: &Variable) -> ArrayD<f64> {
    data(&v.grad().expect("variable has a gradient"))
}

/// Checks backpropagation through `f` against central differences at `x`.
fn gradient_check<F: Fn(&Variable) -> Variable>(
    f: F,
    x: &Variable,
    eps: f64,
    rtol: f64,
    atol: f64,
) -> Result<(), GradientCheckError<Real>> {
    let (g, verdict) = dezero::utils::numerical::gradient_check(
        x.tape.take(),
        &|g: Net, v: &Handle| x.tape.through(g, v, &f),
        &x.v,
        Real(eps),
        Real(rtol),
        Real(atol),
    );
    x.tape.put(g);
    verdict
}

impl Variable {
    fn reshape(&self, shape: &[usize]) -> Variable {
        unary(self, |g, v| v.reshape(g, shape))
    }

    fn transpose(&self) -> Variable {
        unary(self, |g, v| v.transpose(g))
    }

    fn t(&self) -> Variable {
        unary(self, |g, v| v.t(g))
    }

    fn sum(&self, axis: impl Into<Axes>, keepdims: bool) -> Variable {
        unary(self, |g, v| v.sum(g, axis, keepdims))
    }
}

fn im2col(x: &Variable, kernel: usize, stride: usize, pad: usize, to_matrix: bool) -> Variable {
    unary(x, |g, v| dezero::functions::conv::im2col(g, v, kernel, stride, pad, to_matrix))
}

fn col2im(
    x: &Variable,
    input_shape: &[usize],
    kernel: usize,
    stride: usize,
    pad: usize,
    to_matrix: bool,
) -> Variable {
    unary(x, |g, v| {
        dezero::functions::conv::col2im(g, v, input_shape, kernel, stride, pad, to_matrix)
    })
}

fn im2col_array(
    img: &ArrayD<f64>,
    kernel: (usize, usize),
    stride: (usize, usize),
    pad: (usize, usize),
    to_matrix: bool,
) -> ArrayD<f64> {
    let r = dezero::utils::conv::im2col_array(&tensor(img), kernel, stride, pad, to_matrix);
    array_of(&r)
}

fn col2im_array(
    col: &ArrayD<f64>,
    img_shape: &[usize],
    kernel: (usize, usize),
    stride: (usize, usize),
    pad: (usize, usize),
    to_matrix: bool,
) -> ArrayD<f64> {
    let r =
        dezero::utils::conv::col2im_array(&tensor(col), img_shape, kernel, stride, pad, to_matrix);
    array_of(&r)
}

fn conv2d(x: &Variable, w: &Variable, b: Option<&Variable>, stride: usize, pad: usize) -> Variable {
    ternary(x, w, b, |g, u, v, b| dezero::functions::conv::conv2d(g, u, v, b, stride, pad))
}

fn deconv2d(
    x: &Variable,
    w: &Variable,
    b: Option<&Variable>,
    stride: usize,
    pad: usize,
) -> Variable {
    ternary(x, w, b, |g, u, v, b| dezero::functions::conv::deconv2d(g, u, v, b, stride, pad))
}

fn deconv2d_with_outsize(
    x: &Variable,
    w: &Variable,
    b: Option<&Variable>,
    stride: usize,
    pad: usize,
    outsize: (usize, usize),
) -> Variable {
    ternary(x, w, b, |g, u, v, b| {
        dezero::functions::conv::deconv2d_with_outsize(g, u, v, b, stride, pad, outsize)
    })
}

fn pooling(x: &Variable, kernel: impl Into<Pair>, stride: usize, pad: usize) -> Variable {
    unary(x, |g, v| dezero::functions::conv::pooling(g, v, kernel, stride, pad))
}

fn activation_logits(t: &Tape) -> Variable {
    t.var(arr2(&[[-2.0, -0.5, 0.0], [0.5, 1.0, 2.0]]).into_dyn())
}

// -- sigmoid -----------------------------------------------------------

#[test]
fn sigmoid_matches_the_textbook_formula() {
    let t = Tape::new();
    let points = [-8.0_f64, -1.0, -0.25, 0.0, 0.25, 1.0, 8.0];
    let y = data(&sigmoid(&t.var(arr1(&points).into_dyn())));
    for (actual, point) in y.iter().zip(points.iter()) {
        let expected = 1.0 / (1.0 + (-point).exp());
        assert!(
            (actual - expected).abs() < 1e-15,
            "sigmoid({point}) was {actual}, expected {expected}"
        );
    }
}

#[test]
fn sigmoid_survives_saturating_inputs() {
    let t = Tape::new();
    let x = t.var(arr1(&[-800.0, 800.0]).into_dyn());
    let y = data(&sigmoid(&x));
    assert!(y.iter().all(|v| v.is_finite()));
    assert_eq!(y[[0]], 0.0);
    assert_eq!(y[[1]], 1.0);
    assert!(
        (800.0_f64).exp().is_infinite(),
        "the naive formula really would overflow"
    );
}

#[test]
fn sigmoid_backward_is_y_times_one_minus_y() {
    let t = Tape::new();
    let x = activation_logits(&t);
    let y = sigmoid(&x);
    let values = data(&y);
    y.backward();

    let expected = values.mapv(|v| v * (1.0 - v));
    for (actual, expected) in grad(&x).iter().zip(expected.iter()) {
        assert!((actual - expected).abs() < 1e-15);
    }
}

#[test]
fn sigmoid_gradient_matches_numerical_diff() {
    let t = Tape::new();
    gradient_check(sigmoid, &activation_logits(&t), EPS, RTOL, ATOL).expect("sigmoid");

    let weights = t.var(arr2(&[[1.0, -2.0, 0.5], [3.0, 0.25, -1.0]]).into_dyn());
    gradient_check(
        |x| sum_all(&(&sigmoid(x) * &weights)),
        &activation_logits(&t),
        EPS,
        RTOL,
        ATOL,
    )
    .expect("weighted sigmoid");
}

// -- relu --------------------------------------------------------------

#[test]
fn relu_clamps_at_zero() {
    let t = Tape::new();
    let x = t.var(arr1(&[-2.0, -0.0, 0.0, 0.5, 3.0]).into_dyn());
    assert_eq!(data(&relu(&x)), arr1(&[0.0, 0.0, 0.0, 0.5, 3.0]).into_dyn());
}

#[test]
fn relu_backward_is_the_positive_mask() {
    let t = Tape::new();
    let x = t.var(arr1(&[-2.0, 0.0, 0.5, 3.0]).into_dyn());
    relu(&x).backward();
    assert_eq!(
        grad(&x),
        arr1(&[0.0, 0.0, 1.0, 1.0]).into_dyn(),
        "x = 0 is on the closed side"
    );
}

#[test]
fn relu_gradient_matches_numerical_diff() {
    let t = Tape::new();
    // Points chosen away from the kink: a finite difference straddling
    // x = 0 measures the average of the two one-sided slopes and would
    // "fail" against any convention.
    let x = t.var(arr1(&[-2.0, -0.5, 0.5, 3.0]).into_dyn());
    gradient_check(relu, &x, EPS, RTOL, ATOL).expect("relu");

    let weights = t.var(arr1(&[1.0, -2.0, 0.5, 3.0]).into_dyn());
    gradient_check(|x| sum_all(&(&relu(x) * &weights)), &x, EPS, RTOL, ATOL)
        .expect("weighted relu");
}

#[test]
fn relu_mask_is_a_constant_not_a_graph_node() {
    let t = Tape::new();
    let x = t.var(arr1(&[1.0, -1.0]).into_dyn());
    relu(&x).backward_with(false, true);
    let gx = x.grad().expect("gradient");
    assert_eq!(data(&gx), arr1(&[1.0, 0.0]).into_dyn());
}

// -- softmax -----------------------------------------------------------

#[test]
fn softmax_rows_are_probability_distributions() {
    let t = Tape::new();
    let y = data(&softmax(&activation_logits(&t)));
    assert_eq!(y.shape(), &[2, 3]);
    for row in 0..2 {
        let total: f64 = (0..3).map(|c| y[[row, c]]).sum();
        assert!((total - 1.0).abs() < 1e-15, "row {row} summed to {total}");
        assert!((0..3).all(|c| y[[row, c]] > 0.0));
    }
}

#[test]
fn softmax_is_invariant_to_a_per_row_shift() {
    let t = Tape::new();
    // Adding a constant to a whole row cancels out of the ratio; that this
    // holds *numerically* is what subtracting the row maximum buys.
    let shifted = t.var(arr2(&[[98.0, 99.5, 100.0], [-99.5, -99.0, -98.0]]).into_dyn());
    let a = data(&softmax(&activation_logits(&t)));
    let b = data(&softmax(&shifted));
    for (a, b) in a.iter().zip(b.iter()) {
        assert!((a - b).abs() < 1e-14, "{a} vs {b}");
    }
}

#[test]
fn softmax_does_not_overflow_on_large_logits() {
    let t = Tape::new();
    let x = t.var(arr2(&[[1000.0, 0.0]]).into_dyn());
    let y = data(&softmax(&x));
    assert_eq!(y[[0, 0]], 1.0);
    assert_eq!(y[[0, 1]], 0.0);
}

#[test]
fn softmax_over_axis_zero_normalises_the_columns() {
    let t = Tape::new();
    let y = data(&softmax_axis(&activation_logits(&t), 0));
    for column in 0..3 {
        let total = y[[0, column]] + y[[1, column]];
        assert!((total - 1.0).abs() < 1e-15, "column {column}");
    }
}

#[test]
fn a_negative_axis_counts_from_the_end() {
    let t = Tape::new();
    assert_eq!(
        data(&softmax_axis(&activation_logits(&t), -1)),
        data(&softmax(&activation_logits(&t)))
    );
    assert_eq!(
        data(&softmax_axis(&activation_logits(&t), -2)),
        data(&softmax_axis(&activation_logits(&t), 0))
    );
}

/// With a seed of ones the gradient of a softmax is exactly zero — every
/// row already sums to 1, so nothing can change it. That makes the
/// all-ones case useless as a test and is why the checks below weight the
/// output first.
#[test]
fn softmax_backward_of_a_uniform_seed_vanishes() {
    let t = Tape::new();
    let x = activation_logits(&t);
    softmax(&x).backward();
    for value in grad(&x).iter() {
        assert!(value.abs() < 1e-15, "expected 0, got {value}");
    }
}

#[test]
fn softmax_gradient_matches_numerical_diff() {
    let t = Tape::new();
    let weights = t.var(arr2(&[[1.0, -2.0, 0.5], [3.0, 0.25, -1.0]]).into_dyn());
    gradient_check(
        |x| sum_all(&(&softmax(x) * &weights)),
        &activation_logits(&t),
        EPS,
        RTOL,
        ATOL,
    )
    .expect("weighted softmax over rows");

    gradient_check(
        |x| sum_all(&(&softmax_axis(x, 0) * &weights)),
        &activation_logits(&t),
        EPS,
        RTOL,
        ATOL,
    )
    .expect("weighted softmax over columns");
}

// -- higher-order ------------------------------------------------------

/// Every backward here is `Variable` arithmetic, so an activation's
/// gradient can be differentiated again.
#[test]
fn activation_gradients_stay_differentiable() {
    let t = Tape::new();
    // sigmoid'' = y(1-y)(1-2y); at x = 0, y = 1/2 and the value is 0.
    let x = t.scalar(0.0);
    sigmoid(&x).backward_with(false, true);
    let gx = x.grad().expect("y'");
    assert!(gx.creator().is_some());

    x.cleargrad();
    gx.backward();
    assert!(data(&x.grad().expect("y''")).sum().abs() < 1e-15);

    // Away from the origin it is not zero, so the test above is not passing
    // by accident.
    let x = t.scalar(1.0);
    sigmoid(&x).backward_with(false, true);
    let gx = x.grad().expect("y'");
    x.cleargrad();
    gx.backward();
    let y = 1.0 / (1.0 + (-1.0_f64).exp());
    let expected = y * (1.0 - y) * (1.0 - 2.0 * y);
    assert!((data(&x.grad().expect("y''")).sum() - expected).abs() < 1e-12);
}

fn var(t: &Tape, values: &[f64]) -> Variable {
    t.var(arr1(values).into_dyn())
}

#[test]
fn square_forward() {
    let t = Tape::new();
    let x = t.var(arr2(&[[1.0, -2.0], [3.0, 0.5]]).into_dyn());
    assert_eq!(
        square(&x).data(),
        Some(arr2(&[[1.0, 4.0], [9.0, 0.25]]).into_dyn())
    );
}

#[test]
fn square_backward_is_two_x() {
    let t = Tape::new();
    let x = var(&t, &[3.0, -4.0]);
    let y = square(&x);
    y.backward();
    assert_eq!(
        x.grad().and_then(|g| g.data()),
        Some(arr1(&[6.0, -8.0]).into_dyn())
    );
}

#[test]
fn square_gradient_matches_numerical_diff() {
    let t = Tape::new();
    gradient_check(square, &var(&t, &[0.5, 1.0, 2.0, -3.0]), EPS, RTOL, ATOL)
        .expect("square gradient");
}

#[test]
fn square_second_derivative_is_two() {
    let t = Tape::new();
    let x = t.scalar(5.0);
    let y = square(&x);
    y.backward_with(false, true);
    let gx = x.grad().expect("first derivative");
    x.cleargrad();
    gx.backward();
    assert_eq!(
        x.grad().and_then(|g| g.data()),
        Some(arr0(2.0).into_dyn())
    );
}

#[test]
fn exp_forward() {
    let t = Tape::new();
    let x = var(&t, &[0.0, 1.0, 2.0]);
    let y = exp(&x).data().expect("data");
    for (actual, expected) in y
        .iter()
        .zip([1.0, std::f64::consts::E, 7.389_056_098_930_65])
    {
        assert!((actual - expected).abs() < 1e-12);
    }
}

#[test]
fn exp_backward_is_the_output_itself() {
    let t = Tape::new();
    let x = var(&t, &[0.0, 1.0, 2.0]);
    let y = exp(&x);
    let values = y.data().expect("data");
    y.backward();
    assert_eq!(x.grad().and_then(|g| g.data()), Some(values));
}

#[test]
fn exp_gradient_matches_numerical_diff() {
    let t = Tape::new();
    gradient_check(exp, &var(&t, &[0.5, 1.0, -1.5]), EPS, RTOL, ATOL).expect("exp gradient");
}

#[test]
fn exp_higher_order_derivatives_repeat() {
    let t = Tape::new();
    // Every derivative of exp is exp itself.
    let x = t.scalar(1.0);
    let y = exp(&x);
    y.backward_with(false, true);
    let gx = x.grad().expect("first derivative");

    x.cleargrad();
    gx.backward();
    let gx2 = x.grad().expect("second derivative");

    let e = std::f64::consts::E;
    assert!((gx.data().expect("data").sum() - e).abs() < 1e-12);
    assert!((gx2.data().expect("data").sum() - e).abs() < 1e-12);
}

#[test]
fn step03_composition_matches_the_book() {
    let t = Tape::new();
    // y = square(exp(square(x))) at x = 0.5.
    let x = t.scalar(0.5);
    let y = square(&exp(&square(&x)));
    let value = y.data().expect("data").sum();
    assert!((value - 1.648_721_270_700_128_2).abs() < 1e-12);

    y.backward();
    let g = x.grad().and_then(|g| g.data()).expect("gradient").sum();
    assert!((g - 3.297_442_541_400_256).abs() < 1e-10);
}

/// The value of a 0-d variable's gradient.
fn grad_scalar(v: &Variable) -> f64 {
    v.grad()
        .and_then(|g| g.data())
        .expect("gradient")
        .iter()
        .copied()
        .next()
        .expect("a 0-d array holds one element")
}

#[test]
fn sin_cos_tanh_forward_match_the_standard_library() {
    let t = Tape::new();
    let points = [-1.5_f64, -0.25, 0.0, 0.75, 2.0];
    let x = var(&t, &points);
    for (op, expected) in [
        (sin(&x), points.map(f64::sin)),
        (cos(&x), points.map(f64::cos)),
        (tanh(&x), points.map(f64::tanh)),
    ] {
        let actual = op.data().expect("data");
        for (a, e) in actual.iter().zip(expected.iter()) {
            assert!((a - e).abs() < 1e-15, "{actual:?} vs {expected:?}");
        }
    }
}

#[test]
fn sin_gradient_matches_numerical_diff() {
    let t = Tape::new();
    gradient_check(sin, &var(&t, &[-1.5, -0.25, 0.0, 0.75, 2.0]), EPS, RTOL, ATOL)
        .expect("sin gradient");
}

#[test]
fn cos_gradient_matches_numerical_diff() {
    let t = Tape::new();
    gradient_check(cos, &var(&t, &[-1.5, -0.25, 0.0, 0.75, 2.0]), EPS, RTOL, ATOL)
        .expect("cos gradient");
}

#[test]
fn tanh_gradient_matches_numerical_diff() {
    let t = Tape::new();
    gradient_check(tanh, &var(&t, &[-2.0, -0.5, 0.0, 0.5, 2.0]), EPS, RTOL, ATOL)
        .expect("tanh gradient");
}

#[test]
fn sin_backward_is_cos_and_cos_backward_is_minus_sin() {
    let t = Tape::new();
    let points = [-1.5_f64, 0.25, 1.0];

    let x = var(&t, &points);
    sin(&x).backward();
    let gx = x.grad().and_then(|g| g.data()).expect("gradient");
    for (a, p) in gx.iter().zip(points.iter()) {
        assert!((a - p.cos()).abs() < 1e-15);
    }

    let x = var(&t, &points);
    cos(&x).backward();
    let gx = x.grad().and_then(|g| g.data()).expect("gradient");
    for (a, p) in gx.iter().zip(points.iter()) {
        assert!((a + p.sin()).abs() < 1e-15);
    }
}

#[test]
fn step34_sin_derivatives_cycle_with_period_four() {
    let t = Tape::new();
    let point = 0.7_f64;
    let expected = [point.cos(), -point.sin(), -point.cos(), point.sin()];

    let x = t.scalar(point);
    let y = sin(&x);
    y.backward_with(false, true);

    for (order, expected) in expected.iter().enumerate() {
        let actual = grad_scalar(&x);
        assert!(
            (actual - expected).abs() < 1e-12,
            "derivative {}: got {actual}, expected {expected}",
            order + 1
        );
        let gx = x.grad().expect("derivative");
        x.cleargrad();
        gx.backward_with(false, true);
    }
}

#[test]
fn step35_tanh_derivatives_match_the_book() {
    let t = Tape::new();
    let x = t.scalar(1.0);
    let y = tanh(&x);
    assert!((y.data().expect("data").sum() - 0.761_594_155_955_764_9).abs() < 1e-15);

    y.backward_with(false, true);
    assert!((grad_scalar(&x) - 0.419_974_341_614_026_14).abs() < 1e-15);

    let gx = x.grad().expect("y'");
    x.cleargrad();
    gx.backward_with(false, true);
    assert!((grad_scalar(&x) + 0.639_700_008_449_224_6).abs() < 1e-15);
}

/// `Tanh::backward` reads the forward *output*, which the graph holds only
/// through a `Weak`. A second backward pass therefore depends on something
/// else keeping that output alive once the caller has dropped it — and the
/// gradient graph does, because `y` is an input of its own `y * y` node.
#[test]
fn output_based_backward_survives_dropping_the_forward_output() {
    let t = Tape::new();
    let x = t.scalar(1.0);
    let gx = {
        let y = tanh(&x);
        y.backward_with(false, true);
        x.grad().expect("y'")
    };

    x.cleargrad();
    gx.backward();
    assert!(
        (grad_scalar(&x) + 0.639_700_008_449_224_6).abs() < 1e-15,
        "y'' must not collapse to the zero substituted for a dead output"
    );
}

/// Cross-checks each second derivative against a finite difference of the
/// *analytic* first derivative, evaluated in plain `f64`. Nothing in the
/// comparison touches the graph, so an error in `backward` cannot cancel
/// itself out.
#[test]
fn second_derivatives_match_a_finite_difference_of_the_analytic_first() {
    let t = Tape::new();
    fn central_difference(f: impl Fn(f64) -> f64, x: f64, eps: f64) -> f64 {
        (f(x + eps) - f(x - eps)) / (2.0 * eps)
    }

    /// A name, the graph function, and its first derivative in plain `f64`.
    type Case = (&'static str, fn(&Variable) -> Variable, fn(f64) -> f64);

    let point = 0.7_f64;
    let cases: [Case; 3] = [
        ("sin", sin, f64::cos),
        ("cos", cos, |v| -v.sin()),
        ("tanh", tanh, |v| 1.0 - v.tanh() * v.tanh()),
    ];

    for (name, f, analytic_first) in cases {
        let x = t.scalar(point);
        let y = f(&x);
        y.backward_with(false, true);
        let gx = x.grad().expect("first derivative");
        x.cleargrad();
        gx.backward();

        let actual = grad_scalar(&x);
        let expected = central_difference(analytic_first, point, 1e-5);
        assert!(
            (actual - expected).abs() < 1e-6,
            "{name}'': autodiff gave {actual}, finite differences {expected}"
        );
    }
}

fn taylor_sin(x: &Variable, threshold: f64) -> Variable {
    let mut total: Option<Variable> = None;
    let mut factorial = 1.0_f64; // (2i + 1)!

    for i in 0..30_u32 {
        let sign = if i % 2 == 0 { 1.0 } else { -1.0 };
        let term = (sign / factorial) * pow(x, f64::from(2 * i + 1));
        let magnitude = term
            .data()
            .expect("a term always holds data")
            .iter()
            .fold(0.0_f64, |acc, v| acc.max(v.abs()));

        total = Some(match total {
            None => term,
            Some(sum) => sum + term,
        });
        if magnitude < threshold {
            break;
        }
        factorial *= f64::from((2 * i + 2) * (2 * i + 3));
    }

    total.expect("the loop always contributes its first term")
}

#[test]
fn step27_taylor_series_reproduces_sin_and_its_gradient() {
    let t = Tape::new();
    let point = std::f64::consts::FRAC_PI_4;
    let x = t.scalar(point);
    let approximation = taylor_sin(&x, 1e-4);

    let value = approximation.data().expect("data").sum();
    assert!((value - point.sin()).abs() < 1e-4, "value was {value}");

    approximation.backward();
    let slope = grad_scalar(&x);
    assert!((slope - point.cos()).abs() < 1e-4, "slope was {slope}");
}

fn prediction(t: &Tape) -> Variable {
    t.var(arr2(&[[1.0, 2.0], [3.0, 4.0]]).into_dyn())
}

fn target(t: &Tape) -> Variable {
    t.var(arr2(&[[0.5, 2.5], [2.0, 5.0]]).into_dyn())
}

fn logits(t: &Tape) -> Variable {
    t.var(arr2(&[[0.5, -1.0, 2.0], [1.5, 0.25, -0.75], [-2.0, 0.0, 1.0]]).into_dyn())
}

fn scalar_value(v: &Variable) -> f64 {
    let d = data(v);
    assert_eq!(d.len(), 1, "expected a 0-dimensional loss");
    d.sum()
}

// -- mean_squared_error ------------------------------------------------

#[test]
fn mse_divides_by_the_batch_not_the_element_count() {
    let t = Tape::new();
    // Differences 0.5, -0.5, 1.0, -1.0 -> squares 0.25, 0.25, 1, 1 -> 2.5,
    // over *two rows*, not four elements.
    let loss = mean_squared_error(&prediction(&t), &target(&t));
    assert!((scalar_value(&loss) - 1.25).abs() < 1e-15);
    assert_eq!(loss.shape(), Some(vec![]), "the loss is a scalar");
}

#[test]
fn mse_is_zero_exactly_when_the_operands_agree() {
    let t = Tape::new();
    let x = prediction(&t);
    assert_eq!(scalar_value(&mean_squared_error(&x, &x)), 0.0);
}

#[test]
fn mse_is_symmetric_in_value_and_antisymmetric_in_gradient() {
    let t = Tape::new();
    let (a, b) = (prediction(&t), target(&t));
    let forward = mean_squared_error(&a, &b);
    forward.backward();
    let (ga, gb) = (grad(&a), grad(&b));
    assert_eq!(ga, -gb);

    let (c, d) = (prediction(&t), target(&t));
    let reversed = mean_squared_error(&d, &c);
    assert_eq!(data(&forward), data(&reversed));
}

#[test]
fn mse_backward_is_two_over_n_times_the_difference() {
    let t = Tape::new();
    let (a, b) = (prediction(&t), target(&t));
    mean_squared_error(&a, &b).backward();
    // 2/2 * (x0 - x1)
    assert_eq!(grad(&a), arr2(&[[0.5, -0.5], [1.0, -1.0]]).into_dyn());
}

#[test]
fn mse_gradient_matches_numerical_diff() {
    let t = Tape::new();
    gradient_check(
        |x| mean_squared_error(x, &target(&t)),
        &prediction(&t),
        EPS,
        RTOL,
        ATOL,
    )
    .expect("d/dx0");
    gradient_check(
        |x| mean_squared_error(&prediction(&t), x),
        &target(&t),
        EPS,
        RTOL,
        ATOL,
    )
    .expect("d/dx1");
}

#[test]
fn mse_works_on_a_one_dimensional_batch() {
    let t = Tape::new();
    let a = t.var(arr1(&[1.0, 2.0, 3.0]).into_dyn());
    let b = t.var(arr1(&[0.0, 2.0, 5.0]).into_dyn());
    // (1 + 0 + 4) / 3
    assert!((scalar_value(&mean_squared_error(&a, &b)) - 5.0 / 3.0).abs() < 1e-15);
    gradient_check(|x| mean_squared_error(x, &b), &a, EPS, RTOL, ATOL).expect("1-d");
}

// -- softmax_cross_entropy ---------------------------------------------

/// The fused loss must equal the naive `-mean(log(softmax(x)[i, t[i]]))`
/// built out of the ops that already exist. Nothing in the two paths is
/// shared, so agreeing to 15 digits is a real cross-check.
#[test]
fn cross_entropy_matches_the_naive_composition() {
    let t = Tape::new();
    let x = logits(&t);
    let labels = [2_usize, 0, 1];

    let fused = scalar_value(&softmax_cross_entropy(&x, &labels));

    let probabilities = data(&softmax(&x));
    let naive = -labels
        .iter()
        .enumerate()
        .map(|(row, &label)| probabilities[[row, label]].ln())
        .sum::<f64>()
        / 3.0;

    assert!(
        (fused - naive).abs() < 1e-14,
        "fused {fused} vs naive {naive}"
    );
}

#[test]
fn a_confident_correct_prediction_costs_almost_nothing() {
    let t = Tape::new();
    let x = t.var(arr2(&[[20.0, 0.0, 0.0]]).into_dyn());
    assert!(scalar_value(&softmax_cross_entropy(&x, &[0])) < 1e-8);
    // ... and a confident wrong one costs about the logit gap.
    let wrong = scalar_value(&softmax_cross_entropy(&x, &[1]));
    assert!((wrong - 20.0).abs() < 1e-6, "{wrong}");
}

#[test]
fn uniform_logits_cost_the_log_of_the_class_count() {
    let t = Tape::new();
    let x = t.var(ArrayD::zeros(IxDyn(&[4, 5])));
    let loss = scalar_value(&softmax_cross_entropy(&x, &[0, 1, 2, 3]));
    assert!((loss - 5.0_f64.ln()).abs() < 1e-14, "{loss}");
}

#[test]
fn cross_entropy_backward_is_softmax_minus_one_hot_over_n() {
    let t = Tape::new();
    let x = logits(&t);
    let labels = [2_usize, 0, 1];
    softmax_cross_entropy(&x, &labels).backward();

    let expected = data(&softmax(&logits(&t)));
    let gx = grad(&x);
    for row in 0..3 {
        for column in 0..3 {
            let onehot = f64::from(labels[row] == column);
            let want = (expected[[row, column]] - onehot) / 3.0;
            assert!(
                (gx[[row, column]] - want).abs() < 1e-15,
                "gradient at ({row}, {column})"
            );
        }
    }
}

/// Every row of the gradient sums to zero: shifting all of a row's logits
/// by a constant leaves the loss unchanged, so the loss cannot have a
/// gradient along that direction.
#[test]
fn cross_entropy_gradient_rows_sum_to_zero() {
    let t = Tape::new();
    let x = logits(&t);
    softmax_cross_entropy(&x, &[0, 1, 2]).backward();
    let gx = grad(&x);
    for row in 0..3 {
        let total: f64 = (0..3).map(|c| gx[[row, c]]).sum();
        assert!(total.abs() < 1e-15, "row {row} summed to {total}");
    }
}

#[test]
fn cross_entropy_gradient_matches_numerical_diff() {
    let t = Tape::new();
    for labels in [[0_usize, 1, 2], [2, 2, 2], [1, 0, 0]] {
        gradient_check(
            |x| softmax_cross_entropy(x, &labels),
            &logits(&t),
            EPS,
            RTOL,
            ATOL,
        )
        .unwrap_or_else(|e| panic!("labels {labels:?}: {e:?}"));
    }
}

#[test]
fn cross_entropy_survives_logits_that_would_overflow() {
    let t = Tape::new();
    let x = t.var(arr2(&[[800.0, 0.0], [0.0, 800.0]]).into_dyn());
    let loss = softmax_cross_entropy(&x, &[0, 1]);
    assert!(scalar_value(&loss).is_finite());
    assert!(scalar_value(&loss) < 1e-8);

    loss.backward();
    assert!(grad(&x).iter().all(|v| v.is_finite()));
}

fn x23(t: &Tape) -> Variable {
    t.var(arr2(&[[1.0, 2.0, 3.0], [4.0, 5.0, 6.0]]).into_dyn())
}

fn w32(t: &Tape) -> Variable {
    t.var(arr2(&[[1.0, -1.0], [0.5, 2.0], [-2.0, 0.25]]).into_dyn())
}

fn b2(t: &Tape) -> Variable {
    t.var(arr1(&[0.5, -1.5]).into_dyn())
}

// -- matmul forward ----------------------------------------------------

#[test]
fn matmul_forward_matches_the_hand_computed_product() {
    let t = Tape::new();
    let y = matmul(&x23(&t), &w32(&t));
    assert_eq!(y.shape(), Some(vec![2, 2]));
    assert_eq!(
        data(&y),
        arr2(&[[-4.0, 3.75], [-5.5, 7.5]]).into_dyn(),
        "rows of x dotted with columns of W"
    );
}

#[test]
fn matmul_handles_the_degenerate_row_by_column_case() {
    let t = Tape::new();
    let row = t.var(arr2(&[[1.0, 2.0, 3.0]]).into_dyn());
    let column = t.var(arr2(&[[4.0], [5.0], [6.0]]).into_dyn());
    assert_eq!(data(&matmul(&row, &column)), arr2(&[[32.0]]).into_dyn());
    assert_eq!(matmul(&column, &row).shape(), Some(vec![3, 3]));
}

// -- matmul backward ---------------------------------------------------

#[test]
fn matmul_backward_is_the_transposed_product() {
    let t = Tape::new();
    let x = x23(&t);
    let w = w32(&t);
    matmul(&x, &w).backward();

    // With a seed of ones, gx = ones . W^T is the row sums of W repeated,
    // and gW = x^T . ones is the column sums of x repeated.
    assert_eq!(
        grad(&x),
        arr2(&[[0.0, 2.5, -1.75], [0.0, 2.5, -1.75]]).into_dyn()
    );
    assert_eq!(
        grad(&w),
        arr2(&[[5.0, 5.0], [7.0, 7.0], [9.0, 9.0]]).into_dyn()
    );
}

#[test]
fn matmul_gradient_matches_numerical_diff() {
    let t = Tape::new();
    gradient_check(|x| matmul(x, &w32(&t)), &x23(&t), EPS, RTOL, ATOL).expect("d/dx");
    gradient_check(|w| matmul(&x23(&t), w), &w32(&t), EPS, RTOL, ATOL).expect("d/dW");

    // A non-uniform seed, so a transposed gradient could not pass by
    // symmetry.
    let weights = t.var(arr2(&[[1.0, -2.0], [0.5, 3.0]]).into_dyn());
    gradient_check(
        |x| sum_all(&(&matmul(x, &w32(&t)) * &weights)),
        &x23(&t),
        EPS,
        RTOL,
        ATOL,
    )
    .expect("weighted d/dx");
}

// -- linear ------------------------------------------------------------

#[test]
fn linear_adds_the_bias_to_every_row() {
    let t = Tape::new();
    let y = linear(&x23(&t), &w32(&t), Some(&b2(&t)));
    assert_eq!(
        data(&y),
        arr2(&[[-3.5, 2.25], [-5.0, 6.0]]).into_dyn(),
        "matmul, then b broadcast down the batch"
    );
}

#[test]
fn linear_without_a_bias_is_matmul() {
    let t = Tape::new();
    let y = linear(&x23(&t), &w32(&t), None);
    assert_eq!(data(&y), data(&matmul(&x23(&t), &w32(&t))));

    // ... including in the backward pass.
    let (a, wa) = (x23(&t), w32(&t));
    let (b, wb) = (x23(&t), w32(&t));
    linear(&a, &wa, None).backward();
    matmul(&b, &wb).backward();
    assert_eq!(grad(&a), grad(&b));
    assert_eq!(grad(&wa), grad(&wb));
}

#[test]
fn linear_bias_gradient_is_the_batch_sum() {
    let t = Tape::new();
    let x = x23(&t);
    let w = w32(&t);
    let b = b2(&t);
    linear(&x, &w, Some(&b)).backward();
    assert_eq!(
        grad(&b),
        arr1(&[2.0, 2.0]).into_dyn(),
        "one row of the seed per batch element"
    );
}

#[test]
fn linear_gradients_match_numerical_diff() {
    let t = Tape::new();
    gradient_check(|x| linear(x, &w32(&t), Some(&b2(&t))), &x23(&t), EPS, RTOL, ATOL).expect("d/dx");
    gradient_check(|w| linear(&x23(&t), w, Some(&b2(&t))), &w32(&t), EPS, RTOL, ATOL).expect("d/dW");
    gradient_check(|b| linear(&x23(&t), &w32(&t), Some(b)), &b2(&t), EPS, RTOL, ATOL).expect("d/db");
    gradient_check(|x| linear(x, &w32(&t), None), &x23(&t), EPS, RTOL, ATOL)
        .expect("d/dx, no bias");
}

/// A weighted objective, so a gradient that came out transposed or summed
/// over the wrong axis cannot survive.
#[test]
fn linear_gradients_match_numerical_diff_under_a_non_uniform_seed() {
    let t = Tape::new();
    let weights = t.var(arr2(&[[1.0, -2.0], [0.5, 3.0]]).into_dyn());
    let objective = |x: &Variable, w: &Variable, b: &Variable| {
        sum_all(&(&linear(x, w, Some(b)) * &weights))
    };
    gradient_check(|x| objective(x, &w32(&t), &b2(&t)), &x23(&t), EPS, RTOL, ATOL).expect("d/dx");
    gradient_check(|w| objective(&x23(&t), w, &b2(&t)), &w32(&t), EPS, RTOL, ATOL).expect("d/dW");
    gradient_check(|b| objective(&x23(&t), &w32(&t), b), &b2(&t), EPS, RTOL, ATOL).expect("d/db");
}

#[test]
fn linear_accepts_a_row_shaped_bias() {
    let t = Tape::new();
    // A `(1, out)` bias broadcasts just as a `(out,)` one does, and its
    // gradient comes back at its own shape.
    let b = t.var(arr2(&[[0.5, -1.5]]).into_dyn());
    let y = linear(&x23(&t), &w32(&t), Some(&b));
    assert_eq!(data(&y), arr2(&[[-3.5, 2.25], [-5.0, 6.0]]).into_dyn());
    y.backward();
    assert_eq!(grad(&b), arr2(&[[2.0, 2.0]]).into_dyn());
}

// -- higher-order ------------------------------------------------------

#[test]
fn matmul_gradients_stay_differentiable() {
    let t = Tape::new();
    // y = sum(x . x), so dy/dx = ones . x^T + x^T . ones, and each entry of
    // d2y/dx2 counts how many times that entry is reused.
    let x = t.var(arr2(&[[1.0, 2.0], [3.0, 4.0]]).into_dyn());
    let y = sum_all(&matmul(&x, &x));
    y.backward_with(false, true);

    let gx = x.grad().expect("first derivative");
    assert!(gx.creator().is_some(), "the gradient is a graph node");

    x.cleargrad();
    sum_all(&gx).backward();
    assert_eq!(
        grad(&x),
        ArrayD::from_elem(IxDyn(&[2, 2]), 4.0),
        "each entry appears in four terms of sum(x . x)"
    );
}

fn matrix(t: &Tape) -> Variable {
    t.var(arr2(&[[1.0, 2.0, 3.0], [4.0, 5.0, 6.0]]).into_dyn())
}

#[test]
fn reshape_forward_reads_in_c_order() {
    let t = Tape::new();
    let y = reshape(&matrix(&t), &[3, 2]);
    assert_eq!(
        y.data(),
        Some(arr2(&[[1.0, 2.0], [3.0, 4.0], [5.0, 6.0]]).into_dyn())
    );
}

#[test]
fn reshape_backward_restores_the_input_shape() {
    let t = Tape::new();
    let x = matrix(&t);
    let y = reshape(&x, &[6]);
    y.backward();
    assert_eq!(
        x.grad().and_then(|g| g.data()),
        Some(arr2(&[[1.0, 1.0, 1.0], [1.0, 1.0, 1.0]]).into_dyn())
    );
}

#[test]
fn reshape_to_the_same_shape_builds_no_node() {
    let t = Tape::new();
    let x = matrix(&t);
    let y = reshape(&x, &[2, 3]);
    assert_eq!(y.id(), x.id(), "the very same variable");
    assert!(y.creator().is_none());
}

#[test]
fn reshape_can_add_and_remove_unit_axes() {
    let t = Tape::new();
    let x = matrix(&t);
    assert_eq!(reshape(&x, &[1, 2, 3]).shape(), Some(vec![1, 2, 3]));
    assert_eq!(reshape(&x, &[6, 1]).shape(), Some(vec![6, 1]));
    assert_eq!(
        reshape(&t.var(arr2(&[[7.0]]).into_dyn()), &[1]).data(),
        Some(arr1(&[7.0]).into_dyn())
    );
}

#[test]
fn reshape_gradient_matches_numerical_diff() {
    let t = Tape::new();
    gradient_check(|x| reshape(x, &[3, 2]), &matrix(&t), EPS, RTOL, ATOL).expect("reshape");
}

#[test]
fn transpose_forward_swaps_the_axes() {
    let t = Tape::new();
    let y = transpose(&matrix(&t));
    assert_eq!(
        y.data(),
        Some(arr2(&[[1.0, 4.0], [2.0, 5.0], [3.0, 6.0]]).into_dyn())
    );
}

#[test]
fn transpose_backward_transposes_the_gradient() {
    let t = Tape::new();
    // A non-symmetric weighting: a backward that forgot to transpose would
    // return the gradient with rows and columns swapped.
    let x = matrix(&t);
    let weights = t.var(arr2(&[[1.0, 2.0], [3.0, 4.0], [5.0, 6.0]]).into_dyn());
    sum_all(&(&transpose(&x) * &weights)).backward();
    assert_eq!(
        x.grad().and_then(|g| g.data()),
        Some(arr2(&[[1.0, 3.0, 5.0], [2.0, 4.0, 6.0]]).into_dyn())
    );
}

#[test]
fn transpose_is_its_own_inverse() {
    let t = Tape::new();
    let x = matrix(&t);
    let y = transpose(&transpose(&x));
    assert_eq!(y.data(), x.data());
}

#[test]
fn transpose_reverses_every_axis_at_rank_three() {
    let t = Tape::new();
    let x =
        t.var(arr3(&[[[1.0, 2.0], [3.0, 4.0]], [[5.0, 6.0], [7.0, 8.0]]]).into_dyn());
    let y = transpose(&x);
    assert_eq!(y.shape(), Some(vec![2, 2, 2]));
    let data = y.data().expect("data");
    assert_eq!(data[[0, 1, 1]], 7.0, "y[i, j, k] == x[k, j, i]");
    assert_eq!(data[[1, 0, 0]], 2.0);
}

#[test]
fn transpose_of_a_vector_is_a_no_op() {
    let t = Tape::new();
    let x = t.var(arr1(&[1.0, 2.0, 3.0]).into_dyn());
    assert_eq!(transpose(&x).data(), x.data());
}

#[test]
fn transpose_gradient_matches_numerical_diff() {
    let t = Tape::new();
    gradient_check(transpose, &matrix(&t), EPS, RTOL, ATOL).expect("transpose");
}

#[test]
fn the_method_forms_delegate_to_the_functions() {
    let t = Tape::new();
    let x = matrix(&t);
    assert_eq!(x.reshape(&[6]).data(), reshape(&x, &[6]).data());
    assert_eq!(x.transpose().data(), transpose(&x).data());
    assert_eq!(x.t().data(), transpose(&x).data());
    assert_eq!(x.reshape(&[2, 3]).id(), x.id(), "the identity case too");
}

#[test]
fn reshaping_a_transposed_variable_reads_the_transposed_order() {
    let t = Tape::new();
    // The case that forces `reshaped` to copy: the transposed array is not
    // contiguous, and reading it in C order must follow the *logical*
    // layout, not the buffer.
    let y = reshape(&transpose(&matrix(&t)), &[6]);
    assert_eq!(
        y.data(),
        Some(arr1(&[1.0, 4.0, 2.0, 5.0, 3.0, 6.0]).into_dyn())
    );
}

fn cube(t: &Tape) -> Variable {
    t.var(
        arr3(&[
            [[1.0, 2.0], [3.0, 4.0], [5.0, 6.0]],
            [[7.0, 8.0], [9.0, 10.0], [11.0, 12.0]],
        ])
        .into_dyn(),
    )
}

// -- sum forward -------------------------------------------------------

#[test]
fn sum_over_every_axis_and_keepdims_combination() {
    let t = Tape::new();
    let x = matrix(&t);
    assert_eq!(data(&sum(&x, Axes::All, false)), arr0(21.0).into_dyn());
    assert_eq!(
        data(&sum(&x, Axes::All, true)),
        arr2(&[[21.0]]).into_dyn(),
        "keepdims keeps every reduced axis as a 1"
    );
    assert_eq!(data(&sum(&x, 0, false)), arr1(&[5.0, 7.0, 9.0]).into_dyn());
    assert_eq!(data(&sum(&x, 1, false)), arr1(&[6.0, 15.0]).into_dyn());
    assert_eq!(data(&sum(&x, 0, true)), arr2(&[[5.0, 7.0, 9.0]]).into_dyn());
    assert_eq!(data(&sum(&x, 1, true)), arr2(&[[6.0], [15.0]]).into_dyn());
    assert_eq!(data(&sum(&x, -1, false)), arr1(&[6.0, 15.0]).into_dyn());
}

#[test]
fn sum_over_several_axes_at_once() {
    let t = Tape::new();
    let x = cube(&t);
    assert_eq!(
        data(&sum(&x, [0, 2], false)),
        arr1(&[18.0, 26.0, 34.0]).into_dyn()
    );
    assert_eq!(
        data(&sum(&x, [0, 2], true)).shape(),
        &[1, 3, 1],
        "keepdims leaves a 1 at each reduced axis"
    );
}

#[test]
fn sum_of_a_scalar_is_itself() {
    let t = Tape::new();
    let x = t.scalar(7.0);
    assert_eq!(data(&sum(&x, Axes::All, false)), arr0(7.0).into_dyn());
    assert_eq!(data(&sum(&x, Axes::All, true)), arr0(7.0).into_dyn());
}

// -- sum backward ------------------------------------------------------

#[test]
fn sum_backward_spreads_ones_over_the_input() {
    let t = Tape::new();
    for axis in [Axes::All, Axes::Only(vec![0]), Axes::Only(vec![1])] {
        for keepdims in [false, true] {
            let x = matrix(&t);
            sum(&x, axis.clone(), keepdims).backward();
            assert_eq!(
                grad(&x),
                ArrayD::from_elem(IxDyn(&[2, 3]), 1.0),
                "axis {axis:?}, keepdims {keepdims}"
            );
        }
    }
}

/// The case `reshape_sum_backward` exists for: with `keepdims=False` the
/// gradient of an `axis=1` sum arrives shaped `(2,)`, which would broadcast
/// across *columns* — the transpose of the right answer — if it were not
/// reshaped to `(2, 1)` first.
#[test]
fn sum_backward_aligns_the_reduced_axis() {
    let t = Tape::new();
    let x = matrix(&t);
    let weights = t.var(arr1(&[10.0, 100.0]).into_dyn());
    sum_all(&(&sum(&x, 1, false) * &weights)).backward();
    assert_eq!(
        grad(&x),
        arr2(&[[10.0, 10.0, 10.0], [100.0, 100.0, 100.0]]).into_dyn()
    );
}

#[test]
fn sum_gradient_matches_numerical_diff() {
    let t = Tape::new();
    for keepdims in [false, true] {
        gradient_check(|x| sum(x, Axes::All, keepdims), &matrix(&t), EPS, RTOL, ATOL)
            .expect("sum(all)");
        gradient_check(|x| sum(x, 0, keepdims), &matrix(&t), EPS, RTOL, ATOL).expect("sum(0)");
        gradient_check(|x| sum(x, 1, keepdims), &matrix(&t), EPS, RTOL, ATOL).expect("sum(1)");
        gradient_check(|x| sum(x, 1, keepdims), &cube(&t), EPS, RTOL, ATOL).expect("sum(1) 3-d");
        gradient_check(|x| sum(x, [0, 2], keepdims), &cube(&t), EPS, RTOL, ATOL)
            .expect("sum(0, 2)");
    }
}

/// A weighted sum, so the gradient is not the uninformative all-ones array
/// that hides an axis mix-up.
#[test]
fn weighted_sum_gradient_matches_numerical_diff() {
    let t = Tape::new();
    let weights = t.var(arr1(&[1.0, -2.0, 0.5]).into_dyn());
    gradient_check(
        |x| sum_all(&(&sum(x, 0, false) * &weights)),
        &matrix(&t),
        EPS,
        RTOL,
        ATOL,
    )
    .expect("weighted sum");

    // The same idea at rank 3, over two axes at once: the surviving axis is
    // the middle one, which only lines up if both reduced axes are put back
    // in the right places.
    let middle = t.var(arr1(&[1.0, -2.0, 0.5]).into_dyn());
    gradient_check(
        |x| sum_all(&(&sum(x, [0, 2], false) * &middle)),
        &cube(&t),
        EPS,
        RTOL,
        ATOL,
    )
    .expect("weighted 3-d sum over two axes");
}

#[test]
fn the_method_form_delegates_to_the_function() {
    let t = Tape::new();
    let x = matrix(&t);
    assert_eq!(x.sum(Axes::All, false).data(), sum_all(&x).data());
    assert_eq!(x.sum(1, true).data(), sum(&x, 1, true).data());
}

// -- broadcast_to ------------------------------------------------------

#[test]
fn broadcast_to_repeats_along_the_missing_axes() {
    let t = Tape::new();
    let row = t.var(arr1(&[1.0, 2.0, 3.0]).into_dyn());
    assert_eq!(
        data(&broadcast_to(&row, &[2, 3])),
        arr2(&[[1.0, 2.0, 3.0], [1.0, 2.0, 3.0]]).into_dyn()
    );

    let column = t.var(arr2(&[[1.0], [2.0]]).into_dyn());
    assert_eq!(
        data(&broadcast_to(&column, &[2, 3])),
        arr2(&[[1.0, 1.0, 1.0], [2.0, 2.0, 2.0]]).into_dyn()
    );

    let scalar = t.scalar(5.0);
    assert_eq!(
        data(&broadcast_to(&scalar, &[2, 2])),
        arr2(&[[5.0, 5.0], [5.0, 5.0]]).into_dyn()
    );
}

#[test]
fn broadcast_to_the_same_shape_builds_no_node() {
    let t = Tape::new();
    let x = matrix(&t);
    let y = broadcast_to(&x, &[2, 3]);
    assert_eq!(y.id(), x.id(), "the very same variable");
    assert!(y.creator().is_none());
}

#[test]
fn broadcast_to_backward_counts_the_copies() {
    let t = Tape::new();
    let x = t.var(arr1(&[1.0, 2.0, 3.0]).into_dyn());
    broadcast_to(&x, &[4, 3]).backward();
    assert_eq!(grad(&x), arr1(&[4.0, 4.0, 4.0]).into_dyn());
}

#[test]
fn broadcast_to_gradient_matches_numerical_diff() {
    let t = Tape::new();
    let row = t.var(arr1(&[1.0, 2.0, 3.0]).into_dyn());
    gradient_check(|x| broadcast_to(x, &[2, 3]), &row, EPS, RTOL, ATOL).expect("row");

    let column = t.var(arr2(&[[1.0], [2.0]]).into_dyn());
    gradient_check(|x| broadcast_to(x, &[2, 3]), &column, EPS, RTOL, ATOL).expect("column");

    let scalar = t.scalar(3.0);
    gradient_check(|x| broadcast_to(x, &[2, 3, 4]), &scalar, EPS, RTOL, ATOL).expect("scalar");
}

// -- sum_to ------------------------------------------------------------

#[test]
fn sum_to_reduces_to_the_requested_shape() {
    let t = Tape::new();
    let x = matrix(&t);
    assert_eq!(
        data(&sum_to(&x, &[1, 3])),
        arr2(&[[5.0, 7.0, 9.0]]).into_dyn()
    );
    assert_eq!(
        data(&sum_to(&x, &[2, 1])),
        arr2(&[[6.0], [15.0]]).into_dyn()
    );
    assert_eq!(data(&sum_to(&x, &[3])), arr1(&[5.0, 7.0, 9.0]).into_dyn());
    assert_eq!(data(&sum_to(&x, &[])), arr0(21.0).into_dyn());
}

#[test]
fn sum_to_the_same_shape_builds_no_node() {
    let t = Tape::new();
    let x = matrix(&t);
    let y = sum_to(&x, &[2, 3]);
    assert_eq!(y.id(), x.id());
    assert!(y.creator().is_none());
}

#[test]
fn sum_to_backward_broadcasts_the_gradient() {
    let t = Tape::new();
    let x = matrix(&t);
    let weights = t.var(arr2(&[[1.0, 10.0, 100.0]]).into_dyn());
    sum_all(&(&sum_to(&x, &[1, 3]) * &weights)).backward();
    assert_eq!(
        grad(&x),
        arr2(&[[1.0, 10.0, 100.0], [1.0, 10.0, 100.0]]).into_dyn()
    );
}

#[test]
fn sum_to_gradient_matches_numerical_diff() {
    let t = Tape::new();
    gradient_check(|x| sum_to(x, &[1, 3]), &matrix(&t), EPS, RTOL, ATOL).expect("to row");
    gradient_check(|x| sum_to(x, &[2, 1]), &matrix(&t), EPS, RTOL, ATOL).expect("to column");
    gradient_check(|x| sum_to(x, &[]), &matrix(&t), EPS, RTOL, ATOL).expect("to scalar");
    gradient_check(|x| sum_to(x, &[3, 2]), &cube(&t), EPS, RTOL, ATOL).expect("3-d to 2-d");
}

// -- the two are inverses ---------------------------------------------

/// `sum_to(broadcast_to(x, big), x.shape)` scales `x` by the number of
/// copies, and the gradient counts them the same way. Getting either
/// direction wrong survives every shape check and only shows up here.
#[test]
fn broadcast_to_then_sum_to_round_trips() {
    let t = Tape::new();
    for (small, big) in [
        (vec![3_usize], vec![4_usize, 3]),
        (vec![2, 1], vec![2, 3]),
        (vec![], vec![2, 3]),
        (vec![1, 3, 1], vec![2, 3, 4]),
    ] {
        let size: usize = small.iter().product();
        let values: Vec<f64> = (0..size).map(|v| 1.0 + v as f64).collect();
        let x = t.var(
            ArrayD::from_shape_vec(IxDyn(&small), values).expect("shape matches"),
        );

        let wide = broadcast_to(&x, &big);
        let back = sum_to(&wide, &small);
        let copies = (big.iter().product::<usize>() / size) as f64;

        assert_eq!(
            back.data(),
            Some(data(&x).mapv(|v| v * copies)),
            "{small:?} -> {big:?} -> {small:?}"
        );

        // d(sum_to(broadcast_to(x)))/dx: the seed of ones is broadcast up
        // and summed back down, which counts the copies once.
        back.backward();
        assert_eq!(
            grad(&x),
            ArrayD::from_elem(IxDyn(&small), copies),
            "gradient of the round trip, {small:?} -> {big:?}"
        );
    }
}

/// The same round trip in the other order: summing down and broadcasting
/// back must land on the original shape with each entry repeated.
#[test]
fn sum_to_then_broadcast_to_round_trips() {
    let t = Tape::new();
    let x = matrix(&t);
    let y = broadcast_to(&sum_to(&x, &[1, 3]), &[2, 3]);
    assert_eq!(
        data(&y),
        arr2(&[[5.0, 7.0, 9.0], [5.0, 7.0, 9.0]]).into_dyn()
    );
    y.backward();
    assert_eq!(grad(&x), ArrayD::from_elem(IxDyn(&[2, 3]), 2.0));
}

/// `sum` is `sum_to` with the reduced axes dropped, so the two must agree
/// on both the value and the gradient.
#[test]
fn sum_and_sum_to_agree_where_they_overlap() {
    let t = Tape::new();
    let a = matrix(&t);
    let b = matrix(&t);
    let via_sum = sum(&a, 0, true);
    let via_sum_to = sum_to(&b, &[1, 3]);
    assert_eq!(via_sum.data(), via_sum_to.data());

    via_sum.backward();
    via_sum_to.backward();
    assert_eq!(grad(&a), grad(&b));
}

// -- higher-order ------------------------------------------------------

#[test]
fn broadcasting_gradients_stay_differentiable() {
    let t = Tape::new();
    // y = sum(x^3) -> dy/dx = 3x^2 -> d2y/dx2 = 6x.
    let x = t.var(arr1(&[1.0, 2.0, 3.0]).into_dyn());
    let y = sum_all(&pow(&x, 3.0));
    y.backward_with(false, true);

    let gx = x.grad().expect("first derivative");
    assert_eq!(data(&gx), arr1(&[3.0, 12.0, 27.0]).into_dyn());
    assert!(gx.creator().is_some(), "the gradient is a graph node");

    x.cleargrad();
    gx.backward();
    assert_eq!(grad(&x), arr1(&[6.0, 12.0, 18.0]).into_dyn());
}

/// A deterministic, non-symmetric batch: a constant one would hide a
/// transposed index and a symmetric one would hide a mirrored kernel.
fn batch(t: &Tape, n: usize, c: usize, h: usize, w: usize) -> Variable {
    let count = n * c * h * w;
    let values: Vec<f64> = (0..count)
        .map(|v| ((v as f64) * 0.37).sin() * 2.0 + (v as f64) * 0.01)
        .collect();
    t.var(
        ndarray::Array::from_shape_vec((n, c, h, w), values)
            .expect("the buffer matches the shape")
            .into_dyn(),
    )
}

// -- im2col / col2im ---------------------------------------------------

#[test]
fn im2col_forward_matches_the_array_helper() {
    let t = Tape::new();
    let x = batch(&t, 2, 3, 5, 5);
    let expected = im2col_array(&x.data().expect("data"), (3, 3), (2, 2), (1, 1), true);
    assert_eq!(im2col(&x, 3, 2, 1, true).data(), Some(expected));
}

#[test]
fn im2col_backward_is_col2im() {
    let t = Tape::new();
    let x = batch(&t, 1, 2, 4, 4);
    let col = im2col(&x, 2, 1, 0, true);
    let seed = col.full_like(1.0).expect("shape");
    sum_all(&(&col * &seed)).backward();

    let expected = col2im_array(
        &seed.data().expect("data"),
        &[1, 2, 4, 4],
        (2, 2),
        (1, 1),
        (0, 0),
        true,
    );
    assert_eq!(x.grad().and_then(|g| g.data()), Some(expected));
}

#[test]
fn im2col_gradient_matches_numerical_diff() {
    let t = Tape::new();
    gradient_check(
        |x| sum_all(&(&im2col(x, 2, 1, 1, true) * 1.5)),
        &batch(&t, 1, 2, 3, 3),
        EPS,
        RTOL,
        ATOL,
    )
    .expect("im2col");
}

#[test]
fn col2im_gradient_matches_numerical_diff() {
    let t = Tape::new();
    // A col-shaped input for a 1x2x3x3 image with a 2x2 kernel, stride 1.
    gradient_check(
        |col| sum_all(&(&col2im(col, &[1, 2, 3, 3], 2, 1, 0, true) * 0.75)),
        &t.var(
            ndarray::Array::from_shape_fn((4, 8), |(r, c)| {
                f64::from(u32::try_from(r * 8 + c).expect("small")) * 0.1
            })
            .into_dyn(),
        ),
        EPS,
        RTOL,
        ATOL,
    )
    .expect("col2im");
}

#[test]
fn col2im_undoes_im2col_on_non_overlapping_patches() {
    let t = Tape::new();
    let x = batch(&t, 2, 3, 6, 6);
    let col = im2col(&x, 2, 2, 0, true);
    let back = col2im(&col, &[2, 3, 6, 6], 2, 2, 0, true);
    assert_eq!(back.data(), x.data());
}

// -- conv2d ------------------------------------------------------------

#[test]
fn conv2d_forward_shapes_follow_the_output_size() {
    let t = Tape::new();
    let x = batch(&t, 2, 3, 7, 7);
    let w = batch(&t, 4, 3, 3, 3);
    assert_eq!(conv2d(&x, &w, None, 1, 0).shape(), Some(vec![2, 4, 5, 5]));
    assert_eq!(conv2d(&x, &w, None, 1, 1).shape(), Some(vec![2, 4, 7, 7]));
    assert_eq!(conv2d(&x, &w, None, 2, 1).shape(), Some(vec![2, 4, 4, 4]));
}

#[test]
fn conv2d_with_a_one_by_one_kernel_is_a_channel_mix() {
    let t = Tape::new();
    let x = batch(&t, 1, 2, 3, 3);
    let w = t.var(
        ndarray::Array::from_shape_vec((1, 2, 1, 1), vec![2.0, -1.0])
            .expect("1x2x1x1")
            .into_dyn(),
    );
    let y = conv2d(&x, &w, None, 1, 0);
    let data = y.data().expect("data");
    let x_data = x.data().expect("data");
    for i in 0..3 {
        for j in 0..3 {
            let expected = 2.0f64.mul_add(x_data[[0, 0, i, j]], -x_data[[0, 1, i, j]]);
            assert!((data[[0, 0, i, j]] - expected).abs() < 1e-12);
        }
    }
}

#[test]
fn conv2d_bias_is_added_once_per_output_position() {
    let t = Tape::new();
    let x = t.var(ArrayD::zeros(IxDyn(&[2, 3, 4, 4])));
    let w = t.var(ArrayD::zeros(IxDyn(&[2, 3, 3, 3])));
    let b = t.var(arr1(&[1.0, -2.0]).into_dyn());
    let y = conv2d(&x, &w, Some(&b), 1, 0);
    let data = y.data().expect("data");
    assert!(
        data.index_axis(ndarray::Axis(1), 0)
            .iter()
            .all(|v| *v == 1.0)
    );
    assert!(
        data.index_axis(ndarray::Axis(1), 1)
            .iter()
            .all(|v| *v == -2.0)
    );

    // ... so its gradient counts them: 2 images x 2x2 positions.
    sum_all(&y).backward();
    assert_eq!(
        b.grad().and_then(|g| g.data()),
        Some(arr1(&[8.0, 8.0]).into_dyn())
    );
}

#[test]
fn conv2d_gradients_match_numerical_diff() {
    let t = Tape::new();
    for (stride, pad) in [(1, 0), (1, 1), (2, 1)] {
        let w = batch(&t, 2, 2, 3, 3);
        let b = t.var(arr1(&[0.5, -0.25]).into_dyn());
        let x = batch(&t, 1, 2, 5, 5);

        gradient_check(
            |x| sum_all(&conv2d(x, &w, Some(&b), stride, pad)),
            &x,
            EPS,
            RTOL,
            ATOL,
        )
        .unwrap_or_else(|e| panic!("conv2d gx, stride {stride} pad {pad}: {e:?}"));

        gradient_check(
            |w| sum_all(&conv2d(&x, w, Some(&b), stride, pad)),
            &w,
            EPS,
            RTOL,
            ATOL,
        )
        .unwrap_or_else(|e| panic!("conv2d gW, stride {stride} pad {pad}: {e:?}"));

        gradient_check(
            |b| sum_all(&conv2d(&x, &w, Some(b), stride, pad)),
            &b,
            EPS,
            RTOL,
            ATOL,
        )
        .unwrap_or_else(|e| panic!("conv2d gb, stride {stride} pad {pad}: {e:?}"));
    }
}

/// A weighted seed rather than a plain sum: with all-ones gradients a
/// transposed `gW` would still add up to the right total.
#[test]
fn conv2d_gradients_match_numerical_diff_under_a_weighted_seed() {
    let t = Tape::new();
    let w = batch(&t, 3, 2, 2, 2);
    let weights = batch(&t, 1, 3, 3, 3);
    gradient_check(
        |x| sum_all(&(&conv2d(x, &w, None, 1, 0) * &weights)),
        &batch(&t, 1, 2, 4, 4),
        EPS,
        RTOL,
        ATOL,
    )
    .expect("conv2d under a weighted seed");
}

// -- deconv2d ----------------------------------------------------------

#[test]
fn deconv2d_is_the_adjoint_of_conv2d() {
    let t = Tape::new();
    // <conv2d(x, W), g> == <x, deconv2d(g, W)> whenever the geometry is
    // exactly invertible.
    let x = batch(&t, 2, 3, 6, 6);
    let w = batch(&t, 4, 3, 3, 3);
    let y = conv2d(&x, &w, None, 1, 0);
    let g = batch(&t, 2, 4, 4, 4);
    let back = deconv2d_with_outsize(&g, &w, None, 1, 0, (6, 6));

    let left: f64 = (&y.data().expect("y") * &g.data().expect("g")).sum();
    let right: f64 = (&x.data().expect("x") * &back.data().expect("back")).sum();
    assert!((left - right).abs() < 1e-9, "{left} vs {right}");
}

#[test]
fn deconv2d_infers_the_output_size() {
    let t = Tape::new();
    let x = batch(&t, 1, 3, 5, 5);
    let w = batch(&t, 3, 2, 3, 3);
    assert_eq!(deconv2d(&x, &w, None, 1, 0).shape(), Some(vec![1, 2, 7, 7]));
    assert_eq!(deconv2d(&x, &w, None, 2, 1).shape(), Some(vec![1, 2, 9, 9]));
}

#[test]
fn deconv2d_gradients_match_numerical_diff() {
    let t = Tape::new();
    let w = batch(&t, 2, 3, 3, 3);
    let b = t.var(arr1(&[0.5, -0.25, 1.0]).into_dyn());
    let x = batch(&t, 1, 2, 4, 4);

    gradient_check(
        |x| sum_all(&deconv2d(x, &w, Some(&b), 1, 1)),
        &x,
        EPS,
        RTOL,
        ATOL,
    )
    .expect("deconv2d gx");
    gradient_check(
        |w| sum_all(&deconv2d(&x, w, Some(&b), 1, 1)),
        &w,
        EPS,
        RTOL,
        ATOL,
    )
    .expect("deconv2d gW");
    gradient_check(
        |b| sum_all(&deconv2d(&x, &w, Some(b), 1, 1)),
        &b,
        EPS,
        RTOL,
        ATOL,
    )
    .expect("deconv2d gb");
}

// -- second order ------------------------------------------------------

/// The backward chain closes: a convolution's gradient is itself
/// differentiable, which is what the whole `Variable`-arithmetic rule buys.
#[test]
fn conv2d_supports_a_second_derivative() {
    let t = Tape::new();
    let x = batch(&t, 1, 2, 4, 4);
    let w = batch(&t, 2, 2, 3, 3);
    let y = sum_all(&conv2d(&x, &w, None, 1, 0));
    y.backward_with(false, true);

    let gx = x.grad().expect("first derivative");
    x.cleargrad();
    w.cleargrad();
    sum_all(&gx).backward();

    // d/dW of sum(dy/dx) is a constant fold of ones, and it must exist at
    // all -- which it only does if `Conv2d::backward` built graph nodes.
    assert!(w.grad().is_some(), "the gradient flowed back through to W");
    assert_eq!(w.grad().and_then(|g| g.shape()), Some(vec![2, 2, 3, 3]));
}

// -- pooling -----------------------------------------------------------

#[test]
fn pooling_picks_the_window_maximum() {
    let t = Tape::new();
    let x = t.var(
        ndarray::Array::from_shape_vec((1, 1, 4, 4), (1..=16).map(f64::from).collect())
            .expect("4x4")
            .into_dyn(),
    );
    let y = pooling(&x, 2, 2, 0);
    assert_eq!(y.shape(), Some(vec![1, 1, 2, 2]));
    assert_eq!(
        y.data().expect("data").iter().copied().collect::<Vec<_>>(),
        vec![6.0, 8.0, 14.0, 16.0]
    );
}

#[test]
fn pooling_routes_the_gradient_to_the_winner_only() {
    let t = Tape::new();
    let x = t.var(
        ndarray::Array::from_shape_vec((1, 1, 2, 2), vec![1.0, 4.0, 3.0, 2.0])
            .expect("2x2")
            .into_dyn(),
    );
    pooling(&x, 2, 1, 0).backward();
    assert_eq!(
        x.grad().and_then(|g| g.data()),
        Some(
            ndarray::Array::from_shape_vec((1, 1, 2, 2), vec![0.0, 1.0, 0.0, 0.0])
                .expect("2x2")
                .into_dyn()
        )
    );
}

#[test]
fn pooling_breaks_ties_towards_the_first_index() {
    let t = Tape::new();
    let x = t.var(
        ndarray::Array::from_shape_vec((1, 1, 1, 2), vec![5.0, 5.0])
            .expect("1x2")
            .into_dyn(),
    );
    pooling(&x, (1, 2), 1, 0).backward();
    assert_eq!(
        x.grad().and_then(|g| g.data()),
        Some(
            ndarray::Array::from_shape_vec((1, 1, 1, 2), vec![1.0, 0.0])
                .expect("1x2")
                .into_dyn()
        )
    );
}

#[test]
fn pooling_ignores_the_padding_when_real_values_are_larger() {
    let t = Tape::new();
    let x = t.var(ArrayD::from_elem(IxDyn(&[1, 1, 2, 2]), -1.0));
    let y = pooling(&x, 3, 1, 1);
    assert_eq!(y.shape(), Some(vec![1, 1, 2, 2]));
    assert!(
        y.data().expect("data").iter().all(|v| *v == 0.0),
        "the zero padding is the maximum of every window"
    );
}

#[test]
fn pooling_gradients_match_numerical_diff() {
    let t = Tape::new();
    for (kernel, stride, pad) in [(2, 2, 0), (3, 1, 1), (2, 1, 0)] {
        // Distinct values only: a tie makes the finite difference
        // one-sided, and the analytic gradient is genuinely discontinuous
        // there.
        gradient_check(
            |x| sum_all(&pooling(x, kernel, stride, pad)),
            &batch(&t, 1, 2, 5, 5),
            EPS,
            RTOL,
            ATOL,
        )
        .unwrap_or_else(|e| panic!("pooling k{kernel} s{stride} p{pad}: {e:?}"));
    }
}

#[test]
fn pooling_gradient_survives_a_second_backward() {
    let t = Tape::new();
    let x = batch(&t, 1, 2, 4, 4);
    sum_all(&pooling(&x, 2, 2, 0)).backward_with(false, true);
    let gx = x.grad().expect("first derivative");
    x.cleargrad();
    sum_all(&gx).backward();
    assert!(
        x.grad().is_none(),
        "no graph path runs from a pooling gradient back to its input"
    );
}

#[test]
fn dropout_scales_what_it_keeps_while_training() {
    let t = Tape::new();
    let x = t.var(arr1(&[1.0, 2.0, 3.0, 4.0]).into_dyn());
    let draws = tensor(&arr1(&[0.1, 0.9, 0.75, 0.2]).into_dyn());
    let y = unary(&x, |g, v| dezero::functions::activation::dropout(g, v, Real(0.5), &draws));
    assert_eq!(data(&y), arr1(&[0.0, 4.0, 6.0, 0.0]).into_dyn());
}

#[test]
fn dropout_hands_anything_back_outside_training() {
    let t = Tape::new();
    let _guard = t.test_mode();
    let draws = tensor(&arr1(&[0.1]).into_dyn());
    for x in [t.empty(), t.scalar(3.0)] {
        let y = unary(&x, |g, v| dezero::functions::activation::dropout(g, v, Real(0.5), &draws));
        assert_eq!(y, x);
    }
}
