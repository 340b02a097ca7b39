#![allow(dead_code, unused_imports)]

use dezero::engine::builtin::Builtin;
use dezero::engine::config::ConfigGuard;
use dezero::engine::function::{apply1, Backprop, Op};
use dezero::engine::graph::{Function, Graph, Variable as Handle};
use dezero::engine::rule::Rule;
use dezero::functions::activation::{sigmoid_array, softmax_array, Sigmoid, Softmax};
use dezero::functions::basic_math::{map_array, Cos, Exp, Pow, Sin, Tanh};
use dezero::functions::loss::SoftmaxCrossEntropy;
use dezero::functions::reduce::Axes;
use dezero::scalar::Scalar;
use dezero::tensor::Tensor;
use dezero::utils::numerical::GradientCheckError;
use dezero::utils::random::Rng;
use dezero::utils::shape::normalize_axis;
use dezero::engine::parameter::Parameter;
use dezero::functions::activation::ReLU;
use dezero::layers::conv::Conv2dLayer as DzConv;
use dezero::layers::linear::{weight_scale, Linear as DzLinear};
use dezero::layers::rnn::{Lstm as DzLstm, Rnn as DzRnn};
use dezero::layers::save::{load_weights, save_weights, StoredArray, WeightsError};
use dezero::layers::{Layer, ParamTree};
use dezero::models::either::Either;
use dezero::models::mlp::{Mlp as DzMlp, Sequential as DzSequential};
use dezero::models::vgg::Vgg16;
use dezero::models::Model;
use std::cell::RefCell;
use ndarray::{arr0, arr1, arr2, arr3, ArrayD, IxDyn};
use std::fmt;
use std::ops;
use std::rc::Rc;

/// A floating-point number as the elements of arrays.
#[derive(Debug, Clone, Copy, PartialEq)]
struct Real(f64);

impl Scalar for Real {
    fn zero() -> Self {
        Real(0.0)
    }

    fn one() -> Self {
        Real(1.0)
    }

    fn from_count(n: usize) -> Self {
        Real(n as f64)
    }

    fn add(self, other: Self) -> Self {
        Real(self.0 + other.0)
    }

    fn sub(self, other: Self) -> Self {
        Real(self.0 - other.0)
    }

    fn mul(self, other: Self) -> Self {
        Real(self.0 * other.0)
    }

    fn div(self, other: Self) -> Self {
        Real(self.0 / other.0)
    }

    fn neg(self) -> Self {
        Real(-self.0)
    }

    fn gt(self, other: Self) -> bool {
        self.0 > other.0
    }
}

type Values = Tensor<Real>;

fn tensor(a: &ArrayD<f64>) -> Values {
    Tensor::from_shape_vec(a.shape().to_vec(), a.iter().map(|&v| Real(v)).collect())
        .expect("as many elements as the shape says")
}

fn array_of(t: &Values) -> ArrayD<f64> {
    ArrayD::from_shape_vec(IxDyn(t.shape()), t.data().iter().map(|v| v.0).collect())
        .expect("as many elements as the shape says")
}

/// The operations of the framework, and those that need floating-point functions.
enum Ext {
    Basic(Builtin),
    Exp,
    Sin,
    Cos,
    Tanh,
    Pow(f64),
    Sigmoid,
    Softmax(isize),
    CrossEntropy(Vec<usize>),
}

impl Op<Real> for Ext {
    type Rule = ();

    fn embedding(_rule: Rule) {}

    fn from_builtin(op: Builtin) -> Self {
        Ext::Basic(op)
    }

    fn op_name(&self) -> String {
        match self {
            Ext::Basic(op) => op.name(),
            Ext::Exp => "Exp".to_owned(),
            Ext::Sin => "Sin".to_owned(),
            Ext::Cos => "Cos".to_owned(),
            Ext::Tanh => "Tanh".to_owned(),
            Ext::Pow(_) => "Pow".to_owned(),
            Ext::Sigmoid => "Sigmoid".to_owned(),
            Ext::Softmax(_) => "Softmax".to_owned(),
            Ext::CrossEntropy(_) => "SoftmaxCrossEntropy".to_owned(),
        }
    }

    fn forward(&mut self, xs: &Vec<Values>) -> Vec<Values> {
        let exp = |v: Real| Real(v.0.exp());
        let ln = |v: Real| Real(v.0.ln());
        let lowest = Real(f64::NEG_INFINITY);
        match self {
            Ext::Basic(op) => vec![op.evaluate(xs)],
            Ext::Exp => vec![map_array(&xs[0], &exp)],
            Ext::Sin => vec![map_array(&xs[0], &|v: Real| Real(v.0.sin()))],
            Ext::Cos => vec![map_array(&xs[0], &|v: Real| Real(v.0.cos()))],
            Ext::Tanh => vec![map_array(&xs[0], &|v: Real| Real(v.0.tanh()))],
            Ext::Pow(c) => {
                let c = *c;
                vec![map_array(&xs[0], &|v: Real| Real(v.0.powf(c)))]
            }
            Ext::Sigmoid => vec![sigmoid_array(&xs[0], &|v: Real| Real(v.0.tanh()))],
            Ext::Softmax(axis) => {
                let axis = normalize_axis(*axis, xs[0].ndim());
                vec![softmax_array(&xs[0], axis, lowest, &exp)]
            }
            Ext::CrossEntropy(labels) => {
                vec![SoftmaxCrossEntropy::new(labels).forward(&xs[0], lowest, &exp, &ln)]
            }
        }
    }
}

impl Backprop<Real> for Ext {
    fn backward(
        &self,
        g: &mut Graph<Real, Ext>,
        inputs: &Vec<Handle>,
        outputs: &Vec<Handle>,
        gys: &Vec<Handle>,
    ) -> Vec<Handle> {
        let gx = match self {
            Ext::Basic(op) => return op.differentiate(g, inputs, &gys[0]),
            Ext::Exp => Exp.backward(g, &outputs[0], &gys[0]),
            Ext::Sin => {
                let cos_x = apply1(g, Ext::Cos, &[inputs[0]]);
                Sin.backward(g, &cos_x, &gys[0])
            }
            Ext::Cos => {
                let sin_x = apply1(g, Ext::Sin, &[inputs[0]]);
                Cos.backward(g, &sin_x, &gys[0])
            }
            Ext::Tanh => Tanh.backward(g, &outputs[0], &gys[0]),
            Ext::Pow(c) => {
                let lower = apply1(g, Ext::Pow(c - 1.0), &[inputs[0]]);
                Pow::new(Real(*c)).backward(g, &lower, &gys[0])
            }
            Ext::Sigmoid => Sigmoid.backward(g, &outputs[0], &gys[0]),
            Ext::Softmax(axis) => Softmax::new(*axis).backward(g, &outputs[0], &gys[0]),
            Ext::CrossEntropy(labels) => {
                let p = apply1(g, Ext::Softmax(1), &[inputs[0]]);
                SoftmaxCrossEntropy::new(labels).backward(g, &p, &gys[0])
            }
        };
        vec![gx]
    }
}

type Net = Graph<Real, Ext>;

/// A graph that several handles share.
#[derive(Clone)]
struct Tape {
    net: Rc<RefCell<Net>>,
    rng: Rc<RefCell<Rng>>,
}

/// A variable together with the graph it belongs to.
#[derive(Clone)]
struct Variable {
    tape: Tape,
    v: Handle,
}

/// Puts a flag back when it goes out of scope.
struct Guard {
    tape: Tape,
    inner: Option<ConfigGuard>,
}

impl Drop for Guard {
    fn drop(&mut self) {
        if let Some(guard) = self.inner.take() {
            self.tape.with(|g| guard.restore(&mut g.config));
        }
    }
}

impl PartialEq for Variable {
    fn eq(&self, other: &Self) -> bool {
        self.v == other.v
    }
}

impl fmt::Debug for Variable {
    fn fmt(&self, f: &mut fmt::Formatter<'_>) -> fmt::Result {
        fmt::Debug::fmt(&self.v, f)
    }
}

impl Tape {
    fn new() -> Self {
        let rng = Rc::new(RefCell::new(Rng::new(42)));
        Tape { net: Rc::new(RefCell::new(Graph::new())), rng }
    }

    fn with<R>(&self, f: impl FnOnce(&mut Net) -> R) -> R {
        f(&mut self.net.borrow_mut())
    }

    /// Takes the graph out of its cell.
    fn take(&self) -> Net {
        std::mem::replace(&mut *self.net.borrow_mut(), Graph::new())
    }

    /// Puts a graph into the cell.
    fn put(&self, g: Net) {
        *self.net.borrow_mut() = g;
    }

    /// Runs `f` with the given graph in the cell, and takes it out again.
    fn through(&self, g: Net, v: &Handle, f: &dyn Fn(&Variable) -> Variable) -> (Net, Handle) {
        self.put(g);
        let y = self.handle(&f(&self.at(*v)));
        (self.take(), y)
    }

    fn at(&self, v: Handle) -> Variable {
        Variable { tape: self.clone(), v }
    }

    fn var(&self, data: ArrayD<f64>) -> Variable {
        let v = self.with(|g| Handle::new(g, tensor(&data)));
        self.at(v)
    }

    fn scalar(&self, value: f64) -> Variable {
        let v = self.with(|g| Handle::from_scalar(g, Real(value)));
        self.at(v)
    }

    fn empty(&self) -> Variable {
        let v = self.with(|g| Handle::empty(g));
        self.at(v)
    }

    fn no_grad(&self) -> Guard {
        let inner = self.with(|g| dezero::engine::config::no_grad(&mut g.config));
        Guard { tape: self.clone(), inner: Some(inner) }
    }

    fn test_mode(&self) -> Guard {
        let inner = self.with(|g| dezero::engine::config::test_mode(&mut g.config));
        Guard { tape: self.clone(), inner: Some(inner) }
    }

    /// The handle in this graph of what a variable stands for.
    fn handle(&self, x: &Variable) -> Handle {
        if Rc::ptr_eq(&self.net, &x.tape.net) {
            x.v
        } else {
            let data = tensor(&x.data().expect("data"));
            self.with(|g| Handle::new(g, data))
        }
    }

    fn creator_inputs(&self, f: &Function) -> Vec<Variable> {
        self.with(|g| f.inputs(g)).into_iter().map(|v| self.at(v)).collect()
    }

    fn creator_outputs(&self, f: &Function) -> Vec<Option<Variable>> {
        self.with(|g| f.outputs(g)).into_iter().map(|v| v.map(|v| self.at(v))).collect()
    }
}

impl Variable {
    fn id(&self) -> usize {
        self.v.id()
    }

    fn data(&self) -> Option<ArrayD<f64>> {
        self.tape.with(|g| self.v.data(g).map(array_of))
    }

    fn set_data(&self, data: ArrayD<f64>) {
        self.tape.with(|g| self.v.set_data(g, tensor(&data)));
    }

    fn grad(&self) -> Option<Variable> {
        self.tape.with(|g| self.v.grad(g)).map(|v| self.tape.at(v))
    }

    fn set_grad(&self, grad: Option<Variable>) {
        self.tape.with(|g| self.v.set_grad(g, grad.map(|w| w.v)));
    }

    fn cleargrad(&self) {
        self.tape.with(|g| self.v.cleargrad(g));
    }

    fn creator(&self) -> Option<Function> {
        self.tape.with(|g| self.v.creator(g))
    }

    fn generation(&self) -> u32 {
        self.tape.with(|g| self.v.generation(g))
    }

    fn name(&self) -> Option<String> {
        self.tape.with(|g| self.v.name(g).cloned())
    }

    fn set_name(&self, name: Option<String>) {
        self.tape.with(|g| self.v.set_name(g, name));
    }

    fn shape(&self) -> Option<Vec<usize>> {
        self.tape.with(|g| self.v.shape(g))
    }

    fn ndim(&self) -> Option<usize> {
        self.tape.with(|g| self.v.ndim(g))
    }

    fn size(&self) -> Option<usize> {
        self.tape.with(|g| self.v.size(g))
    }

    fn len(&self) -> Option<usize> {
        self.tape.with(|g| self.v.len(g))
    }

    fn full_like(&self, value: f64) -> Option<Variable> {
        self.tape.with(|g| self.v.full_like(g, Real(value))).map(|v| self.tape.at(v))
    }

    fn backward(&self) {
        self.tape.with(|g| self.v.backward(g));
    }

    fn backward_with(&self, retain_grad: bool, create_graph: bool) {
        self.tape.with(|g| self.v.backward_with(g, retain_grad, create_graph));
    }

    fn unchain(&self) {
        self.tape.with(|g| self.v.unchain(g));
    }

    fn unchain_backward(&self) {
        self.tape.with(|g| self.v.unchain_backward(g));
    }

    /// Gives up the last handle to the variable.
    fn release(self) {
        self.tape.with(|g| self.v.release(g));
    }

    fn ext(&self, op: Ext) -> Variable {
        let v = self.tape.with(|g| apply1(g, op, &[self.v]));
        self.tape.at(v)
    }
}

fn unary(x: &Variable, f: impl FnOnce(&mut Net, &Handle) -> Handle) -> Variable {
    let v = x.tape.with(|g| f(g, &x.v));
    x.tape.at(v)
}

fn binary(
    a: &Variable,
    b: &Variable,
    f: impl FnOnce(&mut Net, &Handle, &Handle) -> Handle,
) -> Variable {
    let tape = &a.tape;
    let (u, v) = (tape.handle(a), tape.handle(b));
    let r = tape.with(|g| f(g, &u, &v));
    tape.at(r)
}

fn ternary(
    a: &Variable,
    b: &Variable,
    c: Option<&Variable>,
    f: impl FnOnce(&mut Net, &Handle, &Handle, Option<&Handle>) -> Handle,
) -> Variable {
    let tape = &a.tape;
    let (u, v, w) = (tape.handle(a), tape.handle(b), c.map(|c| tape.handle(c)));
    let r = tape.with(|g| f(g, &u, &v, w.as_ref()));
    tape.at(r)
}

fn add(a: &Variable, b: &Variable) -> Variable {
    binary(a, b, |g, u, v| dezero::engine::ops::add(g, u, v))
}

fn sub(a: &Variable, b: &Variable) -> Variable {
    binary(a, b, |g, u, v| dezero::engine::ops::sub(g, u, v))
}

fn mul(a: &Variable, b: &Variable) -> Variable {
    binary(a, b, |g, u, v| dezero::engine::ops::mul(g, u, v))
}

fn div(a: &Variable, b: &Variable) -> Variable {
    binary(a, b, |g, u, v| dezero::engine::ops::div(g, u, v))
}

impl ops::Mul<&Variable> for &Variable {
    type Output = Variable;

    fn mul(self, other: &Variable) -> Variable {
        mul(self, other)
    }
}

impl ops::Mul<f64> for &Variable {
    type Output = Variable;

    fn mul(self, other: f64) -> Variable {
        mul(self, &self.tape.scalar(other))
    }
}

impl ops::Mul<Variable> for f64 {
    type Output = Variable;

    fn mul(self, other: Variable) -> Variable {
        mul(&other.tape.scalar(self), &other)
    }
}

impl ops::Add<&Variable> for &Variable {
    type Output = Variable;

    fn add(self, other: &Variable) -> Variable {
        add(self, other)
    }
}

impl ops::Add<Variable> for Variable {
    type Output = Variable;

    fn add(self, other: Variable) -> Variable {
        add(&self, &other)
    }
}

impl ops::Sub<&Variable> for &Variable {
    type Output = Variable;

    fn sub(self, other: &Variable) -> Variable {
        sub(self, other)
    }
}

fn square(x: &Variable) -> Variable {
    unary(x, |g, v| dezero::functions::basic_math::square(g, v))
}

fn exp(x: &Variable) -> Variable {
    x.ext(Ext::Exp)
}

fn sin(x: &Variable) -> Variable {
    x.ext(Ext::Sin)
}

fn cos(x: &Variable) -> Variable {
    x.ext(Ext::Cos)
}

fn tanh(x: &Variable) -> Variable {
    x.ext(Ext::Tanh)
}

fn pow(x: &Variable, c: f64) -> Variable {
    x.ext(Ext::Pow(c))
}

fn relu(x: &Variable) -> Variable {
    unary(x, |g, v| dezero::functions::activation::relu(g, v))
}

fn sigmoid(x: &Variable) -> Variable {
    x.ext(Ext::Sigmoid)
}

fn softmax(x: &Variable) -> Variable {
    x.ext(Ext::Softmax(1))
}

fn softmax_axis(x: &Variable, axis: isize) -> Variable {
    x.ext(Ext::Softmax(axis))
}

fn softmax_cross_entropy(x: &Variable, labels: &[usize]) -> Variable {
    x.ext(Ext::CrossEntropy(labels.to_vec()))
}

fn mean_squared_error(a: &Variable, b: &Variable) -> Variable {
    binary(a, b, |g, u, v| dezero::functions::loss::mean_squared_error(g, u, v))
}

fn reshape(x: &Variable, shape: &[usize]) -> Variable {
    unary(x, |g, v| dezero::functions::shape::reshape(g, v, shape))
}

fn transpose(x: &Variable) -> Variable {
    unary(x, |g, v| dezero::functions::shape::transpose(g, v))
}

fn sum_all(x: &Variable) -> Variable {
    unary(x, |g, v| dezero::functions::reduce::sum_all(g, v))
}

fn sum(x: &Variable, axis: impl Into<Axes>, keepdims: bool) -> Variable {
    unary(x, |g, v| dezero::functions::reduce::sum(g, v, axis, keepdims))
}

fn sum_to(x: &Variable, shape: &[usize]) -> Variable {
    unary(x, |g, v| dezero::functions::reduce::sum_to(g, v, shape))
}

fn broadcast_to(x: &Variable, shape: &[usize]) -> Variable {
    unary(x, |g, v| dezero::functions::reduce::broadcast_to(g, v, shape))
}

fn matmul(x: &Variable, w: &Variable) -> Variable {
    binary(x, w, |g, u, v| dezero::functions::matmul::matmul(g, u, v))
}

fn linear(x: &Variable, w: &Variable, b: Option<&Variable>) -> Variable {
    ternary(x, w, b, |g, u, v, b| dezero::functions::matmul::linear(g, u, v, b))
}

const EPS: f64 = 1e-4;
const RTOL: f64 = 1e-4;
const ATOL: f64 = 1e-5;

fn data(v: &Variable) -> ArrayD<f64> {
    v.data().expect("variable holds data")
}

fn grad(v: &Variable) -> ArrayD<f64> {
    data(&v.grad().expect("variable has a gradient"))
}

/// Checks backpropagation through `f` against central differences at `x`.
fn gradient_check<F: Fn(&Variable) -> Variable>(
    f: F,
    x: &Variable,
    eps: f64,
    rtol: f64,
    atol: f64,
) -> Result<(), GradientCheckError<Real>> {
    let (g, verdict) = dezero::utils::numerical::gradient_check(
        x.tape.take(),
        &|g: Net, v: &Handle| x.tape.through(g, v, &f),
        &x.v,
        Real(eps),
        Real(rtol),
        Real(atol),
    );
    x.tape.put(g);
    verdict
}

// -- layers with their graph ---------------------------------------------------

/// What is sized by the number of features it is first given.
trait Sizing {
    /// Fills in the weights that are wanting, and says how many features come out.
    fn settle(&mut self, t: &Tape, in_size: usize) -> usize;
}

impl Tape {
    fn normal(&self, shape: &[usize]) -> Values {
        self.rng.borrow_mut().randn(shape, &|a: u64, b: u64| {
            let unit = |n: u64| n as f64 / 9_007_199_254_740_992.0;
            let radius = (-2.0 * (1.0 - unit(a)).ln()).sqrt();
            Real(radius * (std::f64::consts::TAU * unit(b)).cos())
        })
    }

    fn seed(&self, seed: u64) {
        dezero::utils::random::seed(&mut self.rng.borrow_mut(), seed);
    }
}

fn fan_in(n: usize) -> Real {
    weight_scale(n, &|x: Real| Real(x.0.sqrt()))
}

impl Sizing for DzLinear {
    fn settle(&mut self, t: &Tape, in_size: usize) -> usize {
        if let Some(n) = t.with(|g| self.wanted(g, in_size)) {
            let draws = t.normal(&[n, self.out_size()]);
            t.with(|g| self.init_weight(g, n, &draws, fan_in(n)));
        }
        self.out_size()
    }
}

impl Sizing for DzConv {
    fn settle(&mut self, t: &Tape, in_channels: usize) -> usize {
        if let Some(n) = t.with(|g| self.wanted(g, in_channels)) {
            let (kh, kw) = self.kernel;
            let draws = t.normal(&[self.out_channels(), n, kh, kw]);
            let scale = fan_in(self.fan_in(n));
            t.with(|g| self.init_weight(g, n, &draws, scale));
        }
        self.out_channels()
    }
}

impl Sizing for DzRnn<Maker> {
    fn settle(&mut self, t: &Tape, in_size: usize) -> usize {
        let hidden = self.x2h.settle(t, in_size);
        if self.state().is_some() {
            self.h2h.settle(t, hidden);
        }
        hidden
    }
}

impl Sizing for DzLstm<Maker, Maker> {
    fn settle(&mut self, t: &Tape, in_size: usize) -> usize {
        self.x2f.settle(t, in_size);
        self.x2i.settle(t, in_size);
        self.x2o.settle(t, in_size);
        let hidden = self.x2u.settle(t, in_size);
        if self.state().is_some() {
            self.h2f.settle(t, hidden);
            self.h2i.settle(t, hidden);
            self.h2o.settle(t, hidden);
            self.h2u.settle(t, hidden);
        }
        hidden
    }
}

impl<A> Sizing for DzMlp<A> {
    fn settle(&mut self, t: &Tape, in_size: usize) -> usize {
        self.layers.iter_mut().fold(in_size, |size, layer| layer.settle(t, size))
    }
}

impl<L: Sizing> Sizing for DzSequential<L> {
    fn settle(&mut self, t: &Tape, in_size: usize) -> usize {
        self.layers.iter_mut().fold(in_size, |size, layer| layer.settle(t, size))
    }
}

impl<L: Sizing, R: Sizing> Sizing for Either<L, R> {
    fn settle(&mut self, t: &Tape, in_size: usize) -> usize {
        match self {
            Either::Left(l) => l.settle(t, in_size),
            Either::Right(r) => r.settle(t, in_size),
        }
    }
}

/// Makes one operation.
type Maker = fn() -> Ext;

/// A layer together with the graph that its parameters belong to.
struct Held<M> {
    tape: Tape,
    inner: RefCell<M>,
}

impl<M: Layer> Held<M> {
    fn around(tape: &Tape, inner: M) -> Self {
        Held { tape: tape.clone(), inner: RefCell::new(inner) }
    }

    fn listed(&self, ps: Vec<Parameter>) -> Vec<Variable> {
        ps.into_iter().map(|p| self.tape.at(*p.as_variable())).collect()
    }

    fn params(&self) -> Vec<Variable> {
        self.listed(self.inner.borrow().params())
    }

    fn own_params(&self) -> Vec<Variable> {
        self.listed(self.inner.borrow().own_params())
    }

    fn sublayers(&self) -> Vec<ParamTree> {
        self.inner.borrow().sublayers()
    }

    fn cleargrads(&self) {
        self.tape.with(|g| self.inner.borrow().cleargrads(g));
    }

    fn named(&self) -> Vec<(String, Parameter)> {
        self.tape.with(|g| self.inner.borrow().named_params(g))
    }

    fn saved(&self) -> Vec<(String, Values)> {
        let named = self.named();
        self.tape.with(|g| save_weights(g, &named))
    }

    fn load(&self, file: &[(String, StoredArray<Real>)]) -> Result<(), WeightsError> {
        let named = self.named();
        self.tape.with(|g| load_weights(g, &named, file))
    }
}

impl<M: Model<Real, Ext> + Sizing> Held<M> {
    fn forward(&self, x: &Variable) -> Variable {
        let features = x.shape().expect("data")[1];
        let mut inner = self.inner.borrow_mut();
        inner.settle(&self.tape, features);
        let v = self.tape.with(|g| inner.forward(g, &x.v));
        self.tape.at(v)
    }
}

type Linear = Held<DzLinear>;
type Conv2dLayer = Held<DzConv>;
type Rnn = Held<DzRnn<Maker>>;
type Lstm = Held<DzLstm<Maker, Maker>>;
type Mlp = Held<DzMlp<Maker>>;

fn make_sigmoid() -> Ext {
    Ext::Sigmoid
}

fn make_tanh() -> Ext {
    Ext::Tanh
}

fn make_relu() -> Ext {
    Ext::Basic(Builtin::ReLU(ReLU))
}

impl Held<DzLinear> {
    fn new(t: &Tape, out_size: usize) -> Self {
        Held::around(t, t.with(|g| DzLinear::new(g, out_size)))
    }

    fn with_in_size(t: &Tape, in_size: usize, out_size: usize) -> Self {
        let draws = t.normal(&[in_size, out_size]);
        let scale = fan_in(in_size);
        let inner = t.with(|g| DzLinear::with_in_size(g, in_size, out_size, &draws, scale));
        Held::around(t, inner)
    }

    fn without_bias(self) -> Self {
        Held { tape: self.tape, inner: RefCell::new(self.inner.into_inner().without_bias()) }
    }

    fn weight(&self) -> Variable {
        self.tape.at(*self.inner.borrow().weight().as_variable())
    }

    fn bias(&self) -> Option<Variable> {
        self.inner.borrow().bias().map(|b| self.tape.at(*b.as_variable()))
    }

    fn in_size(&self) -> Option<usize> {
        self.inner.borrow().in_size()
    }

    fn out_size(&self) -> usize {
        self.inner.borrow().out_size()
    }
}

impl Held<DzConv> {
    fn new(t: &Tape, out_channels: usize, kernel: usize, stride: usize, pad: usize) -> Self {
        Held::around(t, t.with(|g| DzConv::new(g, out_channels, kernel, stride, pad)))
    }

    fn with_in_channels(
        t: &Tape,
        in_channels: usize,
        out_channels: usize,
        kernel: usize,
        stride: usize,
        pad: usize,
    ) -> Self {
        let draws = t.normal(&[out_channels, in_channels, kernel, kernel]);
        let scale = fan_in(in_channels * kernel * kernel);
        let inner = t.with(|g| {
            DzConv::with_in_channels(
                g,
                in_channels,
                out_channels,
                kernel,
                stride,
                pad,
                &draws,
                scale,
            )
        });
        Held::around(t, inner)
    }

    fn without_bias(self) -> Self {
        Held { tape: self.tape, inner: RefCell::new(self.inner.into_inner().without_bias()) }
    }

    fn weight(&self) -> Variable {
        self.tape.at(*self.inner.borrow().weight().as_variable())
    }

    fn bias(&self) -> Option<Variable> {
        self.inner.borrow().bias().map(|b| self.tape.at(*b.as_variable()))
    }

    fn in_channels(&self) -> Option<usize> {
        self.inner.borrow().in_channels()
    }
}

impl Held<DzRnn<Maker>> {
    fn new(t: &Tape, hidden_size: usize) -> Self {
        let tanh: Maker = make_tanh;
        Held::around(t, t.with(|g| DzRnn::new(g, hidden_size, tanh)))
    }

    fn with_in_size(t: &Tape, in_size: usize, hidden_size: usize) -> Self {
        let tanh: Maker = make_tanh;
        let draws = [t.normal(&[in_size, hidden_size]), t.normal(&[hidden_size, hidden_size])];
        let scales = [fan_in(in_size), fan_in(hidden_size)];
        let inner =
            t.with(|g| DzRnn::with_in_size(g, in_size, hidden_size, &draws, &scales, tanh));
        Held::around(t, inner)
    }

    fn state(&self) -> Option<Variable> {
        self.inner.borrow().state().map(|h| self.tape.at(h))
    }

    fn reset_state(&self) {
        self.inner.borrow_mut().reset_state();
    }

    fn x2h(&self) -> Linear {
        Held::around(&self.tape, *self.inner.borrow().x2h())
    }

    fn h2h(&self) -> Linear {
        Held::around(&self.tape, *self.inner.borrow().h2h())
    }
}

impl Held<DzLstm<Maker, Maker>> {
    fn with_in_size(t: &Tape, in_size: usize, hidden_size: usize) -> Self {
        let (sigmoid, tanh): (Maker, Maker) = (make_sigmoid, make_tanh);
        let sizes: Vec<usize> = (0..8).map(|k| if k < 4 { in_size } else { hidden_size }).collect();
        let draws: Vec<Values> = sizes.iter().map(|&n| t.normal(&[n, hidden_size])).collect();
        let scales: Vec<Real> = sizes.iter().map(|&n| fan_in(n)).collect();
        let inner = t.with(|g| {
            DzLstm::with_in_size(g, in_size, hidden_size, &draws, &scales, sigmoid, tanh)
        });
        Held::around(t, inner)
    }

    fn state(&self) -> Option<Variable> {
        self.inner.borrow().state().map(|h| self.tape.at(h))
    }

    fn cell_state(&self) -> Option<Variable> {
        self.inner.borrow().cell_state().map(|c| self.tape.at(c))
    }

    fn reset_state(&self) {
        self.inner.borrow_mut().reset_state();
    }

    fn input_gates(&self) -> Vec<Linear> {
        let inner = self.inner.borrow();
        inner.input_gates().iter().map(|l| Held::around(&self.tape, **l)).collect()
    }

    fn recurrent_gates(&self) -> Vec<Linear> {
        let inner = self.inner.borrow();
        inner.recurrent_gates().iter().map(|l| Held::around(&self.tape, **l)).collect()
    }
}

impl Held<DzMlp<Maker>> {
    fn new(t: &Tape, sizes: &[usize]) -> Self {
        Self::with_activation(t, sizes, make_sigmoid)
    }

    fn with_activation(t: &Tape, sizes: &[usize], activation: Maker) -> Self {
        Held::around(t, t.with(|g| DzMlp::with_activation(g, sizes, activation)))
    }

    fn layers(&self) -> Vec<Linear> {
        let inner = self.inner.borrow();
        inner.layers().iter().map(|l| Held::around(&self.tape, *l)).collect()
    }
}

fn batch(t: &Tape) -> Variable {
    t.var(arr2(&[[1.0, 2.0, 3.0], [4.0, 5.0, 6.0]]).into_dyn())
}

// -- construction ------------------------------------------------------

#[test]
fn the_eager_path_shapes_everything_up_front() {
    let t = Tape::new();
    let layer = Linear::with_in_size(&t, 3, 4);
    assert_eq!(layer.in_size(), Some(3));
    assert_eq!(layer.out_size(), 4);
    assert_eq!(layer.weight().shape(), Some(vec![3, 4]));
    assert_eq!(
        layer.bias().and_then(|b| b.shape()),
        Some(vec![4]),
        "the bias only ever depended on out_size"
    );
    assert!(
        layer
            .bias()
            .and_then(|b| b.data())
            .is_some_and(|d| d.iter().all(|v| *v == 0.0)),
        "the bias starts at zero"
    );
}

#[test]
fn the_lazy_path_defers_only_the_weight() {
    let t = Tape::new();
    let layer = Linear::new(&t, 4);
    assert_eq!(layer.in_size(), None);
    assert!(layer.weight().data().is_none());
    assert_eq!(layer.bias().and_then(|b| b.shape()), Some(vec![4]));

    layer.forward(&batch(&t));
    assert_eq!(layer.in_size(), Some(3));
    assert_eq!(layer.weight().shape(), Some(vec![3, 4]));
}

/// The identity that makes lazy initialisation safe: the parameter object
/// never changes, only its contents. Anything holding the parameter -- an
/// optimizer, say -- keeps working across the transition.
#[test]
fn lazy_initialisation_preserves_parameter_identity() {
    let t = Tape::new();
    let layer = Linear::new(&t, 2);
    let registered = layer.params();
    let weight_id = layer.weight().id();

    layer.forward(&batch(&t));

    assert_eq!(layer.weight().id(), weight_id);
    assert_eq!(registered[0].id(), weight_id);
    assert!(
        registered[0].data().is_some(),
        "the handle taken before initialisation sees the weights arrive"
    );
}

#[test]
fn the_weight_is_initialised_only_once() {
    let t = Tape::new();
    let layer = Linear::new(&t, 2);
    layer.forward(&batch(&t));
    let first = layer.weight().data();
    layer.forward(&batch(&t));
    assert_eq!(layer.weight().data(), first, "the second pass reuses W");
}

#[test]
fn without_bias_drops_the_bias_everywhere() {
    let t = Tape::new();
    let layer = Linear::with_in_size(&t, 3, 4).without_bias();
    assert!(layer.bias().is_none());
    assert_eq!(layer.params().len(), 1);

    let y = layer.forward(&batch(&t));
    assert_eq!(y.shape(), Some(vec![2, 4]));
}

// -- registration ------------------------------------------------------

#[test]
fn own_params_lists_the_weight_and_the_bias() {
    let t = Tape::new();
    let layer = Linear::with_in_size(&t, 3, 4);
    let params = layer.params();
    assert_eq!(params.len(), 2);
    assert_eq!(params[0].id(), layer.weight().id());
    assert_eq!(params[1].id(), layer.bias().expect("bias").id());
    assert_eq!(params[0].name().as_deref(), Some("W"));
    assert_eq!(params[1].name().as_deref(), Some("b"));
    assert!(layer.sublayers().is_empty());
}

#[test]
fn params_are_listed_even_before_the_weight_exists() {
    let t = Tape::new();
    // The optimizer has to be able to register a lazily-shaped layer.
    let layer = Linear::new(&t, 4);
    assert_eq!(layer.params().len(), 2);
    assert!(layer.params()[0].data().is_none());
}

// -- forward / backward ------------------------------------------------

#[test]
fn forward_matches_the_free_function_on_its_own_parameters() {
    let t = Tape::new();
    let layer = Linear::with_in_size(&t, 3, 4);
    let x = batch(&t);
    let expected = linear(&x, &layer.weight(), layer.bias().as_ref());
    assert_eq!(layer.forward(&x).data(), expected.data());
}

#[test]
fn backward_reaches_both_parameters() {
    let t = Tape::new();
    let layer = Linear::with_in_size(&t, 3, 4);
    let x = batch(&t);
    sum_all(&layer.forward(&x)).backward();

    assert_eq!(
        layer.weight().grad().and_then(|g| g.shape()),
        Some(vec![3, 4])
    );
    assert_eq!(
        layer.bias().and_then(|b| b.grad()).and_then(|g| g.data()),
        Some(arr1(&[2.0, 2.0, 2.0, 2.0]).into_dyn()),
        "one row of the seed per batch element"
    );
    assert_eq!(x.grad().and_then(|g| g.shape()), Some(vec![2, 3]));
}

#[test]
fn cleargrads_clears_both_parameters() {
    let t = Tape::new();
    let layer = Linear::with_in_size(&t, 3, 4);
    sum_all(&layer.forward(&batch(&t))).backward();
    assert!(layer.params().iter().all(|p| p.grad().is_some()));
    layer.cleargrads();
    assert!(layer.params().iter().all(|p| p.grad().is_none()));
}

// -- initialisation --------------------------------------------------

#[test]
fn the_initialiser_scales_by_one_over_root_fan_in() {
    let t = Tape::new();
    // With 400 inputs the weights should have a standard deviation of
    // 1/sqrt(400) = 0.05, not 1. Seeded so the moments below are the same
    // in every run, whatever else has drawn from the stream first.
    t.seed(17);
    let layer = Linear::with_in_size(&t, 400, 20);
    let w = layer.weight().data().expect("initialised");
    assert_eq!(w.shape(), &[400, 20]);

    let count = f64::from(u32::try_from(w.len()).expect("fits"));
    let mean = w.sum() / count;
    let variance = w.mapv(|v| (v - mean).powi(2)).sum() / count;
    assert!(mean.abs() < 0.005, "mean was {mean}");
    assert!(
        (variance.sqrt() - 0.05).abs() < 0.005,
        "standard deviation was {}",
        variance.sqrt()
    );
}

#[test]
fn successive_layers_get_different_weights() {
    let t = Tape::new();
    // They draw from the same global stream, so nothing is duplicated --
    // the failure this guards against is every layer of an MLP starting
    // identical.
    let a = Linear::with_in_size(&t, 3, 4);
    let b = Linear::with_in_size(&t, 3, 4);
    assert_ne!(a.weight().data(), b.weight().data());
}

#[test]
fn seeding_makes_initialisation_reproducible() {
    let t = Tape::new();
    t.seed(11);
    let first = Linear::with_in_size(&t, 3, 4).weight().data();
    t.seed(11);
    let second = Linear::with_in_size(&t, 3, 4).weight().data();
    assert_eq!(first, second);

    // ... and the numbers are the global stream's, scaled.
    t.seed(11);
    let expected = array_of(&t.normal(&[3, 4])).mapv(|v| v * (1.0_f64 / 3.0).sqrt());
    t.seed(11);
    assert_eq!(Linear::with_in_size(&t, 3, 4).weight().data(), Some(expected));
}

fn image(t: &Tape, n: usize, c: usize, h: usize, w: usize) -> Variable {
    let len = n * c * h * w;
    #[allow(clippy::cast_precision_loss, reason = "small test indices")]
    let data: Vec<f64> = (0..len).map(|i| (i as f64).sin()).collect();
    t.var(
        ArrayD::from_shape_vec(IxDyn(&[n, c, h, w]), data).expect("shape matches length"),
    )
}

#[test]
fn an_eager_layer_has_correctly_shaped_filters() {
    let t = Tape::new();
    let layer = Conv2dLayer::with_in_channels(&t, 3, 8, 3, 1, 1);
    assert_eq!(layer.weight().shape(), Some(vec![8, 3, 3, 3]));
    assert_eq!(layer.bias().expect("bias").shape(), Some(vec![8]));
    assert_eq!(layer.in_channels(), Some(3));
}

#[test]
fn a_lazy_layer_settles_on_its_first_batch() {
    let t = Tape::new();
    let layer = Conv2dLayer::new(&t, 8, 3, 1, 1);
    assert!(layer.weight().data().is_none());
    assert_eq!(layer.in_channels(), None);

    let y = layer.forward(&image(&t, 2, 3, 5, 5));
    assert_eq!(layer.weight().shape(), Some(vec![8, 3, 3, 3]));
    assert_eq!(layer.in_channels(), Some(3));
    // stride 1, pad 1, kernel 3 keeps the spatial size.
    assert_eq!(y.shape(), Some(vec![2, 8, 5, 5]));
}

#[test]
fn stride_and_pad_shape_the_output() {
    let t = Tape::new();
    let layer = Conv2dLayer::with_in_channels(&t, 3, 4, 3, 2, 1);
    let y = layer.forward(&image(&t, 1, 3, 7, 7));
    // (7 + 2*1 - 3) / 2 + 1 = 4
    assert_eq!(y.shape(), Some(vec![1, 4, 4, 4]));
}

#[test]
fn a_bias_free_layer_registers_only_its_filters() {
    let t = Tape::new();
    let layer = Conv2dLayer::with_in_channels(&t, 3, 4, 3, 1, 1).without_bias();
    assert_eq!(layer.params().len(), 1);
    assert!(layer.bias().is_none());
}

#[test]
fn gradients_reach_both_parameters() {
    let t = Tape::new();
    let layer = Conv2dLayer::with_in_channels(&t, 2, 3, 3, 1, 1);
    sum_all(&layer.forward(&image(&t, 1, 2, 4, 4))).backward();
    for p in layer.params() {
        assert!(p.grad().is_some());
    }
}

/// The fan-in scaling counts every element of the receptive field, not just
/// the channel count -- a 5x5 filter must come out smaller than a 3x3 one.
#[test]
fn the_initialisation_scale_counts_the_whole_receptive_field() {
    let t = Tape::new();
    let small = Conv2dLayer::with_in_channels(&t, 4, 16, 3, 1, 1);
    let large = Conv2dLayer::with_in_channels(&t, 4, 16, 7, 1, 3);

    let spread = |layer: &Conv2dLayer| {
        let w = layer.weight().data().expect("data");
        #[allow(clippy::cast_precision_loss, reason = "element counts are small")]
        let n = w.len() as f64;
        (w.iter().map(|v| v * v).sum::<f64>() / n).sqrt()
    };

    assert!(
        spread(&large) < spread(&small),
        "a wider receptive field divides by more, so its weights start smaller"
    );
}

fn input(t: &Tape) -> Variable {
    t.var(arr2(&[[0.5, -1.0, 2.0], [1.5, 0.25, -0.5]]).into_dyn())
}

// -- Rnn ---------------------------------------------------------------

#[test]
fn an_rnn_registers_both_of_its_transforms() {
    let t = Tape::new();
    let rnn = Rnn::with_in_size(&t, 3, 4);
    // x2h contributes W and b; h2h is nobias, so W only.
    assert_eq!(rnn.params().len(), 3);
    assert!(rnn.own_params().is_empty(), "an Rnn owns no direct weights");
}

#[test]
fn the_recurrent_weight_is_hidden_by_hidden() {
    let t = Tape::new();
    let rnn = Rnn::with_in_size(&t, 3, 4);
    assert_eq!(rnn.x2h().weight().shape(), Some(vec![3, 4]));
    assert_eq!(
        rnn.h2h().weight().shape(),
        Some(vec![4, 4]),
        "h2h maps hidden to hidden, so in_size is the hidden size"
    );
    assert!(rnn.h2h().bias().is_none(), "the recurrent path has no bias");
}

#[test]
fn state_carries_between_steps_and_clears_on_reset() {
    let t = Tape::new();
    let rnn = Rnn::with_in_size(&t, 3, 4);
    assert!(rnn.state().is_none());

    let first = rnn.forward(&input(&t));
    assert_eq!(rnn.state().map(|h| h.data()), Some(first.data()));

    let second = rnn.forward(&input(&t));
    assert_ne!(
        first.data(),
        second.data(),
        "the second step sees the first one's state"
    );

    rnn.reset_state();
    assert!(rnn.state().is_none());
    assert_eq!(
        rnn.forward(&input(&t)).data(),
        first.data(),
        "after a reset the next step is a first step again"
    );
}

#[test]
fn an_unrolled_rnn_back_propagates_through_every_step() {
    let t = Tape::new();
    let rnn = Rnn::with_in_size(&t, 3, 4);
    let x = input(&t);

    let mut h = rnn.forward(&x);
    for _ in 0..2 {
        h = rnn.forward(&x);
    }
    sum_all(&h).backward();

    for p in rnn.params() {
        assert!(
            p.grad().is_some(),
            "every parameter takes a gradient from the unrolled graph"
        );
    }
}

#[test]
fn unchaining_the_state_truncates_the_history() {
    let t = Tape::new();
    let rnn = Rnn::with_in_size(&t, 3, 4);
    let x = input(&t);

    rnn.forward(&x);
    let h = rnn.forward(&x);
    assert!(h.creator().is_some(), "the state has a history to cut");

    h.unchain_backward();

    let creator = h.creator().expect("the producing step survives the cut");
    assert!(
        t.creator_inputs(&creator)
            .iter()
            .all(|input| input.creator().is_none()),
        "everything upstream of the last step is severed"
    );

    // The value survives the cut -- that is the point of truncated BPTT.
    assert!(h.data().is_some());
}

#[test]
fn a_lazily_shaped_rnn_settles_one_transform_per_step() {
    let t = Tape::new();
    let rnn = Rnn::new(&t, 4);
    assert!(rnn.x2h().weight().data().is_none());

    rnn.forward(&input(&t));
    assert_eq!(rnn.x2h().weight().shape(), Some(vec![3, 4]));
    assert!(
        rnn.h2h().weight().data().is_none(),
        "the first step has no state to run through h2h, so it stays unshaped"
    );

    rnn.forward(&input(&t));
    assert_eq!(
        rnn.h2h().weight().shape(),
        Some(vec![4, 4]),
        "the second step is the first one to use the recurrent path"
    );
}

// -- Lstm --------------------------------------------------------------

#[test]
fn an_lstm_registers_all_eight_transforms() {
    let t = Tape::new();
    let lstm = Lstm::with_in_size(&t, 3, 4);
    // Four x-side gates with W and b, four recurrent gates with W only.
    assert_eq!(lstm.params().len(), 4 * 2 + 4);
    assert_eq!(lstm.sublayers().len(), 8);
}

#[test]
fn only_the_input_side_gates_carry_a_bias() {
    let t = Tape::new();
    let lstm = Lstm::with_in_size(&t, 3, 4);
    assert!(lstm.input_gates().iter().all(|g| g.bias().is_some()));
    assert!(lstm.recurrent_gates().iter().all(|g| g.bias().is_none()));
}

#[test]
fn both_lstm_states_carry_and_clear_together() {
    let t = Tape::new();
    let lstm = Lstm::with_in_size(&t, 3, 4);
    assert!(lstm.state().is_none() && lstm.cell_state().is_none());

    let first = lstm.forward(&input(&t));
    assert!(lstm.state().is_some() && lstm.cell_state().is_some());

    let second = lstm.forward(&input(&t));
    assert_ne!(first.data(), second.data());

    lstm.reset_state();
    assert!(lstm.state().is_none() && lstm.cell_state().is_none());
    assert_eq!(
        lstm.forward(&input(&t)).data(),
        first.data(),
        "clearing both states makes the next step a first step"
    );
}

#[test]
fn an_unrolled_lstm_back_propagates_through_every_step() {
    let t = Tape::new();
    let lstm = Lstm::with_in_size(&t, 3, 4);
    let x = input(&t);

    let mut h = lstm.forward(&x);
    for _ in 0..2 {
        h = lstm.forward(&x);
    }
    sum_all(&h).backward();

    for p in lstm.params() {
        assert!(p.grad().is_some(), "BPTT reaches every gate");
    }
}

/// The output gate squashes through `tanh`, so `h` is bounded even when the
/// cell state is not.
#[test]
fn the_hidden_state_stays_within_the_unit_interval() {
    let t = Tape::new();
    let lstm = Lstm::with_in_size(&t, 3, 4);
    let big = t.var(arr2(&[[50.0, -50.0, 50.0]]).into_dyn());

    for _ in 0..5 {
        let h = lstm.forward(&big);
        assert!(
            h.data().expect("data").iter().all(|v| v.abs() <= 1.0),
            "h = o * tanh(c), and both factors are bounded by 1"
        );
    }
}

// -- trees of layers -----------------------------------------------------------

/// A leaf layer with two parameters and a trivially checkable forward.
struct Scale {
    gain: Parameter,
    offset: Parameter,
}

impl Scale {
    fn new(t: &Tape, gain: f64, offset: f64) -> Self {
        t.with(|g| Self {
            gain: Parameter::named(g, Some(tensor(&arr0(gain).into_dyn())), "gain"),
            offset: Parameter::named(g, Some(tensor(&arr0(offset).into_dyn())), "offset"),
        })
    }

    fn forward(&self, t: &Tape, x: &Variable) -> Variable {
        add(&mul(x, &t.at(*self.gain.as_variable())), &t.at(*self.offset.as_variable()))
    }
}

impl Layer for Scale {
    fn own_params(&self) -> Vec<Parameter> {
        vec![self.gain, self.offset]
    }

    fn sublayers(&self) -> Vec<ParamTree> {
        Vec::new()
    }
}

/// One level of nesting: two `Scale`s and a parameter of its own.
struct Middle {
    weight: Parameter,
    left: Scale,
    right: Scale,
}

impl Middle {
    fn forward(&self, t: &Tape, x: &Variable) -> Variable {
        let right = mul(&self.right.forward(t, x), &t.at(*self.weight.as_variable()));
        mul(&self.left.forward(t, x), &right)
    }
}

impl Layer for Middle {
    fn own_params(&self) -> Vec<Parameter> {
        vec![self.weight]
    }

    fn sublayers(&self) -> Vec<ParamTree> {
        vec![self.left.tree(), self.right.tree()]
    }
}

/// Two levels of nesting, plus a leaf sibling.
struct Outer {
    middle: Middle,
    tail: Scale,
}

impl Outer {
    fn forward(&self, t: &Tape, x: &Variable) -> Variable {
        self.tail.forward(t, &sigmoid(&self.middle.forward(t, x)))
    }

    fn all(&self, t: &Tape) -> Vec<Variable> {
        self.params().into_iter().map(|p| t.at(*p.as_variable())).collect()
    }
}

impl Layer for Outer {
    fn own_params(&self) -> Vec<Parameter> {
        Vec::new()
    }

    fn sublayers(&self) -> Vec<ParamTree> {
        vec![self.middle.tree(), self.tail.tree()]
    }
}

fn nested(t: &Tape) -> Outer {
    Outer {
        middle: Middle {
            weight: t.with(|g| {
                Parameter::named(g, Some(tensor(&arr0(3.0).into_dyn())), "weight")
            }),
            left: Scale::new(t, 2.0, 1.0),
            right: Scale::new(t, 0.5, -1.0),
        },
        tail: Scale::new(t, 1.5, 0.25),
    }
}

#[test]
fn params_flattens_the_whole_tree() {
    let t = Tape::new();
    let net = nested(&t);
    // 1 (Middle.weight) + 2 + 2 (its Scales) + 2 (the tail Scale).
    assert_eq!(net.params().len(), 7);

    let names: Vec<String> =
        net.all(&t).iter().map(|p| p.name().unwrap_or_default()).collect();
    assert_eq!(
        names,
        vec!["weight", "gain", "offset", "gain", "offset", "gain", "offset"],
        "own parameters first, then each sub-layer in order"
    );
}

#[test]
fn params_returns_the_layers_own_parameters_not_copies() {
    let t = Tape::new();
    let net = nested(&t);
    let weight = t.at(*net.middle.weight.as_variable());
    let before = weight.data();

    let handle = net
        .all(&t)
        .into_iter()
        .find(|p| p.id() == weight.id())
        .expect("the weight is in the flattened list");
    handle.set_data(arr0(99.0).into_dyn());

    assert_ne!(weight.data(), before);
    assert_eq!(weight.data(), Some(arr0(99.0).into_dyn()));
}

#[test]
fn every_flattened_parameter_is_distinct() {
    let t = Tape::new();
    let net = nested(&t);
    let mut ids: Vec<usize> = net.all(&t).iter().map(|p| p.id()).collect();
    ids.sort_unstable();
    let count = ids.len();
    ids.dedup();
    assert_eq!(ids.len(), count, "no parameter is listed twice");
}

#[test]
fn a_leaf_layer_has_no_sublayers_by_default() {
    let t = Tape::new();
    let leaf = Scale::new(&t, 1.0, 0.0);
    assert!(leaf.sublayers().is_empty());
    assert_eq!(leaf.params().len(), 2);
}

#[test]
fn mod_cleargrads_reaches_every_nested_parameter() {
    let t = Tape::new();
    let net = nested(&t);
    let x = t.var(arr1(&[0.5, 1.0]).into_dyn());

    sum_all(&net.forward(&t, &x)).backward();
    assert!(
        net.all(&t).iter().all(|p| p.grad().is_some()),
        "every parameter took part in the forward pass"
    );

    t.with(|g| net.cleargrads(g));
    assert!(net.all(&t).iter().all(|p| p.grad().is_none()));
}

/// Without `cleargrads` the gradients of successive passes sum, which is the bug the
/// call exists to prevent.
#[test]
fn gradients_accumulate_across_passes_until_cleared() {
    let t = Tape::new();
    let net = nested(&t);
    let x = t.var(arr1(&[0.5, 1.0]).into_dyn());
    let weight = t.at(*net.middle.weight.as_variable());

    sum_all(&net.forward(&t, &x)).backward();
    let once = grad(&weight);

    sum_all(&net.forward(&t, &x)).backward();
    let twice = grad(&weight);
    assert_eq!(twice, once.mapv(|v| v * 2.0));

    t.with(|g| net.cleargrads(g));
    sum_all(&net.forward(&t, &x)).backward();
    assert_eq!(grad(&weight), once);
}

#[test]
fn a_nested_parameter_is_keyed_by_its_path() {
    let t = Tape::new();
    let net = nested(&t);
    let keys: Vec<String> =
        t.with(|g| net.named_params(g)).into_iter().map(|(k, _)| k).collect();
    assert_eq!(
        keys,
        vec!["0/weight", "0/0/gain", "0/0/offset", "0/1/gain", "0/1/offset", "1/gain", "1/offset"]
    );
}

// -- saving and loading ---------------------------------------------------------

/// The shape of saved weights as they come back from a file.
fn stored(saved: Vec<(String, Values)>) -> Vec<(String, StoredArray<Real>)> {
    saved
        .into_iter()
        .map(|(key, a)| {
            let data = a.data().iter().map(|v| Ok(*v)).collect();
            (key, StoredArray { shape: a.shape().to_vec(), data })
        })
        .collect()
}

#[test]
fn a_round_trip_restores_every_weight_exactly() {
    let t = Tape::new();
    let source = Mlp::new(&t, &[4, 2]);
    source.forward(&batch(&t));
    let file = stored(source.saved());

    let target = Mlp::new(&t, &[4, 2]);
    target.forward(&batch(&t));
    target.load(&file).expect("load");

    for (a, b) in source.params().iter().zip(target.params()) {
        assert_eq!(a.data(), b.data(), "every parameter survives the round trip");
    }
    assert_eq!(
        source.forward(&batch(&t)).data(),
        target.forward(&batch(&t)).data()
    );
}

#[test]
fn an_uninitialised_parameter_is_skipped_rather_than_failing() {
    let t = Tape::new();
    let layer = Linear::new(&t, 4);
    assert!(layer.weight().data().is_none());

    let saved = layer.saved();
    assert!(saved.iter().any(|(k, _)| k == "b"), "the bias exists and is written");
    assert!(saved.iter().all(|(k, _)| k != "W"), "the unshaped weight is skipped");
}

#[test]
fn nested_layers_get_distinct_path_keys() {
    let t = Tape::new();
    let model = Mlp::new(&t, &[4, 2]);
    model.forward(&batch(&t));

    let keys: Vec<String> = model.named().into_iter().map(|(k, _)| k).collect();
    assert_eq!(keys.len(), 4, "two Linear layers, W and b each");
    assert!(keys.iter().any(|k| k == "0/W"));
    assert!(keys.iter().any(|k| k == "1/b"));

    let unique: std::collections::HashSet<&String> = keys.iter().collect();
    assert_eq!(unique.len(), keys.len(), "no key collides with another");
}

#[test]
fn loading_the_wrong_shape_is_reported_not_absorbed() {
    let t = Tape::new();
    let wide = Linear::with_in_size(&t, 3, 4);
    let file = stored(wide.saved());

    let narrow = Linear::with_in_size(&t, 2, 4);
    let err =
        narrow.load(&file).expect_err("the shapes disagree");
    assert!(matches!(err, WeightsError::ShapeMismatch { .. }), "got {err:?}");
    assert!(err.to_string().contains("does not fit this model"));
    assert_eq!(
        err.to_string(),
        "weights file does not fit this model: W is [2, 4] here but [3, 4] in the file"
    );
}

#[test]
fn a_corrupt_shape_is_reported() {
    let t = Tape::new();
    let file = vec![(
        "W".to_owned(),
        StoredArray { shape: vec![2, 3], data: vec![Ok(Real(1.0)), Ok(Real(2.0))] },
    )];

    let layer = Linear::new(&t, 3);
    let err = layer.load(&file)
        .expect_err("6 elements claimed, 2 stored");
    assert!(matches!(err, WeightsError::Corrupt { .. }), "got {err:?}");
    assert_eq!(
        err.to_string(),
        "weights file is corrupt: W claims shape [2, 3] but holds 2 elements"
    );
}

#[test]
fn a_key_the_model_does_not_have_is_ignored() {
    let t = Tape::new();
    let numbers = |values: &[f64]| values.iter().map(|&v| Ok(Real(v))).collect();
    let file = vec![
        ("b".to_owned(), StoredArray { shape: vec![4], data: numbers(&[1.0, 2.0, 3.0, 4.0]) }),
        ("somewhere/else".to_owned(), StoredArray { shape: vec![1], data: numbers(&[9.0]) }),
    ];

    let layer = Linear::new(&t, 4);
    layer.load(&file)
        .expect("the extra key is not this model's problem");
    assert_eq!(
        layer.bias().expect("bias").data(),
        Some(arr1(&[1.0, 2.0, 3.0, 4.0]).into_dyn())
    );
}

#[test]
fn two_saves_of_one_model_are_the_same() {
    let t = Tape::new();
    let model = Mlp::new(&t, &[4, 2]);
    model.forward(&batch(&t));
    let keys = |saved: Vec<(String, Values)>| -> Vec<String> {
        saved.into_iter().map(|(k, _)| k).collect()
    };
    let a = keys(model.saved());
    let b = keys(model.saved());
    assert_eq!(a, b);
    assert_eq!(a, vec!["0/W", "0/b", "1/W", "1/b"]);
}

#[test]
fn an_element_that_is_no_number_is_quoted_in_the_error() {
    let t = Tape::new();
    let file = vec![(
        "b".to_owned(),
        StoredArray { shape: vec![2], data: vec![Ok(Real(1.0)), Err("o\"ne\n".to_owned())] },
    )];
    let layer = Linear::new(&t, 2);
    let err = layer.load(&file).expect_err("not a number");
    assert!(matches!(err, WeightsError::NotANumber { .. }), "got {err:?}");
    assert_eq!(
        err.to_string(),
        "weights file is corrupt: b holds \"o\\\"ne\\n\", which is not a number"
    );
    assert!(
        elements(&layer.bias().expect("bias")).iter().all(|v| *v == 0.0),
        "a refused file changes nothing"
    );
}

fn elements(v: &Variable) -> Vec<f64> {
    data(v).iter().copied().collect()
}

#[test]
fn failures_outside_the_weights_carry_their_message() {
    assert_eq!(
        WeightsError::Io("no such file".to_owned()).to_string(),
        "weights file could not be read or written: no such file"
    );
    assert_eq!(
        WeightsError::Format("line 1".to_owned()).to_string(),
        "weights file is not in the expected format: line 1"
    );
}

// -- pipelines ------------------------------------------------------------------

fn pipeline<L: Layer>(t: &Tape, layers: Vec<Held<L>>) -> Held<DzSequential<L>> {
    let inner = layers.into_iter().map(|l| l.inner.into_inner()).collect();
    Held::around(t, DzSequential::new(inner))
}

#[test]
fn sequential_applies_its_layers_in_order() {
    let t = Tape::new();
    let net = pipeline(
        &t,
        vec![Linear::with_in_size(&t, 3, 5), Linear::with_in_size(&t, 5, 2)],
    );
    assert_eq!(net.forward(&batch(&t)).shape(), Some(vec![2, 2]));
    assert_eq!(net.inner.borrow().layers().len(), 2);
}

#[test]
fn sequential_flattens_every_layers_parameters() {
    let t = Tape::new();
    let net = pipeline(
        &t,
        vec![
            Linear::with_in_size(&t, 3, 5),
            Linear::with_in_size(&t, 5, 2).without_bias(),
        ],
    );
    assert_eq!(net.params().len(), 3, "W, b, W");
    assert!(net.own_params().is_empty());
    assert_eq!(net.sublayers().len(), 2);
}

#[test]
fn an_empty_sequential_is_the_identity() {
    let t = Tape::new();
    let net = pipeline(&t, Vec::<Linear>::new());
    let x = batch(&t);
    let y = net.forward(&x);
    assert_eq!(y.id(), x.id(), "no layer means no new node");
    assert!(net.params().is_empty());
}

#[test]
fn sequential_can_be_extended_after_construction() {
    let t = Tape::new();
    let net = pipeline(&t, Vec::<Linear>::new());
    net.inner.borrow_mut().push(Linear::with_in_size(&t, 3, 4).inner.into_inner());
    net.inner.borrow_mut().push(Linear::with_in_size(&t, 4, 1).inner.into_inner());
    assert_eq!(net.params().len(), 4);
    assert_eq!(net.forward(&batch(&t)).shape(), Some(vec![2, 1]));
}

#[test]
fn sequential_nests_inside_itself() {
    let t = Tape::new();
    let inner = pipeline(&t, vec![Linear::with_in_size(&t, 3, 4)]);
    let last = Linear::with_in_size(&t, 4, 2);
    let outer = Held::around(
        &t,
        DzSequential::new(vec![
            Either::Left(inner.inner.into_inner()),
            Either::Right(last.inner.into_inner()),
        ]),
    );
    assert_eq!(outer.params().len(), 4, "the recursion goes all the way down");
    assert_eq!(outer.forward(&batch(&t)).shape(), Some(vec![2, 2]));
}

#[test]
fn mlp_sizes_itself_from_the_first_batch() {
    let t = Tape::new();
    let net = Mlp::new(&t, &[10, 4, 1]);
    assert!(net.layers().iter().all(|l| l.in_size().is_none()));
    assert_eq!(
        t.with(|g| net.inner.borrow().wanted(g, 3)),
        vec![Some(3), Some(10), Some(4)]
    );

    let y = net.forward(&batch(&t));
    assert_eq!(y.shape(), Some(vec![2, 1]));
    let sizes: Vec<Option<usize>> = net.layers().iter().map(Linear::in_size).collect();
    assert_eq!(sizes, vec![Some(3), Some(10), Some(4)]);
    assert_eq!(t.with(|g| net.inner.borrow().wanted(g, 3)), vec![None, None, None]);
}

#[test]
fn mlp_has_two_parameters_per_layer() {
    let t = Tape::new();
    let net = Mlp::new(&t, &[10, 4, 1]);
    assert_eq!(net.params().len(), 6);
    assert!(net.own_params().is_empty());
    assert_eq!(net.sublayers().len(), 3);
}

/// The output must be raw: an activation after the last layer would clamp a regressor
/// into `(0, 1)` and destroy a classifier's logits.
#[test]
fn mlp_does_not_activate_its_output() {
    let t = Tape::new();
    let net = Mlp::new(&t, &[4, 1]);
    net.forward(&batch(&t));

    net.layers()[0].weight().set_data(ArrayD::zeros(IxDyn(&[3, 4])));
    net.layers()[1].weight().set_data(ArrayD::from_elem(IxDyn(&[4, 1]), 50.0));

    let y = net.forward(&batch(&t)).data().expect("data");
    assert!(
        (y[[0, 0]] - 100.0).abs() < 1e-12,
        "expected the raw affine output, got {y:?}"
    );
    assert!(
        y.iter().all(|v| *v > 1.0),
        "a sigmoid-capped output could never leave (0, 1)"
    );
}

#[test]
fn a_single_layer_mlp_is_just_that_layer() {
    let t = Tape::new();
    let net = Mlp::new(&t, &[2]);
    assert_eq!(net.params().len(), 2);
    let y = net.forward(&batch(&t));
    assert_eq!(y.shape(), Some(vec![2, 2]));

    let expected = linear(
        &batch(&t),
        &net.layers()[0].weight(),
        net.layers()[0].bias().as_ref(),
    );
    assert_eq!(y.data(), expected.data());
}

#[test]
fn the_activation_is_configurable() {
    let t = Tape::new();
    let sigmoidal = Mlp::new(&t, &[6, 3]);
    let rectified = Mlp::with_activation(&t, &[6, 3], make_relu);

    sigmoidal.forward(&batch(&t));
    rectified.forward(&batch(&t));
    for (a, b) in sigmoidal.layers().iter().zip(rectified.layers()) {
        let w = a.weight().data().expect("initialised");
        b.weight().set_data(w);
        if let (Some(ab), Some(bb)) = (a.bias(), b.bias()) {
            bb.set_data(ab.data().expect("initialised"));
        }
    }

    assert_ne!(
        sigmoidal.forward(&batch(&t)).data(),
        rectified.forward(&batch(&t)).data()
    );
}

#[test]
fn backward_reaches_every_layer_of_an_mlp() {
    let t = Tape::new();
    let net = Mlp::new(&t, &[10, 4, 1]);
    sum_all(&net.forward(&batch(&t))).backward();
    assert!(
        net.params().iter().all(|p| p.grad().is_some()),
        "no layer is left out of the backward pass"
    );

    net.cleargrads();
    assert!(net.params().iter().all(|p| p.grad().is_none()));
}

/// A model three levels deep: an `Mlp` and a pipeline of bare layers inside a pipeline.
type Deep = DzSequential<Either<DzMlp<Maker>, DzSequential<DzLinear>>>;

fn deep(t: &Tape) -> Held<Deep> {
    let first = Mlp::new(t, &[6, 4]).inner.into_inner();
    let rest = pipeline(t, vec![Linear::new(t, 3), Linear::new(t, 1)]).inner.into_inner();
    Held::around(t, DzSequential::new(vec![Either::Left(first), Either::Right(rest)]))
}

fn pairs(t: &Tape) -> Variable {
    t.var(arr2(&[[1.0, 2.0], [3.0, 4.0]]).into_dyn())
}

#[test]
fn every_layer_is_a_model() {
    fn count<M: Model<Real, Ext>>(model: &Held<M>) -> usize {
        model.params().len()
    }
    let t = Tape::new();
    assert_eq!(count(&Linear::with_in_size(&t, 3, 2)), 2);
    assert_eq!(count(&Mlp::new(&t, &[4, 1])), 4);
    assert_eq!(count(&deep(&t)), 8, "four layers, two parameters each");
}

#[test]
fn cleargrads_reaches_every_nested_parameter() {
    let t = Tape::new();
    let model = deep(&t);
    sum_all(&model.forward(&pairs(&t))).backward();
    assert!(
        model.params().iter().all(|p| p.grad().is_some()),
        "the backward pass reaches every layer at every depth"
    );

    model.cleargrads();
    assert!(model.params().iter().all(|p| p.grad().is_none()));
}

// -- the sixteen-layer network ----------------------------------------------------

#[test]
fn the_stack_is_sixteen_weighted_layers() {
    let t = Tape::new();
    let net: Vgg16<Real> = t.with(|g| Vgg16::new(g));
    assert_eq!(net.convolutions().len(), 13);
    assert_eq!(net.classifier().len(), 3);
    assert_eq!(net.params().len(), 16 * 2, "W and b for each");
}

#[test]
fn the_channel_progression_matches_the_reference() {
    let t = Tape::new();
    let net: Vgg16<Real> = t.with(|g| Vgg16::new(g));
    let widths: Vec<usize> = net.convolutions().iter().map(|c| c.out_channels()).collect();
    assert_eq!(
        widths,
        vec![64, 64, 128, 128, 256, 256, 256, 512, 512, 512, 512, 512, 512]
    );
}

#[test]
fn the_input_channel_count_is_settled_by_the_first_batch() {
    let t = Tape::new();
    let mut net: Vgg16<Real> = t.with(|g| Vgg16::with_classes(g, 4));
    assert_eq!(net.convolutions()[0].in_channels(), None);
    let wanted = t.with(|g| net.wanted(g, 1, 32, 32));
    assert_eq!(wanted.conv[0], Some(1));
    assert_eq!(wanted.conv[1], Some(64));
    assert_eq!(wanted.dense, vec![Some(512), Some(4096), Some(4096)]);

    let x = image(&t, 1, 1, 8, 8);
    net.conv[0].settle(&t, 1);
    let y = t.with(|g| net.conv[0].forward(g, &x.v));
    assert_eq!(t.at(y).shape(), Some(vec![1, 64, 8, 8]));

    assert_eq!(
        net.convolutions()[0].in_channels(),
        Some(1),
        "the same model accepts greyscale without being told"
    );
}

#[test]
fn a_tied_weight_survives_the_round_trip() {
    let t = Tape::new();
    let w = t.with(|g| Parameter::new(g, tensor(&arr1(&[1.0, 2.0]).into_dyn())));
    let named = |p: Parameter| vec![("in".to_owned(), p), ("out".to_owned(), p)];
    let file = stored(t.with(|g| save_weights(g, &named(w))));
    assert_eq!(file.len(), 2, "both keys are written");

    let other = t.with(|g| Parameter::empty(g));
    t.with(|g| load_weights(g, &named(other), &file)).expect("load");
    assert_eq!(t.at(*other.as_variable()).data(), t.at(*w.as_variable()).data());
}

#[test]
fn the_initial_scale_is_the_root_of_one_over_the_fan_in() {
    let root = |x: Real| Real(x.0.sqrt());
    assert_eq!(weight_scale(4, &root), Real(0.5));
    assert_eq!(weight_scale(1, &root), Real(1.0));
    let t = Tape::new();
    let layer = t.with(|g| DzConv::new(g, 8, (2usize, 5usize), 1usize, 0usize));
    assert_eq!(layer.fan_in(3), 30);
    assert_eq!(layer.fan_in(0), 0);
}

#[test]
fn recurrent_layers_want_weights_for_the_state_once_there_is_one() {
    let t = Tape::new();
    let tanh: Maker = make_tanh;
    let mut cell = t.with(|g| DzRnn::new(g, 4, tanh));
    assert_eq!(t.with(|g| cell.wanted(g, 3)), (Some(3), None));
    let x = t.var(arr2(&[[1.0, 2.0, 3.0]]).into_dyn());
    cell.settle(&t, 3);
    t.with(|g| cell.forward(g, &x.v));
    assert_eq!(t.with(|g| cell.wanted(g, 3)), (None, Some(4)));

    let sigmoid: Maker = make_sigmoid;
    let mut memory = t.with(|g| DzLstm::new(g, 2, sigmoid, tanh));
    let wanted = t.with(|g| memory.wanted(g, 3));
    assert_eq!(wanted, [[Some(3); 4], [None; 4]].concat());
    memory.settle(&t, 3);
    t.with(|g| memory.forward(g, &x.v));
    let wanted = t.with(|g| memory.wanted(g, 3));
    assert_eq!(wanted, [[None; 4], [Some(2); 4]].concat());
}
