#![allow(dead_code, unused_imports)]

use dezero::engine::builtin::Builtin;
use dezero::engine::config::ConfigGuard;
use dezero::engine::function::{apply1, Backprop, Op};
use dezero::engine::graph::{Function, Graph, Variable as Handle};
use dezero::engine::rule::Rule;
use dezero::functions::activation::{sigmoid_array, softmax_array, Sigmoid, Softmax};
use dezero::functions::basic_math::{map_array, Cos, Exp, Pow, Sin, Tanh};
use dezero::functions::loss::SoftmaxCrossEntropy;
use dezero::functions::reduce::Axes;
use dezero::scalar::Scalar;
use dezero::tensor::Tensor;
use dezero::utils::numerical::GradientCheckError;
use dezero::utils::random::Rng;
use dezero::utils::shape::normalize_axis;
use dezero::engine::parameter::Parameter as DzParameter;
use dezero::layers::linear::{weight_scale, Linear as DzLinear};
use dezero::layers::{Layer, ParamTree};
use dezero::models::either::Either;
use dezero::models::mlp::{Mlp as DzMlp, Sequential as DzSequential};
use dezero::models::Model;
use dezero::optim::hooks::{ClipGrad as DzClip, FreezeParam as DzFreeze, WeightDecay as DzDecay};
use dezero::optim::momentum::MomentumSgd as DzMomentum;
use dezero::optim::sgd::Sgd as DzSgd;
use dezero::optim::{setup, update, Hook, Optimizer, Snapshot};
use std::cell::RefCell;
use ndarray::{arr0, arr1, arr2, arr3, ArrayD, IxDyn};
use std::fmt;
use std::ops;
use std::rc::Rc;

/// A floating-point number as the elements of arrays.
#[derive(Debug, Clone, Copy, PartialEq)]
struct Real(f64);

impl Scalar for Real {
    fn zero() -> Self {
        Real(0.0)
    }

    fn one() -> Self {
        Real(1.0)
    }

    fn from_count(n: usize) -> Self {
        Real(n as f64)
    }

    fn add(self, other: Self) -> Self {
        Real(self.0 + other.0)
    }

    fn sub(self, other: Self) -> Self {
        Real(self.0 - other.0)
    }

    fn mul(self, other: Self) -> Self {
        Real(self.0 * other.0)
    }

    fn div(self, other: Self) -> Self {
        Real(self.0 / other.0)
    }

    fn neg(self) -> Self {
        Real(-self.0)
    }

    fn gt(self, other: Self) -> bool {
        self.0 > other.0
    }
}

type Values = Tensor<Real>;

fn tensor(a: &ArrayD<f64>) -> Values {
    Tensor::from_shape_vec(a.shape().to_vec(), a.iter().map(|&v| Real(v)).collect())
        .expect("as many elements as the shape says")
}

fn array_of(t: &Values) -> ArrayD<f64> {
    ArrayD::from_shape_vec(IxDyn(t.shape()), t.data().iter().map(|v| v.0).collect())
        .expect("as many elements as the shape says")
}

/// The operations of the framework, and those that need floating-point functions.
enum Ext {
    Basic(Builtin),
    Exp,
    Sin,
    Cos,
    Tanh,
    Pow(f64),
    Sigmoid,
    Softmax(isize),
    CrossEntropy(Vec<usize>),
}

impl Op<Real> for Ext {
    type Rule = ();

    fn embedding(_rule: Rule) {}

    fn from_builtin(op: Builtin) -> Self {
        Ext::Basic(op)
    }

    fn op_name(&self) -> String {
        match self {
            Ext::Basic(op) => op.name(),
            Ext::Exp => "Exp".to_owned(),
            Ext::Sin => "Sin".to_owned(),
            Ext::Cos => "Cos".to_owned(),
            Ext::Tanh => "Tanh".to_owned(),
            Ext::Pow(_) => "Pow".to_owned(),
            Ext::Sigmoid => "Sigmoid".to_owned(),
            Ext::Softmax(_) => "Softmax".to_owned(),
            Ext::CrossEntropy(_) => "SoftmaxCrossEntropy".to_owned(),
        }
    }

    fn forward(&mut self, xs: &Vec<Values>) -> Vec<Values> {
        let exp = |v: Real| Real(v.0.exp());
        let ln = |v: Real| Real(v.0.ln());
        let lowest = Real(f64::NEG_INFINITY);
        match self {
            Ext::Basic(op) => vec![op.evaluate(xs)],
            Ext::Exp => vec![map_array(&xs[0], &exp)],
            Ext::Sin => vec![map_array(&xs[0], &|v: Real| Real(v.0.sin()))],
            Ext::Cos => vec![map_array(&xs[0], &|v: Real| Real(v.0.cos()))],
            Ext::Tanh => vec![map_array(&xs[0], &|v: Real| Real(v.0.tanh()))],
            Ext::Pow(c) => {
                let c = *c;
                vec![map_array(&xs[0], &|v: Real| Real(v.0.powf(c)))]
            }
            Ext::Sigmoid => vec![sigmoid_array(&xs[0], &|v: Real| Real(v.0.tanh()))],
            Ext::Softmax(axis) => {
                let axis = normalize_axis(*axis, xs[0].ndim());
                vec![softmax_array(&xs[0], axis, lowest, &exp)]
            }
            Ext::CrossEntropy(labels) => {
                vec![SoftmaxCrossEntropy::new(labels).forward(&xs[0], lowest, &exp, &ln)]
            }
        }
    }
}

impl Backprop<Real> for Ext {
    fn backward(
        &self,
        g: &mut Graph<Real, Ext>,
        inputs: &Vec<Handle>,
        outputs: &Vec<Handle>,
        gys: &Vec<Handle>,
    ) -> Vec<Handle> {
        let gx = match self {
            Ext::Basic(op) => return op.differentiate(g, inputs, &gys[0]),
            Ext::Exp => Exp.backward(g, &outputs[0], &gys[0]),
            Ext::Sin => {
                let cos_x = apply1(g, Ext::Cos, &[inputs[0]]);
                Sin.backward(g, &cos_x, &gys[0])
            }
            Ext::Cos => {
                let sin_x = apply1(g, Ext::Sin, &[inputs[0]]);
                Cos.backward(g, &sin_x, &gys[0])
            }
            Ext::Tanh => Tanh.backward(g, &outputs[0], &gys[0]),
            Ext::Pow(c) => {
                let lower = apply1(g, Ext::Pow(c - 1.0), &[inputs[0]]);
                Pow::new(Real(*c)).backward(g, &lower, &gys[0])
            }
            Ext::Sigmoid => Sigmoid.backward(g, &outputs[0], &gys[0]),
            Ext::Softmax(axis) => Softmax::new(*axis).backward(g, &outputs[0], &gys[0]),
            Ext::CrossEntropy(labels) => {
                let p = apply1(g, Ext::Softmax(1), &[inputs[0]]);
                SoftmaxCrossEntropy::new(labels).backward(g, &p, &gys[0])
            }
        };
        vec![gx]
    }
}

type Net = Graph<Real, Ext>;

/// A graph that several handles share.
#[derive(Clone)]
struct Tape {
    net: Rc<RefCell<Net>>,
    rng: Rc<RefCell<Rng>>,
}

/// A variable together with the graph it belongs to.
#[derive(Clone)]
struct Variable {
    tape: Tape,
    v: Handle,
}

/// Puts a flag back when it goes out of scope.
struct Guard {
    tape: Tape,
    inner: Option<ConfigGuard>,
}

impl Drop for Guard {
    fn drop(&mut self) {
        if let Some(guard) = self.inner.take() {
            self.tape.with(|g| guard.restore(&mut g.config));
        }
    }
}

impl PartialEq for Variable {
    fn eq(&self, other: &Self) -> bool {
        self.v == other.v
    }
}

impl fmt::Debug for Variable {
    fn fmt(&self, f: &mut fmt::Formatter<'_>) -> fmt::Result {
        fmt::Debug::fmt(&self.v, f)
    }
}

impl Tape {
    fn new() -> Self {
        let rng = Rc::new(RefCell::new(Rng::new(42)));
        Tape { net: Rc::new(RefCell::new(Graph::new())), rng }
    }

    fn with<R>(&self, f: impl FnOnce(&mut Net) -> R) -> R {
        f(&mut self.net.borrow_mut())
    }

    /// Takes the graph out of its cell.
    fn take(&self) -> Net {
        std::mem::replace(&mut *self.net.borrow_mut(), Graph::new())
    }

    /// Puts a graph into the cell.
    fn put(&self, g: Net) {
        *self.net.borrow_mut() = g;
    }

    /// Runs `f` with the given graph in the cell, and takes it out again.
    fn through(&self, g: Net, v: &Handle, f: &dyn Fn(&Variable) -> Variable) -> (Net, Handle) {
        self.put(g);
        let y = self.handle(&f(&self.at(*v)));
        (self.take(), y)
    }

    fn at(&self, v: Handle) -> Variable {
        Variable { tape: self.clone(), v }
    }

    fn var(&self, data: ArrayD<f64>) -> Variable {
        let v = self.with(|g| Handle::new(g, tensor(&data)));
        self.at(v)
    }

    fn scalar(&self, value: f64) -> Variable {
        let v = self.with(|g| Handle::from_scalar(g, Real(value)));
        self.at(v)
    }

    fn empty(&self) -> Variable {
        let v = self.with(|g| Handle::empty(g));
        self.at(v)
    }

    fn no_grad(&self) -> Guard {
        let inner = self.with(|g| dezero::engine::config::no_grad(&mut g.config));
        Guard { tape: self.clone(), inner: Some(inner) }
    }

    fn test_mode(&self) -> Guard {
        let inner = self.with(|g| dezero::engine::config::test_mode(&mut g.config));
        Guard { tape: self.clone(), inner: Some(inner) }
    }

    /// The handle in this graph of what a variable stands for.
    fn handle(&self, x: &Variable) -> Handle {
        if Rc::ptr_eq(&self.net, &x.tape.net) {
            x.v
        } else {
            let data = tensor(&x.data().expect("data"));
            self.with(|g| Handle::new(g, data))
        }
    }

    fn creator_inputs(&self, f: &Function) -> Vec<Variable> {
        self.with(|g| f.inputs(g)).into_iter().map(|v| self.at(v)).collect()
    }

    fn creator_outputs(&self, f: &Function) -> Vec<Option<Variable>> {
        self.with(|g| f.outputs(g)).into_iter().map(|v| v.map(|v| self.at(v))).collect()
    }
}

impl Variable {
    fn id(&self) -> usize {
        self.v.id()
    }

    fn data(&self) -> Option<ArrayD<f64>> {
        self.tape.with(|g| self.v.data(g).map(array_of))
    }

    fn set_data(&self, data: ArrayD<f64>) {
        self.tape.with(|g| self.v.set_data(g, tensor(&data)));
    }

    fn grad(&self) -> Option<Variable> {
        self.tape.with(|g| self.v.grad(g)).map(|v| self.tape.at(v))
    }

    fn set_grad(&self, grad: Option<Variable>) {
        self.tape.with(|g| self.v.set_grad(g, grad.map(|w| w.v)));
    }

    fn cleargrad(&self) {
        self.tape.with(|g| self.v.cleargrad(g));
    }

    fn creator(&self) -> Option<Function> {
        self.tape.with(|g| self.v.creator(g))
    }

    fn generation(&self) -> u32 {
        self.tape.with(|g| self.v.generation(g))
    }

    fn name(&self) -> Option<String> {
        self.tape.with(|g| self.v.name(g).cloned())
    }

    fn set_name(&self, name: Option<String>) {
        self.tape.with(|g| self.v.set_name(g, name));
    }

    fn shape(&self) -> Option<Vec<usize>> {
        self.tape.with(|g| self.v.shape(g))
    }

    fn ndim(&self) -> Option<usize> {
        self.tape.with(|g| self.v.ndim(g))
    }

    fn size(&self) -> Option<usize> {
        self.tape.with(|g| self.v.size(g))
    }

    fn len(&self) -> Option<usize> {
        self.tape.with(|g| self.v.len(g))
    }

    fn full_like(&self, value: f64) -> Option<Variable> {
        self.tape.with(|g| self.v.full_like(g, Real(value))).map(|v| self.tape.at(v))
    }

    fn backward(&self) {
        self.tape.with(|g| self.v.backward(g));
    }

    fn backward_with(&self, retain_grad: bool, create_graph: bool) {
        self.tape.with(|g| self.v.backward_with(g, retain_grad, create_graph));
    }

    fn unchain(&self) {
        self.tape.with(|g| self.v.unchain(g));
    }

    fn unchain_backward(&self) {
        self.tape.with(|g| self.v.unchain_backward(g));
    }

    /// Gives up the last handle to the variable.
    fn release(self) {
        self.tape.with(|g| self.v.release(g));
    }

    fn ext(&self, op: Ext) -> Variable {
        let v = self.tape.with(|g| apply1(g, op, &[self.v]));
        self.tape.at(v)
    }
}

fn unary(x: &Variable, f: impl FnOnce(&mut Net, &Handle) -> Handle) -> Variable {
    let v = x.tape.with(|g| f(g, &x.v));
    x.tape.at(v)
}

fn binary(
    a: &Variable,
    b: &Variable,
    f: impl FnOnce(&mut Net, &Handle, &Handle) -> Handle,
) -> Variable {
    let tape = &a.tape;
    let (u, v) = (tape.handle(a), tape.handle(b));
    let r = tape.with(|g| f(g, &u, &v));
    tape.at(r)
}

fn ternary(
    a: &Variable,
    b: &Variable,
    c: Option<&Variable>,
    f: impl FnOnce(&mut Net, &Handle, &Handle, Option<&Handle>) -> Handle,
) -> Variable {
    let tape = &a.tape;
    let (u, v, w) = (tape.handle(a), tape.handle(b), c.map(|c| tape.handle(c)));
    let r = tape.with(|g| f(g, &u, &v, w.as_ref()));
    tape.at(r)
}

fn add(a: &Variable, b: &Variable) -> Variable {
    binary(a, b, |g, u, v| dezero::engine::ops::add(g, u, v))
}

fn sub(a: &Variable, b: &Variable) -> Variable {
    binary(a, b, |g, u, v| dezero::engine::ops::sub(g, u, v))
}

fn mul(a: &Variable, b: &Variable) -> Variable {
    binary(a, b, |g, u, v| dezero::engine::ops::mul(g, u, v))
}

fn div(a: &Variable, b: &Variable) -> Variable {
    binary(a, b, |g, u, v| dezero::engine::ops::div(g, u, v))
}

impl ops::Mul<&Variable> for &Variable {
    type Output = Variable;

    fn mul(self, other: &Variable) -> Variable {
        mul(self, other)
    }
}

impl ops::Mul<f64> for &Variable {
    type Output = Variable;

    fn mul(self, other: f64) -> Variable {
        mul(self, &self.tape.scalar(other))
    }
}

impl ops::Mul<Variable> for f64 {
    type Output = Variable;

    fn mul(self, other: Variable) -> Variable {
        mul(&other.tape.scalar(self), &other)
    }
}

impl ops::Add<&Variable> for &Variable {
    type Output = Variable;

    fn add(self, other: &Variable) -> Variable {
        add(self, other)
    }
}

impl ops::Add<Variable> for Variable {
    type Output = Variable;

    fn add(self, other: Variable) -> Variable {
        add(&self, &other)
    }
}

impl ops::Sub<&Variable> for &Variable {
    type Output = Variable;

    fn sub(self, other: &Variable) -> Variable {
        sub(self, other)
    }
}

fn square(x: &Variable) -> Variable {
    unary(x, |g, v| dezero::functions::basic_math::square(g, v))
}

fn exp(x: &Variable) -> Variable {
    x.ext(Ext::Exp)
}

fn sin(x: &Variable) -> Variable {
    x.ext(Ext::Sin)
}

fn cos(x: &Variable) -> Variable {
    x.ext(Ext::Cos)
}

fn tanh(x: &Variable) -> Variable {
    x.ext(Ext::Tanh)
}

fn pow(x: &Variable, c: f64) -> Variable {
    x.ext(Ext::Pow(c))
}

fn relu(x: &Variable) -> Variable {
    unary(x, |g, v| dezero::functions::activation::relu(g, v))
}

fn sigmoid(x: &Variable) -> Variable {
    x.ext(Ext::Sigmoid)
}

fn softmax(x: &Variable) -> Variable {
    x.ext(Ext::Softmax(1))
}

fn softmax_axis(x: &Variable, axis: isize) -> Variable {
    x.ext(Ext::Softmax(axis))
}

fn softmax_cross_entropy(x: &Variable, labels: &[usize]) -> Variable {
    x.ext(Ext::CrossEntropy(labels.to_vec()))
}

fn mean_squared_error(a: &Variable, b: &Variable) -> Variable {
    binary(a, b, |g, u, v| dezero::functions::loss::mean_squared_error(g, u, v))
}

fn reshape(x: &Variable, shape: &[usize]) -> Variable {
    unary(x, |g, v| dezero::functions::shape::reshape(g, v, shape))
}

fn transpose(x: &Variable) -> Variable {
    unary(x, |g, v| dezero::functions::shape::transpose(g, v))
}

fn sum_all(x: &Variable) -> Variable {
    unary(x, |g, v| dezero::functions::reduce::sum_all(g, v))
}

fn sum(x: &Variable, axis: impl Into<Axes>, keepdims: bool) -> Variable {
    unary(x, |g, v| dezero::functions::reduce::sum(g, v, axis, keepdims))
}

fn sum_to(x: &Variable, shape: &[usize]) -> Variable {
    unary(x, |g, v| dezero::functions::reduce::sum_to(g, v, shape))
}

fn broadcast_to(x: &Variable, shape: &[usize]) -> Variable {
    unary(x, |g, v| dezero::functions::reduce::broadcast_to(g, v, shape))
}

fn matmul(x: &Variable, w: &Variable) -> Variable {
    binary(x, w, |g, u, v| dezero::functions::matmul::matmul(g, u, v))
}

fn linear(x: &Variable, w: &Variable, b: Option<&Variable>) -> Variable {
    ternary(x, w, b, |g, u, v, b| dezero::functions::matmul::linear(g, u, v, b))
}

const EPS: f64 = 1e-4;
const RTOL: f64 = 1e-4;
const ATOL: f64 = 1e-5;

fn data(v: &Variable) -> ArrayD<f64> {
    v.data().expect("variable holds data")
}

fn grad(v: &Variable) -> ArrayD<f64> {
    data(&v.grad().expect("variable has a gradient"))
}

/// Checks backpropagation through `f` against central differences at `x`.
fn gradient_check<F: Fn(&Variable) -> Variable>(
    f: F,
    x: &Variable,
    eps: f64,
    rtol: f64,
    atol: f64,
) -> Result<(), GradientCheckError<Real>> {
    let (g, verdict) = dezero::utils::numerical::gradient_check(
        x.tape.take(),
        &|g: Net, v: &Handle| x.tape.through(g, v, &f),
        &x.v,
        Real(eps),
        Real(rtol),
        Real(atol),
    );
    x.tape.put(g);
    verdict
}

// -- layers with their graph ---------------------------------------------------

/// What is sized by the number of features it is first given.
trait Sizing {
    /// Fills in the weights that are wanting, and says how many features come out.
    fn settle(&mut self, t: &Tape, in_size: usize) -> usize;
}

impl Tape {
    fn normal(&self, shape: &[usize]) -> Values {
        self.rng.borrow_mut().randn(shape, &|a: u64, b: u64| {
            let unit = |n: u64| n as f64 / 9_007_199_254_740_992.0;
            let radius = (-2.0 * (1.0 - unit(a)).ln()).sqrt();
            Real(radius * (std::f64::consts::TAU * unit(b)).cos())
        })
    }

    fn seed(&self, seed: u64) {
        dezero::utils::random::seed(&mut self.rng.borrow_mut(), seed);
    }
}

fn fan_in(n: usize) -> Real {
    weight_scale(n, &|x: Real| Real(x.0.sqrt()))
}

impl Sizing for DzLinear {
    fn settle(&mut self, t: &Tape, in_size: usize) -> usize {
        let (empty, out) = (t.at(*self.weight().as_variable()).data().is_none(), self.out_size());
        if empty {
            let draws = t.normal(&[in_size, out]);
            t.with(|g| self.init_weight(g, in_size, &draws, fan_in(in_size)));
        }
        out
    }
}

impl<A> Sizing for DzMlp<A> {
    fn settle(&mut self, t: &Tape, in_size: usize) -> usize {
        self.layers.iter_mut().fold(in_size, |size, layer| layer.settle(t, size))
    }
}

impl<L: Sizing> Sizing for DzSequential<L> {
    fn settle(&mut self, t: &Tape, in_size: usize) -> usize {
        self.layers.iter_mut().fold(in_size, |size, layer| layer.settle(t, size))
    }
}

impl<L: Sizing, R: Sizing> Sizing for Either<L, R> {
    fn settle(&mut self, t: &Tape, in_size: usize) -> usize {
        match self {
            Either::Left(l) => l.settle(t, in_size),
            Either::Right(r) => r.settle(t, in_size),
        }
    }
}

/// Makes one operation.
type Maker = fn() -> Ext;

/// A layer together with the graph that its parameters belong to.
struct Held<M> {
    tape: Tape,
    inner: RefCell<M>,
}

impl<M: Layer> Held<M> {
    fn around(tape: &Tape, inner: M) -> Self {
        Held { tape: tape.clone(), inner: RefCell::new(inner) }
    }

    fn listed(&self, ps: Vec<DzParameter>) -> Vec<Variable> {
        ps.into_iter().map(|p| self.tape.at(*p.as_variable())).collect()
    }

    fn params(&self) -> Vec<Variable> {
        self.listed(self.inner.borrow().params())
    }

    fn own_params(&self) -> Vec<Variable> {
        self.listed(self.inner.borrow().own_params())
    }

    fn sublayers(&self) -> Vec<ParamTree> {
        self.inner.borrow().sublayers()
    }

    fn cleargrads(&self) {
        self.tape.with(|g| self.inner.borrow().cleargrads(g));
    }

}

impl<M: Model<Real, Ext> + Sizing> Held<M> {
    fn forward(&self, x: &Variable) -> Variable {
        let features = x.shape().expect("data")[1];
        let mut inner = self.inner.borrow_mut();
        inner.settle(&self.tape, features);
        let v = self.tape.with(|g| inner.forward(g, &x.v));
        self.tape.at(v)
    }
}

type Linear = Held<DzLinear>;
type Mlp = Held<DzMlp<Maker>>;

fn make_sigmoid() -> Ext {
    Ext::Sigmoid
}

impl Held<DzLinear> {
    fn new(t: &Tape, out_size: usize) -> Self {
        Held::around(t, t.with(|g| DzLinear::new(g, out_size)))
    }

    fn with_in_size(t: &Tape, in_size: usize, out_size: usize) -> Self {
        let draws = t.normal(&[in_size, out_size]);
        let scale = fan_in(in_size);
        let inner = t.with(|g| DzLinear::with_in_size(g, in_size, out_size, &draws, scale));
        Held::around(t, inner)
    }

    fn without_bias(self) -> Self {
        Held { tape: self.tape, inner: RefCell::new(self.inner.into_inner().without_bias()) }
    }

    fn weight(&self) -> Variable {
        self.tape.at(*self.inner.borrow().weight().as_variable())
    }

    fn bias(&self) -> Option<Variable> {
        self.inner.borrow().bias().map(|b| self.tape.at(*b.as_variable()))
    }

    fn in_size(&self) -> Option<usize> {
        self.inner.borrow().in_size()
    }

    fn out_size(&self) -> usize {
        self.inner.borrow().out_size()
    }
}

impl Held<DzMlp<Maker>> {
    fn new(t: &Tape, sizes: &[usize]) -> Self {
        Self::with_activation(t, sizes, make_sigmoid)
    }

    fn with_activation(t: &Tape, sizes: &[usize], activation: Maker) -> Self {
        Held::around(t, t.with(|g| DzMlp::with_activation(g, sizes, activation)))
    }

}

// -- optimizers with their graph -------------------------------------------------

type Parameter = Variable;

fn bare(ps: &[Parameter]) -> Vec<DzParameter> {
    ps.iter().map(|p| DzParameter::wrap(p.v)).collect()
}

impl Tape {
    fn param(&self, data: ArrayD<f64>) -> Parameter {
        let p = self.with(|g| DzParameter::new(g, tensor(&data)));
        self.at(*p.as_variable())
    }
}

fn root(a: Real) -> Real {
    Real(a.0.sqrt())
}

type Clip = DzClip<Real, fn(Real) -> Real>;

/// One of the hooks, or one that only looks on.
#[derive(Debug)]
enum AnyHook {
    Decay(DzDecay<Real>),
    Clip(Clip),
    Freeze(DzFreeze),
    Spy(Rc<Spy>),
    Shared(Rc<AnyHook>),
}

/// Records the parameter list it was handed, and when.
#[derive(Debug, Default)]
struct Spy {
    seen: RefCell<Vec<Vec<usize>>>,
}

impl Hook<Real, Ext> for AnyHook {
    fn call(&self, g: &mut Net, ps: &[DzParameter]) {
        match self {
            AnyHook::Decay(hook) => hook.call(g, ps),
            AnyHook::Clip(hook) => hook.call(g, ps),
            AnyHook::Freeze(hook) => hook.call(g, ps),
            AnyHook::Spy(spy) => {
                spy.seen.borrow_mut().push(ps.iter().map(|p| p.as_variable().id()).collect())
            }
            AnyHook::Shared(hook) => Hook::call(&**hook, g, ps),
        }
    }
}

impl AnyHook {
    fn call(&self, ps: &[Parameter]) {
        let tape = &ps[0].tape;
        tape.with(|g| Hook::call(self, g, &bare(ps)));
    }
}

fn decay(rate: f64) -> AnyHook {
    AnyHook::Decay(DzDecay::new(Real(rate)))
}

fn bounds(max_norm: f64) -> Clip {
    DzClip::new(Real(max_norm), root, Real(1e-6))
}

fn clip(max_norm: f64) -> AnyHook {
    AnyHook::Clip(bounds(max_norm))
}

fn total_norm(ps: &[Parameter]) -> f64 {
    let hook = bounds(1.0);
    match ps.first() {
        Some(p) => p.tape.with(|g| hook.total_norm(g, &bare(ps))).0,
        None => Tape::new().with(|g| hook.total_norm(g, &[])).0,
    }
}

fn freeze(ps: &[Parameter]) -> AnyHook {
    AnyHook::Freeze(DzFreeze::new(bare(ps)))
}

struct Opt<P> {
    tape: Tape,
    inner: P,
}

impl<P: Optimizer<Real, Ext, AnyHook>> Opt<P> {
    fn setup<M: Layer>(&mut self, model: &Held<M>) {
        setup(&mut self.inner, &*model.inner.borrow());
    }

    fn set_params(&mut self, params: Vec<Parameter>) {
        self.inner.set_params(bare(&params));
    }

    fn params(&self) -> Vec<Parameter> {
        self.inner.params().iter().map(|p| self.tape.at(*p.as_variable())).collect()
    }

    fn hooks(&self) -> &[AnyHook] {
        self.inner.hooks()
    }

    fn add_hook(&mut self, hook: AnyHook) {
        self.inner.add_hook(hook);
    }

    fn clear_hooks(&mut self) {
        self.inner.clear_hooks();
    }

    fn update(&mut self) {
        let Opt { tape, inner } = self;
        tape.with(|g| update(inner, g));
    }
}

fn sgd(t: &Tape, learning_rate: f64) -> Opt<DzSgd<Real, AnyHook>> {
    Opt { tape: t.clone(), inner: DzSgd::new(Real(learning_rate)) }
}

fn momentum(t: &Tape, learning_rate: f64, momentum: f64) -> Opt<DzMomentum<Real, AnyHook>> {
    Opt { tape: t.clone(), inner: DzMomentum::new(Real(learning_rate), Real(momentum)) }
}

impl Opt<DzMomentum<Real, AnyHook>> {
    fn velocity(&self, p: &Parameter) -> Option<ArrayD<f64>> {
        self.inner.velocity(&DzParameter::wrap(p.v)).map(array_of)
    }
}

/// The smallest possible optimizer: records which parameters it was asked to update, and
/// moves each one by a fixed amount.
#[derive(Default)]
struct Recorder {
    params: Vec<DzParameter>,
    hooks: Vec<AnyHook>,
    touched: Vec<usize>,
}

impl Optimizer<Real, Ext, AnyHook> for Recorder {
    fn shapes_decide(&self, _a: Snapshot<Real>, _b: Snapshot<Real>, _p: DzParameter) {}

    fn params(&self) -> &[DzParameter] {
        &self.params
    }

    fn set_params(&mut self, params: Vec<DzParameter>) {
        self.params = params;
    }

    fn hooks(&self) -> &[AnyHook] {
        &self.hooks
    }

    fn add_hook(&mut self, hook: AnyHook) {
        self.hooks.push(hook);
    }

    fn clear_hooks(&mut self) {
        self.hooks.clear();
    }

    fn update_one(&mut self, g: &mut Net, param: &DzParameter) {
        let v = *param.as_variable();
        self.touched.push(v.id());
        if let Some(a) = v.data(g).map(array_of) {
            v.set_data(g, tensor(&a.mapv(|v| v + 1.0)));
        }
    }
}

fn recorder(t: &Tape) -> Opt<Recorder> {
    Opt { tape: t.clone(), inner: Recorder::default() }
}

fn with_grad(t: &Tape, values: &[f64], grad: &[f64]) -> Parameter {
    let p = t.param(arr1(values).into_dyn());
    p.set_grad(Some(t.var(arr1(grad).into_dyn())));
    p
}

fn param(t: &Tape, values: &[f64], grad: &[f64]) -> Parameter {
    let p = t.param(arr1(values).into_dyn());
    p.set_grad(Some(t.var(arr1(grad).into_dyn())));
    p
}

fn grad_of(param: &Parameter) -> ArrayD<f64> {
    param.grad().and_then(|g| g.data()).expect("a gradient")
}

// -- WeightDecay -------------------------------------------------------

#[test]
fn weight_decay_adds_a_multiple_of_the_weight() {
    let t = Tape::new();
    let w = param(&t, &[1.0, -2.0], &[0.1, 0.2]);
    decay(0.5).call(&[w.clone()]);
    assert_eq!(grad_of(&w), arr1(&[0.6, -0.8]).into_dyn());
}

#[test]
fn weight_decay_of_zero_changes_nothing() {
    let t = Tape::new();
    let w = param(&t, &[1.0, -2.0], &[0.1, 0.2]);
    decay(0.0).call(&[w.clone()]);
    assert_eq!(grad_of(&w), arr1(&[0.1, 0.2]).into_dyn());
}

#[test]
fn weight_decay_visits_every_parameter() {
    let t = Tape::new();
    let a = param(&t, &[1.0], &[0.0]);
    let b = param(&t, &[2.0], &[0.0]);
    decay(1.0).call(&[a.clone(), b.clone()]);
    assert_eq!(grad_of(&a), arr1(&[1.0]).into_dyn());
    assert_eq!(grad_of(&b), arr1(&[2.0]).into_dyn());
}

#[test]
fn weight_decay_works_on_a_matrix_parameter() {
    let t = Tape::new();
    let w = t.param(arr2(&[[1.0, -2.0], [3.0, -4.0]]).into_dyn());
    w.set_grad(Some(t.var(
        arr2(&[[0.1, 0.2], [0.3, 0.4]]).into_dyn(),
    )));
    decay(0.1).call(&[w.clone()]);
    assert_eq!(
        grad_of(&w),
        arr2(&[[0.2, 0.0], [0.3 + 0.1 * 3.0, 0.0]]).into_dyn()
    );
}

#[test]
fn weight_decay_skips_a_parameter_with_no_data() {
    let t = Tape::new();
    let w = t.empty();
    w.set_grad(Some(t.var(arr1(&[1.0]).into_dyn())));
    decay(0.5).call(&[w.clone()]);
    assert_eq!(grad_of(&w), arr1(&[1.0]).into_dyn(), "left alone");
}

#[test]
fn weight_decay_skips_a_parameter_with_no_gradient() {
    let t = Tape::new();
    let w = t.param(arr1(&[1.0]).into_dyn());
    decay(0.5).call(&[w.clone()]);
    assert!(w.grad().is_none(), "a hook does not invent a gradient");
}

#[test]
fn the_decay_rate_is_readable() {
    assert!((DzDecay::new(Real(0.25)).rate().0 - 0.25).abs() < f64::EPSILON);
}

// -- ClipGrad ----------------------------------------------------------

#[test]
fn clipping_scales_every_gradient_by_the_same_factor() {
    let t = Tape::new();
    let a = param(&t, &[0.0], &[3.0]);
    let b = param(&t, &[0.0], &[4.0]);
    clip(1.0).call(&[a.clone(), b.clone()]);

    let (ga, gb) = (grad_of(&a)[[0]], grad_of(&b)[[0]]);
    assert!((ga - 0.6).abs() < 1e-6, "{ga}");
    assert!((gb - 0.8).abs() < 1e-6, "{gb}");
    assert!(
        (ga / gb - 3.0 / 4.0).abs() < 1e-12,
        "the direction is unchanged"
    );
}

#[test]
fn clipping_below_the_cap_is_a_no_op() {
    let t = Tape::new();
    let a = param(&t, &[0.0], &[3.0]);
    let b = param(&t, &[0.0], &[4.0]);
    clip(100.0).call(&[a.clone(), b.clone()]);
    assert_eq!(grad_of(&a), arr1(&[3.0]).into_dyn());
    assert_eq!(grad_of(&b), arr1(&[4.0]).into_dyn());
}

#[test]
fn the_norm_is_joint_not_per_parameter() {
    let t = Tape::new();
    // Two gradients of norm 1 each: jointly sqrt(2), so a cap of 1.2 fires
    // even though neither one exceeds it on its own.
    let a = param(&t, &[0.0], &[1.0]);
    let b = param(&t, &[0.0], &[1.0]);
    assert!((total_norm(&[a.clone(), b.clone()]) - 2.0_f64.sqrt()).abs() < 1e-12);

    clip(1.2).call(&[a.clone(), b.clone()]);
    assert!(
        grad_of(&a)[[0]] < 1.0,
        "clipped despite being under the cap"
    );
}

#[test]
fn clipping_an_all_zero_gradient_does_not_divide_by_zero() {
    let t = Tape::new();
    let w = param(&t, &[1.0], &[0.0]);
    clip(0.5).call(&[w.clone()]);
    assert_eq!(grad_of(&w), arr1(&[0.0]).into_dyn());
    assert!(grad_of(&w)[[0]].is_finite());
}

/// The epsilon makes the cap very slightly conservative: at exactly
/// `max_norm` the rate is a hair below 1, so the gradient *is* scaled.
#[test]
fn a_norm_exactly_at_the_cap_is_scaled_by_the_epsilon() {
    let t = Tape::new();
    let w = param(&t, &[0.0], &[5.0]);
    clip(5.0).call(&[w.clone()]);
    let scaled = grad_of(&w)[[0]];
    assert!(scaled < 5.0 && scaled > 4.999_99, "{scaled}");
}

#[test]
fn clipping_ignores_a_parameter_without_a_gradient() {
    let t = Tape::new();
    let with = param(&t, &[0.0], &[10.0]);
    let without = t.param(arr1(&[1.0]).into_dyn());
    clip(1.0).call(&[with.clone(), without.clone()]);
    assert!(grad_of(&with)[[0]] < 1.001);
    assert!(without.grad().is_none());
}

#[test]
fn clipping_handles_a_matrix_gradient() {
    let t = Tape::new();
    let w = t.param(arr2(&[[0.0, 0.0], [0.0, 0.0]]).into_dyn());
    w.set_grad(Some(t.var(
        arr2(&[[3.0, 0.0], [0.0, 4.0]]).into_dyn(),
    )));
    clip(1.0).call(&[w.clone()]);
    let g = grad_of(&w);
    assert!((g[[0, 0]] - 0.6).abs() < 1e-6);
    assert!((g[[1, 1]] - 0.8).abs() < 1e-6);
}

#[test]
fn the_cap_is_readable() {
    assert!((bounds(7.5).max_norm().0 - 7.5).abs() < f64::EPSILON);
    assert_eq!(total_norm(&[]), 0.0, "no gradients, no norm");
}

// -- FreezeParam -------------------------------------------------------

#[test]
fn freezing_clears_the_gradients_it_was_given() {
    let t = Tape::new();
    let frozen = param(&t, &[1.0], &[5.0]);
    let free = param(&t, &[1.0], &[5.0]);

    freeze(&[frozen.clone()]).call(&[frozen.clone(), free.clone()]);

    assert!(frozen.grad().is_none());
    assert_eq!(grad_of(&free), arr1(&[5.0]).into_dyn(), "untouched");
}

/// The reason freezing clears rather than zeroes: a frozen parameter must
/// not move, and only a missing gradient guarantees that under every rule.
#[test]
fn a_frozen_parameter_does_not_move_under_sgd() {
    let t = Tape::new();
    let frozen = param(&t, &[10.0], &[1.0]);
    let free = param(&t, &[10.0], &[1.0]);

    let mut optimizer = sgd(&t, 0.5);
    optimizer.set_params(vec![frozen.clone(), free.clone()]);
    optimizer.add_hook(freeze(&[frozen.clone()]));
    optimizer.update();

    assert_eq!(frozen.data(), Some(arr1(&[10.0]).into_dyn()));
    assert_eq!(free.data(), Some(arr1(&[9.5]).into_dyn()));
}

// -- composition -------------------------------------------------------

#[test]
fn hooks_run_in_the_order_they_were_added() {
    let t = Tape::new();
    // Decay then clip is not the same as clip then decay; the order the
    // optimizer applies them in must be the insertion order.
    let decay_then_clip = param(&t, &[10.0], &[1.0]);
    let clip_then_decay = param(&t, &[10.0], &[1.0]);

    let mut first = sgd(&t, 0.0);
    first.set_params(vec![decay_then_clip.clone()]);
    first.add_hook(decay(1.0));
    first.add_hook(clip(1.0));
    first.update();

    let mut second = sgd(&t, 0.0);
    second.set_params(vec![clip_then_decay.clone()]);
    second.add_hook(clip(1.0));
    second.add_hook(decay(1.0));
    second.update();

    // (1 + 10) clipped to ~1 vs 1 clipped to ~1 then + 10.
    assert!(grad_of(&decay_then_clip)[[0]] < 1.001);
    assert!(grad_of(&clip_then_decay)[[0]] > 10.9);
}

#[test]
fn a_hook_can_be_shared_between_optimizers() {
    let t = Tape::new();
    let shared = Rc::new(decay(0.5));
    let w = param(&t, &[2.0], &[0.0]);

    let mut a = sgd(&t, 0.0);
    a.set_params(vec![w.clone()]);
    a.add_hook(AnyHook::Shared(Rc::clone(&shared)));

    let mut b = sgd(&t, 0.0);
    b.set_params(vec![w.clone()]);
    b.add_hook(AnyHook::Shared(shared));

    a.update();
    b.update();
    assert_eq!(grad_of(&w), arr1(&[2.0]).into_dyn(), "0.5 * 2, twice");
}

#[test]
fn hooks_render_inside_an_optimizers_debug_output() {
    let t = Tape::new();
    let mut optimizer = sgd(&t, 0.1);
    optimizer.add_hook(clip(2.0));
    let rendered = format!("{:?}", optimizer.inner);
    assert!(rendered.contains("ClipGrad"), "{rendered}");
}

#[test]
fn setup_registers_a_layers_parameters() {
    let t = Tape::new();
    let model = Linear::with_in_size(&t, 3, 2);
    let mut optimizer = recorder(&t);
    optimizer.setup(&model);

    assert_eq!(optimizer.params().len(), 2);
    assert_eq!(optimizer.params()[0].id(), model.weight().id());
}

#[test]
fn update_skips_parameters_without_a_gradient() {
    let t = Tape::new();
    let with = with_grad(&t, &[1.0], &[0.5]);
    let without = t.param(arr1(&[1.0]).into_dyn());

    let mut optimizer = recorder(&t);
    optimizer.set_params(vec![with.clone(), without.clone()]);
    optimizer.update();

    assert_eq!(optimizer.inner.touched, vec![with.id()]);
    assert_eq!(with.data(), Some(arr1(&[2.0]).into_dyn()));
    assert_eq!(without.data(), Some(arr1(&[1.0]).into_dyn()), "untouched");
}

#[test]
fn update_visits_every_parameter_that_has_one() {
    let t = Tape::new();
    let a = with_grad(&t, &[1.0], &[1.0]);
    let b = with_grad(&t, &[2.0], &[1.0]);
    let mut optimizer = recorder(&t);
    optimizer.set_params(vec![a.clone(), b.clone()]);
    optimizer.update();
    assert_eq!(optimizer.inner.touched, vec![a.id(), b.id()]);
}

#[test]
fn a_second_setup_replaces_the_registration() {
    let t = Tape::new();
    let first = Linear::with_in_size(&t, 3, 2);
    let second = Linear::with_in_size(&t, 3, 2).without_bias();

    let mut optimizer = recorder(&t);
    optimizer.setup(&first);
    assert_eq!(optimizer.params().len(), 2);
    optimizer.setup(&second);
    assert_eq!(optimizer.params().len(), 1);
    assert_eq!(optimizer.params()[0].id(), second.weight().id());
}

#[test]
fn an_optimizer_starts_with_no_hooks() {
    let t = Tape::new();
    let optimizer = recorder(&t);
    assert!(optimizer.hooks().is_empty());
}

#[test]
fn add_hook_registers_in_order_and_clear_hook_removes_them() {
    let t = Tape::new();
    let mut optimizer = recorder(&t);
    optimizer.add_hook(decay(0.1));
    optimizer.add_hook(clip(1.0));
    assert_eq!(optimizer.hooks().len(), 2);
    assert!(format!("{:?}", optimizer.hooks()[0]).contains("WeightDecay"));
    assert!(format!("{:?}", optimizer.hooks()[1]).contains("ClipGrad"));

    optimizer.clear_hooks();
    assert!(optimizer.hooks().is_empty());
}

#[test]
fn hooks_see_the_filtered_list_before_any_update() {
    let t = Tape::new();
    let with = with_grad(&t, &[1.0], &[0.5]);
    let without = t.param(arr1(&[1.0]).into_dyn());

    let spy = Rc::new(Spy::default());
    let mut optimizer = recorder(&t);
    optimizer.set_params(vec![with.clone(), without.clone()]);
    optimizer.add_hook(AnyHook::Spy(Rc::clone(&spy)));
    optimizer.update();

    assert_eq!(
        *spy.seen.borrow(),
        vec![vec![with.id()]],
        "called once, with the parameters that have a gradient"
    );
    assert!(
        optimizer.inner.touched.iter().all(|id| *id == with.id()),
        "and the step happened after"
    );
}

#[test]
fn a_hook_runs_once_per_update_not_once_per_parameter() {
    let t = Tape::new();
    let a = with_grad(&t, &[1.0], &[1.0]);
    let b = with_grad(&t, &[2.0], &[1.0]);

    let spy = Rc::new(Spy::default());
    let mut optimizer = recorder(&t);
    optimizer.set_params(vec![a, b]);
    optimizer.add_hook(AnyHook::Spy(Rc::clone(&spy)));

    optimizer.update();
    optimizer.update();

    let seen = spy.seen.borrow();
    assert_eq!(seen.len(), 2, "two updates, two calls");
    assert_eq!(seen[0].len(), 2, "both parameters, in one call");
}

/// The snapshot is taken before the hooks, so a hook that clears a gradient
/// does not shorten the list being iterated — `update_one` still gets the
/// parameter and has to cope with the gradient being gone.
#[test]
fn a_hook_that_clears_a_gradient_does_not_shrink_the_pass() {
    let t = Tape::new();
    let w = with_grad(&t, &[1.0], &[1.0]);
    let mut optimizer = recorder(&t);
    optimizer.set_params(vec![w.clone()]);
    optimizer.add_hook(freeze(&[w.clone()]));
    optimizer.update();

    assert_eq!(
        optimizer.inner.touched,
        vec![w.id()],
        "update_one was still called for it"
    );
    assert!(w.grad().is_none());
}

#[test]
fn the_first_step_is_plain_gradient_descent() {
    let t = Tape::new();
    let w = with_grad(&t, &[1.0], &[2.0]);
    let mut optimizer = momentum(&t, 0.5, 0.9);
    optimizer.set_params(vec![w.clone()]);
    optimizer.update();
    assert_eq!(w.data(), Some(arr1(&[0.0]).into_dyn()), "1 - 0.5 * 2");
}

#[test]
fn velocity_accumulates_across_steps() {
    let t = Tape::new();
    // lr = 0.1, momentum = 0.9, constant gradient of 1:
    //   v1 = -0.1                    -> x = -0.1
    //   v2 = 0.9(-0.1) - 0.1 = -0.19 -> x = -0.29
    //   v3 = 0.9(-0.19) - 0.1 = -0.271 -> x = -0.561
    let w = with_grad(&t, &[0.0], &[1.0]);
    let mut optimizer = momentum(&t, 0.1, 0.9);
    optimizer.set_params(vec![w.clone()]);

    for expected in [-0.1, -0.29, -0.561] {
        optimizer.update();
        let value = w.data().expect("data").sum();
        assert!((value - expected).abs() < 1e-12, "{value} vs {expected}");
    }
}

#[test]
fn zero_momentum_is_exactly_plain_descent() {
    let t = Tape::new();
    let momentum_free = with_grad(&t, &[0.0], &[1.0]);
    let mut optimizer = momentum(&t, 0.25, 0.0);
    optimizer.set_params(vec![momentum_free.clone()]);

    let plain = with_grad(&t, &[0.0], &[1.0]);
    let mut other = sgd(&t, 0.25);
    other.set_params(vec![plain.clone()]);

    for _ in 0..5 {
        optimizer.update();
        other.update();
        assert_eq!(momentum_free.data(), plain.data());
    }
}

#[test]
fn velocity_carries_the_parameter_after_the_gradient_vanishes() {
    let t = Tape::new();
    let w = with_grad(&t, &[0.0], &[1.0]);
    let mut optimizer = momentum(&t, 0.1, 0.9);
    optimizer.set_params(vec![w.clone()]);
    optimizer.update();
    optimizer.update();
    let coasting_from = w.data().expect("data").sum();

    w.set_grad(Some(t.var(arr1(&[0.0]).into_dyn())));
    optimizer.update();
    let after = w.data().expect("data").sum();
    assert!(
        after < coasting_from,
        "it should coast: {coasting_from} -> {after}"
    );
    // v was -0.19; decayed by 0.9 it is -0.171.
    assert!((after - (coasting_from - 0.171)).abs() < 1e-12);
}

#[test]
fn each_parameter_keeps_its_own_velocity() {
    let t = Tape::new();
    let fast = with_grad(&t, &[0.0], &[1.0]);
    let slow = with_grad(&t, &[0.0], &[0.1]);
    let mut optimizer = momentum(&t, 0.1, 0.9);
    optimizer.set_params(vec![fast.clone(), slow.clone()]);
    optimizer.update();
    optimizer.update();

    let fast_velocity = optimizer.velocity(&fast).expect("velocity").sum();
    let slow_velocity = optimizer.velocity(&slow).expect("velocity").sum();
    assert!((fast_velocity + 0.19).abs() < 1e-12);
    assert!((slow_velocity + 0.019).abs() < 1e-12);
    assert!(optimizer.velocity(&t.empty()).is_none());
}

#[test]
fn clearing_velocities_restarts_from_rest() {
    let t = Tape::new();
    let w = with_grad(&t, &[0.0], &[1.0]);
    let mut optimizer = momentum(&t, 0.1, 0.9);
    optimizer.set_params(vec![w.clone()]);
    optimizer.update();
    optimizer.update();

    optimizer.inner.clear_velocities();
    assert!(optimizer.velocity(&w).is_none());

    let before = w.data().expect("data").sum();
    optimizer.update();
    let step = w.data().expect("data").sum() - before;
    assert!((step + 0.1).abs() < 1e-12, "a fresh first step, {step}");
}

#[test]
fn the_velocity_has_the_parameters_shape() {
    let t = Tape::new();
    let w = t.param(arr2(&[[1.0, 2.0], [3.0, 4.0]]).into_dyn());
    w.set_grad(Some(t.var(
        arr2(&[[1.0, 0.0], [0.0, 1.0]]).into_dyn(),
    )));
    let mut optimizer = momentum(&t, 0.5, 0.5);
    optimizer.set_params(vec![w.clone()]);
    optimizer.update();

    assert_eq!(optimizer.velocity(&w).expect("velocity").shape(), &[2, 2]);
    assert_eq!(w.data(), Some(arr2(&[[0.5, 2.0], [3.0, 3.5]]).into_dyn()));
}

#[test]
fn an_uninitialised_parameter_gets_no_velocity() {
    let t = Tape::new();
    let w = t.empty();
    w.set_grad(Some(t.var(arr1(&[1.0]).into_dyn())));
    let mut optimizer = momentum(&t, 0.1, 0.9);
    optimizer.set_params(vec![w.clone()]);
    optimizer.update();
    assert!(w.data().is_none());
    assert!(optimizer.velocity(&w).is_none());
}

#[test]
fn accessors_report_the_hyperparameters() {
    let t = Tape::new();
    let optimizer = momentum(&t, 0.01, 0.95);
    assert!((optimizer.inner.learning_rate().0 - 0.01).abs() < f64::EPSILON);
    assert!((optimizer.inner.momentum().0 - 0.95).abs() < f64::EPSILON);
}

#[test]
fn one_step_moves_against_the_gradient() {
    let t = Tape::new();
    let w = with_grad(&t, &[1.0, 2.0, 3.0], &[1.0, 0.0, -2.0]);
    let mut optimizer = sgd(&t, 0.5);
    optimizer.set_params(vec![w.clone()]);
    optimizer.update();
    assert_eq!(w.data(), Some(arr1(&[0.5, 2.0, 4.0]).into_dyn()));
}

#[test]
fn a_zero_learning_rate_changes_nothing() {
    let t = Tape::new();
    let w = with_grad(&t, &[1.0, 2.0], &[5.0, 5.0]);
    let mut optimizer = sgd(&t, 0.0);
    optimizer.set_params(vec![w.clone()]);
    optimizer.update();
    assert_eq!(w.data(), Some(arr1(&[1.0, 2.0]).into_dyn()));
}

#[test]
fn sgd_is_stateless_across_steps() {
    let t = Tape::new();
    let w = with_grad(&t, &[0.0], &[1.0]);
    let mut optimizer = sgd(&t, 0.25);
    optimizer.set_params(vec![w.clone()]);
    optimizer.update();
    optimizer.update();
    assert_eq!(w.data(), Some(arr1(&[-0.5]).into_dyn()));
}

#[test]
fn the_learning_rate_can_be_rescheduled() {
    let t = Tape::new();
    let w = with_grad(&t, &[0.0], &[1.0]);
    let mut optimizer = sgd(&t, 1.0);
    optimizer.set_params(vec![w.clone()]);
    optimizer.update();
    assert_eq!(w.data(), Some(arr1(&[-1.0]).into_dyn()));

    optimizer.inner.set_learning_rate(Real(0.5));
    assert!((optimizer.inner.learning_rate().0 - 0.5).abs() < f64::EPSILON);
    optimizer.update();
    assert_eq!(w.data(), Some(arr1(&[-1.5]).into_dyn()));
}

#[test]
fn an_uninitialised_parameter_is_left_alone() {
    let t = Tape::new();
    let w = t.empty();
    w.set_grad(Some(t.var(arr1(&[1.0]).into_dyn())));
    let mut optimizer = sgd(&t, 0.1);
    optimizer.set_params(vec![w.clone()]);
    optimizer.update();
    assert!(w.data().is_none());
}

#[test]
fn a_matrix_parameter_updates_elementwise() {
    let t = Tape::new();
    let w = t.param(arr2(&[[1.0, 2.0], [3.0, 4.0]]).into_dyn());
    w.set_grad(Some(t.var(
        arr2(&[[1.0, 1.0], [2.0, 2.0]]).into_dyn(),
    )));
    let mut optimizer = sgd(&t, 0.5);
    optimizer.set_params(vec![w.clone()]);
    optimizer.update();
    assert_eq!(w.data(), Some(arr2(&[[0.5, 1.5], [2.0, 3.0]]).into_dyn()));
}

/// End to end: a real network, a real loss, and a parameter that visibly
/// moves in the direction that lowers it.
#[test]
fn training_a_layer_reduces_its_loss() {
    let t = Tape::new();
    let model = Linear::with_in_size(&t, 1, 1);
    let x = t.var(arr2(&[[1.0], [2.0], [3.0]]).into_dyn());
    let target = t.var(arr2(&[[3.0], [5.0], [7.0]]).into_dyn()); // y = 2x + 1

    let loss_of = |model: &Linear| {
        mean_squared_error(&model.forward(&x), &target)
            .data()
            .expect("loss")
            .sum()
    };

    let before = loss_of(&model);
    let weight_before = model.weight().data();

    let mut optimizer = sgd(&t, 0.05);
    optimizer.setup(&model);
    for _ in 0..2000 {
        let loss = mean_squared_error(&model.forward(&x), &target);
        model.cleargrads();
        loss.backward();
        optimizer.update();
    }

    let after = loss_of(&model);
    assert!(after < before, "the loss must fall: {before} -> {after}");
    assert_ne!(model.weight().data(), weight_before, "the weight moved");
    assert!(after < 1e-6, "and the fit is essentially exact: {after}");
}

#[test]
fn freezing_ignores_the_list_it_is_handed() {
    let t = Tape::new();
    let frozen = param(&t, &[1.0], &[5.0]);
    let hook = freeze(&[frozen.clone()]);
    t.with(|g| Hook::call(&hook, g, &[]));
    assert!(frozen.grad().is_none());
}

#[test]
fn a_layer_freezes_all_of_its_parameters() {
    let t = Tape::new();
    let layer = Linear::with_in_size(&t, 2, 3);
    let hook = DzFreeze::from_layer(&*layer.inner.borrow());
    assert_eq!(hook.params().len(), 2, "W and b");

    for p in layer.params() {
        p.set_grad(Some(t.var(arr1(&[1.0]).into_dyn())));
    }
    t.with(|g| hook.call(g, &[]));
    assert!(layer.params().iter().all(|p| p.grad().is_none()));
}

#[test]
fn freezing_accumulates_layers_and_parameters() {
    let t = Tape::new();
    let first = Linear::with_in_size(&t, 2, 2);
    let second = Linear::with_in_size(&t, 2, 2);
    let loose = t.param(arr1(&[1.0]).into_dyn());

    let hook = DzFreeze::from_layer(&*first.inner.borrow())
        .and_layer(&*second.inner.borrow())
        .and_param(DzParameter::wrap(loose.v));
    assert_eq!(hook.params().len(), 5, "2 + 2 + 1");
}

#[test]
fn an_empty_freeze_is_harmless() {
    let t = Tape::new();
    let w = param(&t, &[1.0], &[2.0]);
    AnyHook::Freeze(DzFreeze::default()).call(&[w.clone()]);
    assert_eq!(grad_of(&w), arr1(&[2.0]).into_dyn());
}

#[test]
fn data_and_grad_reports_a_missing_half() {
    fn halves(p: &Parameter) -> Option<(ArrayD<f64>, ArrayD<f64>)> {
        p.tape.with(|g| {
            dezero::optim::data_and_grad(g, &DzParameter::wrap(p.v))
                .map(|(data, grad, _)| (array_of(data), array_of(grad)))
        })
    }
    let t = Tape::new();
    assert!(halves(&t.empty()).is_none());

    let no_gradient = t.param(arr1(&[1.0]).into_dyn());
    assert!(halves(&no_gradient).is_none());

    let complete = with_grad(&t, &[1.0], &[2.0]);
    let (data, grad) = halves(&complete).expect("both halves");
    assert_eq!(data, arr1(&[1.0]).into_dyn());
    assert_eq!(grad, arr1(&[2.0]).into_dyn());
}

#[test]
fn momentum_converges_faster_than_plain_descent() {
    fn train<P: Optimizer<Real, Ext, AnyHook>>(
        model: &Linear,
        optimizer: &mut Opt<P>,
        x: &Variable,
        target: &Variable,
    ) -> f64 {
        optimizer.setup(model);
        for _ in 0..100 {
            let loss = mean_squared_error(&model.forward(x), target);
            model.cleargrads();
            loss.backward();
            optimizer.update();
        }
        data(&mean_squared_error(&model.forward(x), target)).sum()
    }

    let t = Tape::new();
    let x = t.var(arr2(&[[1.0], [2.0], [3.0]]).into_dyn());
    let target = t.var(arr2(&[[3.0], [5.0], [7.0]]).into_dyn());
    let plain = Linear::with_in_size(&t, 1, 1);
    let accelerated = Linear::with_in_size(&t, 1, 1);
    for model in [&plain, &accelerated] {
        model.weight().set_data(arr2(&[[0.0]]).into_dyn());
    }

    let plain_loss = train(&plain, &mut sgd(&t, 0.01), &x, &target);
    let momentum_loss = train(&accelerated, &mut momentum(&t, 0.01, 0.9), &x, &target);

    assert!(
        momentum_loss < plain_loss,
        "momentum {momentum_loss} should beat plain {plain_loss}"
    );
}

#[test]
fn setup_reaches_the_parameters_of_a_nested_model() {
    let t = Tape::new();
    let model = Held::around(
        &t,
        DzSequential::new(vec![
            Linear::with_in_size(&t, 2, 3).inner.into_inner(),
            Linear::with_in_size(&t, 3, 1).inner.into_inner(),
        ]),
    );
    let mut optimizer = sgd(&t, 0.1);
    optimizer.setup(&model);
    assert_eq!(optimizer.params().len(), 4);

    let x = t.var(arr2(&[[1.0, 2.0]]).into_dyn());
    let before: Vec<_> = optimizer.params().iter().map(|p| p.data()).collect();

    sum_all(&model.forward(&x)).backward();
    optimizer.update();

    let after: Vec<_> = optimizer.params().iter().map(|p| p.data()).collect();
    assert!(
        before.iter().zip(&after).all(|(b, a)| b != a),
        "every parameter of every layer moved"
    );
}

/// A model three levels deep: an `Mlp` and a pipeline of bare layers inside a pipeline.
#[test]
fn a_model_can_be_trained_through_the_trait_object() {
    let t = Tape::new();
    let first = Mlp::new(&t, &[6, 4]).inner.into_inner();
    let rest = DzSequential::new(vec![
        Linear::new(&t, 3).inner.into_inner(),
        Linear::new(&t, 1).inner.into_inner(),
    ]);
    let model = Held::around(
        &t,
        DzSequential::new(vec![Either::Left(first), Either::Right(rest)]),
    );

    let mut optimizer = sgd(&t, 0.05);
    optimizer.setup(&model);
    assert_eq!(optimizer.params().len(), 8);

    let before: Vec<_> = model.params().iter().map(|p| p.data()).collect();
    let x = t.var(arr2(&[[1.0, 2.0], [3.0, 4.0]]).into_dyn());
    sum_all(&model.forward(&x)).backward();
    optimizer.update();

    let after: Vec<_> = model.params().iter().map(|p| p.data()).collect();
    assert_ne!(before, after, "the update reached the nested parameters");
}

#[test]
fn a_parameter_without_a_gradient_may_outgrow_its_velocity() {
    let t = Tape::new();
    let (w, v) = (with_grad(&t, &[0.0], &[1.0]), with_grad(&t, &[0.0], &[1.0]));
    let mut optimizer = momentum(&t, 0.5, 0.0);
    optimizer.set_params(vec![w.clone(), v.clone()]);
    optimizer.update();

    w.set_grad(None);
    w.set_data(arr1(&[7.0, 8.0]).into_dyn());
    optimizer.update();
    assert_eq!(w.data(), Some(arr1(&[7.0, 8.0]).into_dyn()), "left alone");
    assert_eq!(v.data(), Some(arr1(&[-1.0]).into_dyn()), "stepped twice");
}
