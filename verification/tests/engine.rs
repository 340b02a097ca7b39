#![allow(dead_code, unused_imports)]

use dezero::engine::builtin::Builtin;
use dezero::engine::config::ConfigGuard;
use dezero::engine::function::{apply1, Backprop, Op};
use dezero::engine::graph::{Function, Graph, Variable};
use dezero::engine::rule::Rule;
use dezero::functions::activation::{sigmoid_array, softmax_array, Sigmoid, Softmax};
use dezero::functions::basic_math::{map_array, Cos, Exp, Pow, Sin, Tanh};
use dezero::functions::loss::SoftmaxCrossEntropy;
use dezero::functions::reduce::{sum_array, Axes};
use dezero::scalar::Scalar;
use dezero::tensor::Tensor;
use dezero::utils::numerical::{numerical_diff, GradientCheckError};
use dezero::utils::shape::normalize_axis;
use dezero::engine::parameter::Parameter;
use std::cell::RefCell;
use std::collections::HashSet;
use std::fmt;
use std::rc::Rc;

/// A floating-point number as the elements of arrays.
#[derive(Debug, Clone, Copy, PartialEq)]
struct Real(f64);

impl Scalar for Real {
    fn zero() -> Self {
        Real(0.0)
    }

    fn one() -> Self {
        Real(1.0)
    }

    fn from_count(n: usize) -> Self {
        Real(n as f64)
    }

    fn add(self, other: Self) -> Self {
        Real(self.0 + other.0)
    }

    fn sub(self, other: Self) -> Self {
        Real(self.0 - other.0)
    }

    fn mul(self, other: Self) -> Self {
        Real(self.0 * other.0)
    }

    fn div(self, other: Self) -> Self {
        Real(self.0 / other.0)
    }

    fn neg(self) -> Self {
        Real(-self.0)
    }

    fn gt(self, other: Self) -> bool {
        self.0 > other.0
    }
}

type Array = Tensor<Real>;

/// An array of the given shape and elements.
fn array(shape: &[usize], values: &[f64]) -> Array {
    Tensor::from_shape_vec(shape.to_vec(), values.iter().map(|&v| Real(v)).collect())
        .expect("as many elements as the shape says")
}

fn arr0(value: f64) -> Array {
    array(&[], &[value])
}

fn arr1(values: &[f64]) -> Array {
    array(&[values.len()], values)
}

fn arr2<const N: usize>(rows: &[[f64; N]]) -> Array {
    array(&[rows.len(), N], &rows.concat())
}

fn filled(shape: &[usize], value: f64) -> Array {
    Tensor::full(shape, Real(value))
}

fn zeros(shape: &[usize]) -> Array {
    Tensor::full(shape, Real(0.0))
}

/// The elements of an array, in the order of its rows.
fn elements(a: &Array) -> Vec<f64> {
    a.data().iter().map(|v| v.0).collect()
}

/// The elements 0, 1, 2, ... in an array of the given shape.
fn counted(shape: &[usize]) -> Array {
    let n: usize = shape.iter().product();
    array(shape, &(0..n).map(|k| k as f64).collect::<Vec<_>>())
}

/// Whether two arrays agree in shape and, nearly, in every element.
fn close(a: &Array, b: &Array, tolerance: f64) -> bool {
    a.shape() == b.shape()
        && elements(a)
            .iter()
            .zip(elements(b).iter())
            .all(|(x, y)| (x - y).abs() <= tolerance)
}

/// The operations of the framework, and those that need floating-point functions.
enum Ext {
    Basic(Builtin),
    Exp,
    Sin,
    Cos,
    Tanh,
    Pow(f64),
    Sigmoid,
    Softmax(isize),
    CrossEntropy(Vec<usize>),
}

impl Op<Real> for Ext {
    type Rule = ();

    fn embedding(_rule: Rule) {}

    fn from_builtin(op: Builtin) -> Self {
        Ext::Basic(op)
    }

    fn op_name(&self) -> String {
        match self {
            Ext::Basic(op) => op.name(),
            Ext::Exp => "Exp".to_owned(),
            Ext::Sin => "Sin".to_owned(),
            Ext::Cos => "Cos".to_owned(),
            Ext::Tanh => "Tanh".to_owned(),
            Ext::Pow(_) => "Pow".to_owned(),
            Ext::Sigmoid => "Sigmoid".to_owned(),
            Ext::Softmax(_) => "Softmax".to_owned(),
            Ext::CrossEntropy(_) => "SoftmaxCrossEntropy".to_owned(),
        }
    }

    fn forward(&mut self, xs: &Vec<Array>) -> Vec<Array> {
        let exp = |v: Real| Real(v.0.exp());
        let ln = |v: Real| Real(v.0.ln());
        let lowest = Real(f64::NEG_INFINITY);
        match self {
            Ext::Basic(op) => vec![op.evaluate(xs)],
            Ext::Exp => vec![map_array(&xs[0], &exp)],
            Ext::Sin => vec![map_array(&xs[0], &|v: Real| Real(v.0.sin()))],
            Ext::Cos => vec![map_array(&xs[0], &|v: Real| Real(v.0.cos()))],
            Ext::Tanh => vec![map_array(&xs[0], &|v: Real| Real(v.0.tanh()))],
            Ext::Pow(c) => {
                let c = *c;
                vec![map_array(&xs[0], &|v: Real| Real(v.0.powf(c)))]
            }
            Ext::Sigmoid => vec![sigmoid_array(&xs[0], &|v: Real| Real(v.0.tanh()))],
            Ext::Softmax(axis) => {
                let axis = normalize_axis(*axis, xs[0].ndim());
                vec![softmax_array(&xs[0], axis, lowest, &exp)]
            }
            Ext::CrossEntropy(labels) => {
                vec![SoftmaxCrossEntropy::new(labels).forward(&xs[0], lowest, &exp, &ln)]
            }
        }
    }
}

impl Backprop<Real> for Ext {
    fn backward(
        &self,
        g: &mut Graph<Real, Ext>,
        inputs: &Vec<Variable>,
        outputs: &Vec<Variable>,
        gys: &Vec<Variable>,
    ) -> Vec<Variable> {
        let gx = match self {
            Ext::Basic(op) => return op.differentiate(g, inputs, &gys[0]),
            Ext::Exp => Exp.backward(g, &outputs[0], &gys[0]),
            Ext::Sin => {
                let cos_x = apply1(g, Ext::Cos, &[inputs[0]]);
                Sin.backward(g, &cos_x, &gys[0])
            }
            Ext::Cos => {
                let sin_x = apply1(g, Ext::Sin, &[inputs[0]]);
                Cos.backward(g, &sin_x, &gys[0])
            }
            Ext::Tanh => Tanh.backward(g, &outputs[0], &gys[0]),
            Ext::Pow(c) => {
                let lower = apply1(g, Ext::Pow(c - 1.0), &[inputs[0]]);
                Pow::new(Real(*c)).backward(g, &lower, &gys[0])
            }
            Ext::Sigmoid => Sigmoid.backward(g, &outputs[0], &gys[0]),
            Ext::Softmax(axis) => Softmax::new(*axis).backward(g, &outputs[0], &gys[0]),
            Ext::CrossEntropy(labels) => {
                let p = apply1(g, Ext::Softmax(1), &[inputs[0]]);
                SoftmaxCrossEntropy::new(labels).backward(g, &p, &gys[0])
            }
        };
        vec![gx]
    }
}

type Net = Graph<Real, Ext>;

/// A graph that several handles share.
#[derive(Clone)]
struct Tape(Rc<RefCell<Net>>);

/// A variable together with the graph it belongs to.
#[derive(Clone)]
struct Var {
    tape: Tape,
    v: Variable,
}

impl PartialEq for Var {
    fn eq(&self, other: &Self) -> bool {
        self.v == other.v
    }
}

impl fmt::Debug for Var {
    fn fmt(&self, f: &mut fmt::Formatter<'_>) -> fmt::Result {
        fmt::Debug::fmt(&self.v, f)
    }
}

impl Tape {
    fn new() -> Self {
        Tape(Rc::new(RefCell::new(Graph::new())))
    }

    fn with<R>(&self, f: impl FnOnce(&mut Net) -> R) -> R {
        f(&mut self.0.borrow_mut())
    }

    fn at(&self, v: Variable) -> Var {
        Var { tape: self.clone(), v }
    }

    fn var(&self, data: Array) -> Var {
        let v = self.with(|g| Variable::new(g, data));
        self.at(v)
    }

    fn scalar(&self, value: f64) -> Var {
        let v = self.with(|g| Variable::from_scalar(g, Real(value)));
        self.at(v)
    }

    fn empty(&self) -> Var {
        let v = self.with(|g| Variable::empty(g));
        self.at(v)
    }

    fn no_grad(&self) -> ConfigGuard {
        self.with(|g| dezero::engine::config::no_grad(&mut g.config))
    }

    fn test_mode(&self) -> ConfigGuard {
        self.with(|g| dezero::engine::config::test_mode(&mut g.config))
    }

    fn restore(&self, guard: ConfigGuard) {
        self.with(|g| guard.restore(&mut g.config))
    }

    fn creator_inputs(&self, f: &Function) -> Vec<Var> {
        self.with(|g| f.inputs(g)).into_iter().map(|v| self.at(v)).collect()
    }

    fn creator_outputs(&self, f: &Function) -> Vec<Option<Var>> {
        self.with(|g| f.outputs(g)).into_iter().map(|v| v.map(|v| self.at(v))).collect()
    }
}

impl Var {
    fn id(&self) -> usize {
        self.v.id()
    }

    fn data(&self) -> Option<Array> {
        self.tape.with(|g| self.v.data(g).cloned())
    }

    fn value(&self) -> Array {
        self.data().expect("data")
    }

    fn set_data(&self, data: Array) {
        self.tape.with(|g| self.v.set_data(g, data));
    }

    fn grad(&self) -> Option<Var> {
        self.tape.with(|g| self.v.grad(g)).map(|v| self.tape.at(v))
    }

    fn grad_data(&self) -> Option<Array> {
        self.grad().and_then(|g| g.data())
    }

    fn set_grad(&self, grad: Option<Var>) {
        self.tape.with(|g| self.v.set_grad(g, grad.map(|w| w.v)));
    }

    fn cleargrad(&self) {
        self.tape.with(|g| self.v.cleargrad(g));
    }

    fn creator(&self) -> Option<Function> {
        self.tape.with(|g| self.v.creator(g))
    }

    fn generation(&self) -> u32 {
        self.tape.with(|g| self.v.generation(g))
    }

    fn name(&self) -> Option<String> {
        self.tape.with(|g| self.v.name(g).cloned())
    }

    fn set_name(&self, name: Option<String>) {
        self.tape.with(|g| self.v.set_name(g, name));
    }

    fn shape(&self) -> Option<Vec<usize>> {
        self.tape.with(|g| self.v.shape(g))
    }

    fn ndim(&self) -> Option<usize> {
        self.tape.with(|g| self.v.ndim(g))
    }

    fn size(&self) -> Option<usize> {
        self.tape.with(|g| self.v.size(g))
    }

    fn len(&self) -> Option<usize> {
        self.tape.with(|g| self.v.len(g))
    }

    fn full_like(&self, value: f64) -> Option<Var> {
        self.tape.with(|g| self.v.full_like(g, Real(value))).map(|v| self.tape.at(v))
    }

    fn backward(&self) {
        self.tape.with(|g| self.v.backward(g));
    }

    fn backward_with(&self, retain_grad: bool, create_graph: bool) {
        self.tape.with(|g| self.v.backward_with(g, retain_grad, create_graph));
    }

    fn unchain(&self) {
        self.tape.with(|g| self.v.unchain(g));
    }

    fn unchain_backward(&self) {
        self.tape.with(|g| self.v.unchain_backward(g));
    }

    /// Gives up the last handle to the variable.
    fn release(self) {
        self.tape.with(|g| self.v.release(g));
    }

    fn map(&self, f: impl FnOnce(&mut Net, &Variable) -> Variable) -> Var {
        let v = self.tape.with(|g| f(g, &self.v));
        self.tape.at(v)
    }

    /// Another variable of the same graph.
    fn beside(&self, data: &Array) -> Var {
        self.tape.var(data.clone())
    }

    fn ext(&self, op: Ext) -> Var {
        self.map(|g, v| apply1(g, op, &[*v]))
    }
}

fn add(a: &Var, b: &Var) -> Var {
    a.map(|g, v| dezero::engine::ops::add(g, v, &b.v))
}

fn sub(a: &Var, b: &Var) -> Var {
    a.map(|g, v| dezero::engine::ops::sub(g, v, &b.v))
}

fn mul(a: &Var, b: &Var) -> Var {
    a.map(|g, v| dezero::engine::ops::mul(g, v, &b.v))
}

fn div(a: &Var, b: &Var) -> Var {
    a.map(|g, v| dezero::engine::ops::div(g, v, &b.v))
}

fn neg(a: &Var) -> Var {
    a.map(|g, v| dezero::engine::ops::neg(g, v))
}

/// The product of a variable and a number.
fn scaled(a: &Var, c: f64) -> Var {
    mul(a, &a.tape.scalar(c))
}

fn square(x: &Var) -> Var {
    x.map(|g, v| dezero::functions::basic_math::square(g, v))
}

fn exp(x: &Var) -> Var {
    x.ext(Ext::Exp)
}

fn sin(x: &Var) -> Var {
    x.ext(Ext::Sin)
}

fn cos(x: &Var) -> Var {
    x.ext(Ext::Cos)
}

fn tanh(x: &Var) -> Var {
    x.ext(Ext::Tanh)
}

fn pow(x: &Var, c: f64) -> Var {
    x.ext(Ext::Pow(c))
}

fn relu(x: &Var) -> Var {
    x.map(|g, v| dezero::functions::activation::relu(g, v))
}

fn sigmoid(x: &Var) -> Var {
    x.ext(Ext::Sigmoid)
}

fn softmax(x: &Var) -> Var {
    x.ext(Ext::Softmax(1))
}

fn softmax_axis(x: &Var, axis: isize) -> Var {
    x.ext(Ext::Softmax(axis))
}

fn softmax_cross_entropy(x: &Var, labels: &[usize]) -> Var {
    x.ext(Ext::CrossEntropy(labels.to_vec()))
}

fn mean_squared_error(a: &Var, b: &Var) -> Var {
    a.map(|g, v| dezero::functions::loss::mean_squared_error(g, v, &b.v))
}

fn reshape(x: &Var, shape: &[usize]) -> Var {
    x.map(|g, v| dezero::functions::shape::reshape(g, v, shape))
}

fn transpose(x: &Var) -> Var {
    x.map(|g, v| dezero::functions::shape::transpose(g, v))
}

fn sum_all(x: &Var) -> Var {
    x.map(|g, v| dezero::functions::reduce::sum_all(g, v))
}

fn sum(x: &Var, axis: impl Into<Axes>, keepdims: bool) -> Var {
    x.map(|g, v| dezero::functions::reduce::sum(g, v, axis, keepdims))
}

fn sum_to(x: &Var, shape: &[usize]) -> Var {
    x.map(|g, v| dezero::functions::reduce::sum_to(g, v, shape))
}

fn broadcast_to(x: &Var, shape: &[usize]) -> Var {
    x.map(|g, v| dezero::functions::reduce::broadcast_to(g, v, shape))
}

fn matmul(x: &Var, w: &Var) -> Var {
    x.map(|g, v| dezero::functions::matmul::matmul(g, v, &w.v))
}

fn linear(x: &Var, w: &Var, b: Option<&Var>) -> Var {
    x.map(|g, v| dezero::functions::matmul::linear(g, v, &w.v, b.map(|b| &b.v)))
}

/// The one element of an array.
fn element(a: &Array) -> f64 {
    elements(a)[0]
}

fn scalar(v: &Var) -> f64 {
    element(&v.value())
}

fn grad_of(v: &Var) -> f64 {
    scalar(&v.grad().expect("gradient"))
}

/// Checks backpropagation through `f` against central differences at `x`.
fn gradient_check_with(
    f: &dyn Fn(&Var) -> Var,
    x: Option<&Array>,
    eps: f64,
    rtol: f64,
    atol: f64,
) -> Result<(), GradientCheckError<Real>> {
    let t = Tape::new();
    let v = match x {
        Some(a) => t.var(a.duplicate()),
        None => t.empty(),
    };
    let take = || std::mem::replace(&mut *t.0.borrow_mut(), Graph::new());
    let (_, verdict) = dezero::utils::numerical::gradient_check(
        take(),
        &|g: Net, v: &Variable| {
            *t.0.borrow_mut() = g;
            let y = f(&t.at(*v)).v;
            (take(), y)
        },
        &v.v,
        Real(eps),
        Real(rtol),
        Real(atol),
    );
    verdict
}

fn gradient_check(f: &dyn Fn(&Var) -> Var, x: &Array) -> Result<(), GradientCheckError<Real>> {
    gradient_check_with(f, Some(x), 1e-4, 1e-4, 1e-5)
}

// -- backpropagation ---------------------------------------------------------

#[test]
fn seeds_the_starting_gradient_with_ones() {
    let t = Tape::new();
    let x = t.var(arr1(&[1.0, 2.0, 3.0]));
    let y = square(&x);
    y.backward_with(true, false);
    assert_eq!(y.grad_data(), Some(arr1(&[1.0, 1.0, 1.0])));
    assert_eq!(x.grad_data(), Some(arr1(&[2.0, 4.0, 6.0])));
}

#[test]
fn chained_functions_apply_the_chain_rule() {
    let t = Tape::new();
    let x = t.scalar(0.5);
    let a = square(&x);
    let b = exp(&a);
    let y = square(&b);
    y.backward();
    assert!((grad_of(&x) - 3.297_442_541_400_256).abs() < 1e-10);
}

#[test]
fn step14_repeated_input_accumulates_gradient() {
    let t = Tape::new();
    let x = t.scalar(3.0);
    let y = add(&x, &x);
    y.backward();
    assert_eq!(scalar(&y), 6.0);
    assert_eq!(grad_of(&x), 2.0);
}

#[test]
fn step14_cleargrad_between_passes() {
    let t = Tape::new();
    let x = t.scalar(3.0);

    let y = add(&x, &x);
    y.backward();
    assert_eq!(grad_of(&x), 2.0);

    let y = add(&add(&x, &x), &x);
    y.backward();
    assert_eq!(grad_of(&x), 5.0, "gradients accumulate by design");

    x.cleargrad();
    let y = add(&add(&x, &x), &x);
    y.backward();
    assert_eq!(grad_of(&x), 3.0);
}

#[test]
fn step16_generation_order_gives_the_right_gradient() {
    let t = Tape::new();
    let x = t.scalar(2.0);
    let a = square(&x);
    let y = add(&square(&a), &square(&a));
    y.backward();

    assert_eq!(scalar(&y), 32.0);
    assert_eq!(grad_of(&x), 64.0);
}

#[test]
fn step16_deeper_diamond() {
    let t = Tape::new();
    let x = t.scalar(2.0);
    let a = square(&x);
    let b = square(&a);
    let c = square(&b);
    let y = add(&c, &a);
    y.backward();

    // d/dx (x^8 + x^2) = 8x^7 + 2x = 1024 + 4
    assert_eq!(grad_of(&x), 1028.0);
}

#[test]
fn step18_retain_grad_controls_intermediate_gradients() {
    let t = Tape::new();
    let x = t.scalar(2.0);
    let a = square(&x);
    let y = square(&a);

    y.backward();
    assert!(y.grad().is_none(), "the seed gradient is dropped as well");
    assert!(a.grad().is_none(), "intermediate gradients are dropped");
    assert_eq!(grad_of(&x), 32.0, "leaf gradients are kept");

    x.cleargrad();
    let a = square(&x);
    let y = square(&a);
    y.backward_with(true, false);
    assert_eq!(grad_of(&y), 1.0);
    assert_eq!(grad_of(&a), 8.0);
    assert_eq!(grad_of(&x), 32.0);
}

#[test]
fn step18_no_grad_disables_the_graph_entirely() {
    let t = Tape::new();
    let x = t.scalar(2.0);
    let guard = t.no_grad();
    let y = square(&square(&x));
    t.restore(guard);
    assert_eq!(scalar(&y), 16.0);
    assert!(y.creator().is_none());

    y.backward();
    assert_eq!(grad_of(&y), 1.0);
    assert!(x.grad().is_none());
}

#[test]
fn backward_on_a_leaf_is_a_no_op() {
    let t = Tape::new();
    let x = t.var(arr2(&[[1.0, 2.0], [3.0, 4.0]]));
    x.backward();
    assert_eq!(x.grad_data(), Some(arr2(&[[1.0, 1.0], [1.0, 1.0]])));
}

#[test]
fn create_graph_enables_second_order_derivatives() {
    // y = x^3 -> dy/dx = 3x^2 = 27, d2y/dx2 = 6x = 18 at x = 3.
    let t = Tape::new();
    let x = t.scalar(3.0);
    let y = pow(&x, 3.0);
    y.backward_with(false, true);

    let gx = x.grad().expect("first derivative");
    assert_eq!(scalar(&gx), 27.0);
    assert!(
        gx.creator().is_some(),
        "with create_graph the gradient is itself a graph node"
    );

    x.cleargrad();
    gx.backward();
    assert_eq!(grad_of(&x), 18.0);
}

#[test]
fn without_create_graph_the_gradient_is_detached() {
    let t = Tape::new();
    let x = t.scalar(3.0);
    let y = mul(&x, &x);
    y.backward();
    let gx = x.grad().expect("first derivative");
    assert!(gx.creator().is_none());
}

#[test]
fn backward_frees_the_forward_graph_when_the_output_is_dropped() {
    let t = Tape::new();
    let x = t.scalar(2.0);
    let y = square(&x);
    let creator = y.creator().expect("creator");
    y.backward();
    y.release();
    assert!(t.creator_outputs(&creator)[0].is_none());
    assert_eq!(grad_of(&x), 4.0);
}

#[test]
fn a_third_derivative_goes_through_two_recorded_passes() {
    // y = x^4: 4x^3, 12x^2, 24x at x = 2.
    let t = Tape::new();
    let x = t.scalar(2.0);
    let y = square(&square(&x));
    y.backward_with(false, true);
    let first = x.grad().expect("first derivative");
    assert_eq!(scalar(&first), 32.0);
    x.cleargrad();
    first.backward_with(false, true);
    let second = x.grad().expect("second derivative");
    assert_eq!(scalar(&second), 48.0);
    x.cleargrad();
    second.backward();
    assert_eq!(grad_of(&x), 48.0);
}

// -- applying operations -----------------------------------------------------

#[test]
fn apply_records_creator_inputs_and_generation() {
    let t = Tape::new();
    let x = t.scalar(2.0);
    let y = square(&x);

    let func = y.creator().expect("square records its creator");
    assert_eq!(t.with(|g| func.generation(g)), 0);
    assert_eq!(y.generation(), 1);
    assert_eq!(t.creator_inputs(&func).len(), 1);
    assert_eq!(t.creator_inputs(&func)[0], x);
    assert_eq!(t.creator_outputs(&func), vec![Some(y.clone())]);
}

#[test]
fn generation_is_the_max_over_inputs() {
    let t = Tape::new();
    let x = t.scalar(2.0);
    let a = square(&x);
    let b = square(&a);
    let y = add(&x, &b);

    let func = y.creator().expect("add records its creator");
    assert_eq!(t.with(|g| func.generation(g)), 2);
    assert_eq!(y.generation(), 3);
}

#[test]
fn no_grad_skips_graph_construction() {
    let t = Tape::new();
    let x = t.scalar(2.0);
    let guard = t.no_grad();
    let y = square(&x);
    t.restore(guard);
    assert!(y.creator().is_none());
    assert_eq!(y.generation(), 0);
    assert_eq!(y.data(), t.scalar(4.0).data());
}

#[test]
fn dropping_an_output_breaks_the_cycle() {
    let t = Tape::new();
    let x = t.scalar(2.0);
    let y = square(&x);
    let func = y.creator().expect("square records its creator");
    assert!(t.creator_outputs(&func)[0].is_some(), "output is alive while held");
    y.release();
    assert!(
        t.creator_outputs(&func)[0].is_none(),
        "dropping the output must free it"
    );
    assert_eq!(t.creator_inputs(&func)[0], x);
}

#[test]
fn function_identity_is_pointer_based() {
    let t = Tape::new();
    let x = t.scalar(2.0);
    let a = square(&x);
    let b = square(&x);
    let fa = a.creator().expect("creator");
    let fb = b.creator().expect("creator");

    assert_eq!(fa, fa.clone());
    assert_ne!(fa, fb);

    let mut seen: HashSet<Function> = HashSet::new();
    assert!(seen.insert(fa.clone()));
    assert!(!seen.insert(fa));
    assert!(seen.insert(fb));
    assert_eq!(seen.len(), 2);
}

#[test]
fn a_released_output_keeps_its_shape_in_the_function() {
    let t = Tape::new();
    let x = t.var(arr2(&[[1.0, 2.0, 3.0]]));
    let y = square(&x);
    let func = y.creator().expect("creator");
    y.release();
    assert_eq!(t.with(|g| func.output_count(g)), 1);
    assert_eq!(t.with(|g| func.output_shape(g, 0)), Some(vec![1, 3]));
    assert_eq!(t.with(|g| func.output_shape(g, 1)), None);
    assert_eq!(t.with(|g| func.op_name(g)), "Square");
}

// -- arithmetic --------------------------------------------------------------

#[test]
fn forward_values_match_elementwise_arithmetic() {
    let t = Tape::new();
    let a = t.var(arr1(&[1.0, 2.0, 3.0]));
    let b = t.var(arr1(&[4.0, 5.0, 6.0]));

    assert_eq!(add(&a, &b).value(), arr1(&[5.0, 7.0, 9.0]));
    assert_eq!(sub(&a, &b).value(), arr1(&[-3.0, -3.0, -3.0]));
    assert_eq!(mul(&a, &b).value(), arr1(&[4.0, 10.0, 18.0]));
    assert_eq!(div(&b, &a).value(), arr1(&[4.0, 2.5, 2.0]));
    assert_eq!(neg(&a).value(), arr1(&[-1.0, -2.0, -3.0]));
    assert_eq!(pow(&a, 3.0).value(), arr1(&[1.0, 8.0, 27.0]));
}

#[test]
fn scalar_operands_work_on_both_sides() {
    let t = Tape::new();
    let x = t.var(arr1(&[1.0, 2.0, 4.0]));
    let c = |value: f64| t.scalar(value);

    assert_eq!(add(&x, &c(1.0)).value(), arr1(&[2.0, 3.0, 5.0]));
    assert_eq!(add(&c(1.0), &x).value(), arr1(&[2.0, 3.0, 5.0]));
    assert_eq!(sub(&x, &c(1.0)).value(), arr1(&[0.0, 1.0, 3.0]));
    assert_eq!(sub(&c(1.0), &x).value(), arr1(&[0.0, -1.0, -3.0]));
    assert_eq!(mul(&x, &c(3.0)).value(), arr1(&[3.0, 6.0, 12.0]));
    assert_eq!(mul(&c(3.0), &x).value(), arr1(&[3.0, 6.0, 12.0]));
    assert_eq!(div(&x, &c(2.0)).value(), arr1(&[0.5, 1.0, 2.0]));
    assert_eq!(div(&c(4.0), &x).value(), arr1(&[4.0, 2.0, 1.0]));
    assert_eq!(mul(&x, &c(2.0)).value(), arr1(&[2.0, 4.0, 8.0]));
    assert_eq!(mul(&c(2.0), &x).value(), arr1(&[2.0, 4.0, 8.0]));
}

#[test]
fn scalar_operands_are_differentiable() {
    let t = Tape::new();
    let x = t.scalar(2.0);
    let y = add(&mul(&t.scalar(3.0), &x), &t.scalar(1.0));
    y.backward();
    assert_eq!(y.value(), arr0(7.0));
    assert_eq!(x.grad_data(), Some(arr0(3.0)));
}

#[test]
fn add_gradient_matches_numerical_diff() {
    let other = arr1(&[0.5, -1.5, 2.5]);
    gradient_check(&|x| add(x, &x.beside(&other)), &arr1(&[1.0, 2.0, 3.0])).expect("add gradient");
}

#[test]
fn sub_gradient_matches_numerical_diff() {
    let other = arr1(&[0.5, -1.5, 2.5]);
    gradient_check(&|x| sub(x, &x.beside(&other)), &arr1(&[1.0, 2.0, 3.0]))
        .expect("sub gradient (left operand)");
    gradient_check(&|x| sub(&x.beside(&other), x), &arr1(&[1.0, 2.0, 3.0]))
        .expect("sub gradient (right operand)");
}

#[test]
fn mul_gradient_matches_numerical_diff() {
    let other = arr1(&[0.5, -1.5, 2.5]);
    gradient_check(&|x| mul(x, &x.beside(&other)), &arr1(&[1.0, 2.0, 3.0])).expect("mul gradient");
}

#[test]
fn div_gradient_matches_numerical_diff() {
    let other = arr1(&[0.5, -1.5, 2.5]);
    gradient_check(&|x| div(x, &x.beside(&other)), &arr1(&[1.0, 2.0, 3.0]))
        .expect("div gradient (numerator)");
    gradient_check(&|x| div(&x.beside(&other), x), &arr1(&[1.0, 2.0, 3.0]))
        .expect("div gradient (denominator)");
}

#[test]
fn neg_gradient_matches_numerical_diff() {
    gradient_check(&neg, &arr1(&[1.0, -2.0, 3.0])).expect("neg gradient");
}

#[test]
fn pow_gradient_matches_numerical_diff() {
    gradient_check(&|x| pow(x, 3.0), &arr1(&[1.0, 2.0, 3.0])).expect("pow(3) gradient");
    gradient_check(&|x| pow(x, 0.5), &arr1(&[0.25, 1.0, 4.0])).expect("pow(0.5) gradient");
}

#[test]
fn compound_expression_gradient_matches_numerical_diff() {
    let a = arr1(&[2.0, 3.0, 4.0]);
    let b = arr1(&[5.0, 6.0, 7.0]);
    gradient_check(
        &|x| {
            let top = add(&mul(x, &x.beside(&a)), &pow(x, 2.0));
            sub(&div(&top, &x.beside(&b)), &x.tape.scalar(1.0))
        },
        &arr1(&[1.0, 2.0, 3.0]),
    )
    .expect("compound gradient");
}

#[test]
fn two_dimensional_gradient_matches_numerical_diff() {
    let other = arr2(&[[1.0, 2.0], [3.0, 4.0]]);
    let x = arr2(&[[0.5, 1.5], [2.5, 3.5]]);
    gradient_check(&|x| mul(x, &x.beside(&other)), &x).expect("2-d mul gradient");
}

#[test]
fn mul_gradients_are_the_opposite_operands() {
    let t = Tape::new();
    let a = t.var(arr1(&[2.0, 3.0]));
    let b = t.var(arr1(&[5.0, 7.0]));
    let y = mul(&a, &b);
    y.backward();
    assert_eq!(a.grad_data(), Some(arr1(&[5.0, 7.0])));
    assert_eq!(b.grad_data(), Some(arr1(&[2.0, 3.0])));
}

#[test]
fn sub_gradient_is_signed() {
    let t = Tape::new();
    let a = t.var(arr1(&[2.0, 3.0]));
    let b = t.var(arr1(&[5.0, 7.0]));
    let y = sub(&a, &b);
    y.backward();
    assert_eq!(a.grad_data(), Some(arr1(&[1.0, 1.0])));
    assert_eq!(b.grad_data(), Some(arr1(&[-1.0, -1.0])));
}

#[test]
fn operands_of_different_shapes_broadcast() {
    let t = Tape::new();
    let matrix = t.var(arr2(&[[1.0, 2.0, 3.0], [4.0, 5.0, 6.0]]));
    let row = t.var(arr1(&[10.0, 20.0, 30.0]));
    let column = t.var(arr2(&[[100.0], [200.0]]));
    let scalar = t.scalar(2.0);

    assert_eq!(
        add(&matrix, &row).value(),
        arr2(&[[11.0, 22.0, 33.0], [14.0, 25.0, 36.0]])
    );
    assert_eq!(
        add(&matrix, &column).value(),
        arr2(&[[101.0, 102.0, 103.0], [204.0, 205.0, 206.0]])
    );
    assert_eq!(
        mul(&matrix, &scalar).value(),
        arr2(&[[2.0, 4.0, 6.0], [8.0, 10.0, 12.0]])
    );
}

#[test]
fn the_smaller_operand_may_be_on_the_left() {
    let t = Tape::new();
    let matrix = t.var(arr2(&[[1.0, 2.0, 3.0], [4.0, 5.0, 6.0]]));
    let row = t.var(arr1(&[10.0, 20.0, 30.0]));

    assert_eq!(
        add(&row, &matrix).value(),
        arr2(&[[11.0, 22.0, 33.0], [14.0, 25.0, 36.0]])
    );
    assert_eq!(
        sub(&row, &matrix).value(),
        arr2(&[[9.0, 18.0, 27.0], [6.0, 15.0, 24.0]])
    );
}

#[test]
fn broadcast_gradients_are_summed_back_onto_each_operand() {
    // The row is added once per matrix row, so its gradient counts both.
    let t = Tape::new();
    let matrix = t.var(arr2(&[[1.0, 2.0, 3.0], [4.0, 5.0, 6.0]]));
    let row = t.var(arr1(&[10.0, 20.0, 30.0]));
    let y = add(&matrix, &row);
    y.backward();

    assert_eq!(matrix.grad_data(), Some(filled(&[2, 3], 1.0)));
    assert_eq!(row.grad_data(), Some(arr1(&[2.0, 2.0, 2.0])));

    // For `mul` the folded gradient is the sum of the peers, not a count.
    matrix.cleargrad();
    row.cleargrad();
    mul(&matrix, &row).backward();
    assert_eq!(
        matrix.grad_data(),
        Some(arr2(&[[10.0, 20.0, 30.0], [10.0, 20.0, 30.0]]))
    );
    assert_eq!(row.grad_data(), Some(arr1(&[5.0, 7.0, 9.0])));
}

#[test]
fn broadcast_gradients_match_numerical_diff() {
    let row = arr1(&[0.5, -1.5, 2.5]);
    let column = arr2(&[[2.0], [3.0]]);
    let matrix = arr2(&[[1.0, 2.0, 3.0], [4.0, 5.0, 6.0]]);

    gradient_check(&|x| add(&x.beside(&matrix), x), &row).expect("add row");
    gradient_check(&|x| mul(&x.beside(&matrix), x), &row).expect("mul row");
    gradient_check(&|x| sub(&x.beside(&matrix), x), &row).expect("sub row");
    gradient_check(&|x| div(&x.beside(&matrix), x), &row).expect("div row");
    gradient_check(&|x| add(x, &x.beside(&matrix)), &row).expect("row on the left");
    gradient_check(&|x| mul(&x.beside(&matrix), x), &column).expect("mul column");
    gradient_check(&|x| mul(&x.beside(&matrix), x), &arr0(3.0)).expect("mul scalar");
}

/// Both operands stretched at once: `(2, 1, 4) * (3, 1)` broadcasts to `(2, 3, 4)`, so
/// each gradient is a sum over copies at a different set of axes.
#[test]
fn a_product_may_stretch_both_operands() {
    let t = Tape::new();
    let a = t.var(array(&[2, 1, 4], &[1.5, -0.5, 0.25, 0.75, -2.0, 0.5, 4.0, -1.0]));
    let b = t.var(array(&[3, 1], &[1.0, 0.5, -0.25]));

    let y = mul(&a, &b);
    assert_eq!(y.shape(), Some(vec![2, 3, 4]));
    assert_eq!(elements(&y.value())[23], 0.25, "y[i, j, k] = a[i, 0, k] * b[j, 0]");

    y.backward();
    assert_eq!(a.grad_data(), Some(filled(&[2, 1, 4], 1.25)));
    assert_eq!(b.grad_data(), Some(filled(&[3, 1], 3.5)));
}

#[test]
fn both_operands_may_be_broadcast_at_once() {
    let t = Tape::new();
    let a = t.var(array(
        &[2, 1, 4],
        &[
            1.690_525_703_800_356,
            -0.465_937_370_540_832_8,
            0.032_820_163_678_584_4,
            0.407_516_282_996_507_83,
            -0.788_923_028_625_738_6,
            0.002_065_572_905_948_13,
            -0.000_890_385_857_931_362_8,
            -1.754_724_306_345_420_8,
        ],
    ));
    let b = t.var(array(
        &[3, 1],
        &[
            1.017_658_005_663_493_2,
            0.600_498_515_919_549_4,
            -0.625_428_973_966_759_7,
        ],
    ));

    let y = mul(&a, &b);
    assert_eq!(y.shape(), Some(vec![2, 3, 4]));
    assert_eq!(
        elements(&y.value())[23],
        1.097_455_422_512_150_7,
        "y[i, j, k] = a[i, 0, k] * b[j, 0]"
    );

    y.backward();
    // ga = sum over j of b[j] , at every (i, 0, k); gb = sum over i and k
    // of a, at every (j, 0).
    assert_eq!(a.grad_data(), Some(filled(&[2, 1, 4], 0.992_727_547_616_282_8)));
    assert_eq!(b.grad_data(), Some(filled(&[3, 1], -0.877_547_367_988_527_3)));
}

#[test]
fn sums_run_axis_by_axis_from_the_last() {
    // a one is lost next to 1e16, so that the order of the additions shows
    let x = arr2(&[[1e16, 1.0], [-1e16, 1.0]]);
    assert_eq!(sum_array(&x, &Axes::All, false), arr0(0.0));
    assert_eq!(dezero::utils::shape::sum_to(&x, &[1]), arr1(&[0.0]));
    assert_eq!(dezero::utils::shape::sum_to(&x, &[1, 2]), arr2(&[[0.0, 2.0]]));
    // nothing to sum
    let none = array(&[0, 2], &[]);
    assert_eq!(dezero::utils::shape::sum_to(&none, &[1, 2]), arr2(&[[0.0, 0.0]]));
}

#[test]
fn scalar_operands_stay_zero_dimensional() {
    let t = Tape::new();
    let x = t.var(arr1(&[1.0, 2.0, 4.0]));
    let y = mul(&x, &t.scalar(2.0));
    let constant = t
        .creator_inputs(&y.creator().expect("the multiplication is recorded"))
        .into_iter()
        .find(|input| input.id() != x.id())
        .expect("the scalar is the other operand");

    assert_eq!(constant.shape(), Some(vec![]));
    assert_eq!(y.value(), arr1(&[2.0, 4.0, 8.0]));

    y.backward();
    assert_eq!(x.grad_data(), Some(arr1(&[2.0, 2.0, 2.0])));
    assert_eq!(
        constant.grad_data(),
        Some(arr0(7.0)),
        "the scalar's own gradient is summed back to 0-d"
    );
}

#[test]
fn display_matches_python_repr_layout() {
    let t = Tape::new();
    let x = t.scalar(2.0);
    let body = ndarray::arr0(2.0).to_string();
    assert_eq!(t.with(|g| x.v.to_string(g, &body)), "variable(2)");

    let m = t.var(arr2(&[[1.0, 2.0], [3.0, 4.0]]));
    let body = ndarray::arr2(&[[1.0, 2.0], [3.0, 4.0]]).to_string();
    let rendered = t.with(|g| m.v.to_string(g, &body));
    assert!(rendered.starts_with("variable("));
    assert!(rendered.ends_with(')'));
    // Continuation lines are indented under the opening parenthesis.
    assert!(rendered.contains("\n         "));
    assert_eq!(rendered, "variable([[1, 2],\n          [3, 4]])");

    let nothing = t.empty();
    assert_eq!(t.with(|g| nothing.v.to_string(g, "")), "variable(None)");
}

// -- parameters --------------------------------------------------------------

#[test]
fn a_parameter_is_the_variable_it_wraps() {
    let t = Tape::new();
    let p = t.with(|g| Parameter::new(g, arr1(&[1.0, 2.0, 3.0])));
    let v = t.at(*p.as_variable());
    assert_eq!(v.shape(), Some(vec![3]));
    assert_eq!(v.ndim(), Some(1));
    assert_eq!(v.size(), Some(3));
    assert!(v.creator().is_none());
}

#[test]
fn empty_supports_the_lazily_shaped_case() {
    let t = Tape::new();
    let w = t.at(*t.with(|g| Parameter::empty(g)).as_variable());
    assert!(w.data().is_none());
    assert!(w.shape().is_none());

    let id = w.id();
    w.set_data(arr2(&[[1.0, 2.0]]));
    assert_eq!(w.id(), id);
    assert_eq!(w.shape(), Some(vec![1, 2]));
}

#[test]
fn named_carries_the_name_onto_the_variable() {
    let t = Tape::new();
    let w = t.at(*t.with(|g| Parameter::named(g, None, "W")).as_variable());
    assert_eq!(w.name().as_deref(), Some("W"));
    assert!(w.data().is_none());

    let b = t.with(|g| Parameter::named(g, Some(arr1(&[0.0, 0.0])), "b"));
    let b = t.at(*b.as_variable());
    assert_eq!(b.name().as_deref(), Some("b"));
    assert_eq!(b.shape(), Some(vec![2]));
}

#[test]
fn clones_share_identity_and_state() {
    let t = Tape::new();
    let p = t.with(|g| Parameter::new(g, arr1(&[1.0])));
    let alias = p.clone();
    assert_eq!(p, alias);
    assert_eq!(p.as_variable().id(), alias.as_variable().id());

    t.at(*alias.as_variable()).set_data(arr1(&[9.0]));
    assert_eq!(t.at(*p.as_variable()).data(), Some(arr1(&[9.0])));
}

#[test]
fn distinct_parameters_with_equal_data_are_not_equal() {
    let t = Tape::new();
    let a = t.with(|g| Parameter::new(g, arr1(&[1.0])));
    let b = t.with(|g| Parameter::new(g, arr1(&[1.0])));
    assert_ne!(a, b);
    assert_eq!(t.at(*a.as_variable()).data(), t.at(*b.as_variable()).data());
}

#[test]
fn parameters_work_as_hash_map_keys() {
    let t = Tape::new();
    let a = t.with(|g| Parameter::new(g, arr1(&[1.0])));
    let b = t.with(|g| Parameter::new(g, arr1(&[1.0])));

    let mut seen: HashSet<Parameter> = HashSet::new();
    assert!(seen.insert(a.clone()));
    assert!(!seen.insert(a), "a clone is the same key");
    assert!(seen.insert(b));
    assert_eq!(seen.len(), 2);
}

/// A parameter goes straight into the graph, with a gradient landing on it like any
/// other leaf.
#[test]
fn a_parameter_participates_in_the_graph() {
    let t = Tape::new();
    let w = t.at(*t.with(|g| Parameter::new(g, arr1(&[2.0, 3.0]))).as_variable());
    let y = sum_all(&square(&w));
    y.backward();
    assert_eq!(w.grad_data(), Some(arr1(&[4.0, 6.0])));

    w.cleargrad();
    assert!(w.grad().is_none());
}

#[test]
fn conversions_round_trip_without_copying() {
    let t = Tape::new();
    let v = t.var(arr1(&[1.0, 2.0])).v;
    let id = v.id();

    let p = Parameter::from(v.clone());
    assert_eq!(p.as_variable().id(), id);
    assert_eq!(p.as_variable(), &v);

    let back: Variable = p.into();
    assert_eq!(back.id(), id);
}

// -- variables ---------------------------------------------------------------

#[test]
fn new_stores_data_and_metadata() {
    let t = Tape::new();
    let x = t.var(arr2(&[[1.0, 2.0, 3.0], [4.0, 5.0, 6.0]]));
    assert_eq!(x.shape(), Some(vec![2, 3]));
    assert_eq!(x.ndim(), Some(2));
    assert_eq!(x.size(), Some(6));
    assert_eq!(x.len(), Some(2));
    assert!(x.grad().is_none());
    assert!(x.creator().is_none());
    assert_eq!(x.generation(), 0);
}

#[test]
fn empty_variable_has_no_data() {
    let t = Tape::new();
    let x = t.empty();
    assert!(x.data().is_none());
    assert!(x.shape().is_none());
    assert!(x.ndim().is_none());
    assert!(x.size().is_none());
    assert!(x.len().is_none());
    assert_eq!(t.with(|g| x.v.to_string(g, "")), "variable(None)");
}

#[test]
fn scalar_has_no_len() {
    let t = Tape::new();
    let x = t.scalar(2.0);
    assert_eq!(x.ndim(), Some(0));
    assert_eq!(x.size(), Some(1));
    assert_eq!(x.len(), None);
}

#[test]
fn full_like_matches_shape_and_is_detached() {
    let t = Tape::new();
    let x = t.var(arr2(&[[1.0, 2.0], [3.0, 4.0]]));
    let ones = x.full_like(1.0).unwrap();
    assert_eq!(ones.shape(), x.shape());
    assert!(elements(&ones.data().unwrap()).iter().all(|v| *v == 1.0));
    assert!(ones.creator().is_none());
    assert!(t.empty().full_like(1.0).is_none());
}

#[test]
fn clone_shares_identity_and_state() {
    let t = Tape::new();
    let x = t.scalar(1.0);
    let alias = x.clone();
    assert_eq!(x, alias);
    assert_eq!(x.id(), alias.id());

    alias.set_data(arr0(7.0));
    assert_eq!(x.data(), Some(arr0(7.0)));
}

#[test]
fn distinct_variables_with_equal_data_are_not_equal() {
    let t = Tape::new();
    let a = t.scalar(1.0);
    let b = t.scalar(1.0);
    assert_ne!(a, b);
    assert_eq!(a.data(), b.data());
}

#[test]
fn accessors_return_snapshots_not_live_borrows() {
    let t = Tape::new();
    let x = t.var(arr1(&[1.0, 2.0]));
    let snapshot = x.data();
    x.set_data(arr1(&[9.0, 9.0]));
    assert_eq!(snapshot, Some(arr1(&[1.0, 2.0])));
    assert_eq!(x.data(), Some(arr1(&[9.0, 9.0])));
}

#[test]
fn name_round_trips() {
    let t = Tape::new();
    let x = t.scalar(1.0);
    assert!(x.name().is_none());
    x.set_name(Some("x".to_owned()));
    assert_eq!(x.name().as_deref(), Some("x"));
    x.set_name(None);
    assert!(x.name().is_none());
}

#[test]
fn cleargrad_resets_gradient() {
    let t = Tape::new();
    let x = t.scalar(1.0);
    x.set_grad(Some(t.scalar(5.0)));
    assert!(x.grad().is_some());
    x.cleargrad();
    assert!(x.grad().is_none());
}

#[test]
fn unchain_detaches_one_node() {
    let t = Tape::new();
    let x = t.scalar(2.0);
    let y = square(&x);
    assert!(y.creator().is_some());

    y.unchain();
    assert!(y.creator().is_none());

    y.backward();
    assert!(x.grad().is_none(), "nothing upstream is reachable any more");
}

#[test]
fn unchain_backward_severs_the_history_but_keeps_the_last_step() {
    let t = Tape::new();
    let x = t.scalar(2.0);
    let a = square(&x);
    let b = square(&a);
    let y = square(&b);

    y.unchain_backward();

    assert!(y.creator().is_some());
    assert!(b.creator().is_none());
    assert!(a.creator().is_none());

    y.backward();
    assert!(b.grad().is_some(), "one step of backprop still runs");
    assert!(a.grad().is_none());
    assert!(x.grad().is_none());
}

#[test]
fn unchain_backward_on_a_leaf_is_a_no_op() {
    let t = Tape::new();
    let x = t.scalar(2.0);
    x.unchain_backward();
    assert!(x.creator().is_none());
}

#[test]
fn square_scalar() {
    let t = Tape::new();
    let x = t.var(arr0(3.0));
    let y = square(&x);
    assert_eq!(y.value(), arr0(9.0));
}

#[test]
fn square_1d() {
    let t = Tape::new();
    let x = t.var(arr1(&[1.0, -2.0, 3.0]));
    let y = square(&x);
    assert_eq!(y.value(), arr1(&[1.0, 4.0, 9.0]));
}

#[test]
fn every_leaf_behind_the_root_is_left_with_a_gradient() {
    let t = Tape::new();
    let (x, w) = (t.scalar(2.0), t.scalar(3.0));
    let product = mul(&x, &w);
    let y = square(&product);
    y.backward();
    assert!((grad_of(&x) - 36.0).abs() < 1e-12);
    assert!((grad_of(&w) - 24.0).abs() < 1e-12);
    assert!(product.grad().is_none() && y.grad().is_none());
}

#[test]
fn retained_gradients_start_with_ones_at_the_root() {
    let t = Tape::new();
    let x = t.var(arr1(&[1.0, -2.0]));
    let doubled = add(&x, &x);
    let y = square(&doubled);
    y.backward_with(true, false);
    assert_eq!(y.grad_data(), Some(arr1(&[1.0, 1.0])));
    assert_eq!(doubled.grad_data(), Some(arr1(&[4.0, -8.0])));
    assert_eq!(x.grad_data(), Some(arr1(&[8.0, -16.0])));
}

#[test]
fn a_pass_from_a_leaf_only_seeds_it() {
    let t = Tape::new();
    let x = t.var(arr1(&[5.0, 6.0]));
    let y = square(&x);
    x.backward();
    assert_eq!(x.grad_data(), Some(arr1(&[1.0, 1.0])));
    assert!(y.grad().is_none());
}

#[test]
fn gradients_have_no_history_unless_it_is_asked_for() {
    let t = Tape::new();
    let (x, w) = (t.scalar(2.0), t.scalar(3.0));
    let y = mul(&square(&x), &w);
    y.backward_with(true, false);
    for v in [&x, &w, &y] {
        assert!(v.grad().expect("gradient").creator().is_none());
    }
    let x = t.scalar(2.0);
    square(&x).backward_with(false, true);
    assert!(x.grad().expect("gradient").creator().is_some());
}

#[test]
fn a_gradient_without_data_elsewhere_does_not_stop_a_pass() {
    let t = Tape::new();
    let idle = t.scalar(1.0);
    idle.set_grad(Some(t.empty()));
    let x = t.scalar(3.0);
    square(&x).backward();
    assert_eq!(grad_of(&x), 6.0);
    assert!(idle.grad().expect("gradient").data().is_none());
}

#[test]
fn a_creator_can_be_given_back_to_what_is_read_already() {
    let t = Tape::new();
    let x = t.scalar(3.0);
    let a = square(&x);
    let f = a.creator().expect("creator");
    let y = square(&a);
    t.with(|g| a.v.set_creator(g, f));
    assert_eq!(a.generation(), 1);
    y.backward();
    assert_eq!(grad_of(&x), 108.0);
}

#[test]
fn two_passes_without_clearing_add_up() {
    let t = Tape::new();
    let (x, w) = (t.var(arr1(&[1.0, -2.0])), t.var(arr1(&[3.0, 5.0])));
    let y = add(&square(&mul(&x, &w)), &x);
    y.backward();
    let (gx, gw) = (x.grad_data(), w.grad_data());
    assert_eq!(gx, Some(arr1(&[19.0, -99.0])));
    assert_eq!(gw, Some(arr1(&[6.0, 40.0])));
    assert!(y.grad().is_none());
    y.backward();
    assert_eq!(x.grad_data(), Some(arr1(&[38.0, -198.0])));
    assert_eq!(w.grad_data(), Some(arr1(&[12.0, 80.0])));
    assert!(y.grad().is_none(), "cleared, not left without data");
}

#[test]
fn a_pass_visits_later_functions_first() {
    let t = Tape::new();
    let x = t.scalar(2.0);
    let (a, b) = (square(&x), square(&x));
    let y = add(&a, &b);
    let order = t.with(|g| dezero::engine::schedule::schedule(g, &y.v));
    let made = [&y, &b, &a].map(|v| v.creator().expect("creator"));
    assert_eq!(order, made.to_vec());
}
