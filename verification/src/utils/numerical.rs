//! Derivatives by differences, and gradients checked against them.

use vstd::prelude::*;

use crate::engine::backward::{can_start, gradients, holds_grads, keeps, run, seeded};
use crate::engine::builtin::{held, holds};
use crate::engine::config::{no_grad, Config};
use crate::engine::function::{Backprop, Op};
use crate::engine::graph::{
    lemma_history_kept, lemma_nodes_ok, one_more, Function, Graph, Variable,
};
use crate::engine::laws::lemma_run_len;
use crate::engine::schedule::is_schedule;
use crate::functions::loss::total;
use crate::scalar::Scalar;
use crate::laws::checking::{a_gradient_passes_within_its_tolerances, passes};
use crate::tensor::{copy_of, same, Array, Tensor};
use crate::text::{list, list_text};

verus! {

/// An array with one element replaced.
pub open spec fn with_element<T>(x: Array<T>, i: int, value: T) -> Array<T> {
    Array { shape: x.shape, data: x.data.update(i, value) }
}

/// Whether `f` may turn the graph `before` into `after` and return `y` when it is run on
/// `v`.
pub open spec fn runs<T, O, F: Fn(Graph<T, O>, &Variable) -> (Graph<T, O>, Variable)>(
    f: F,
    before: Graph<T, O>,
    v: Variable,
    after: Graph<T, O>,
    y: Variable,
) -> bool {
    call_ensures(f, (before, &v), (after, y))
}

/// Whether `v` is a variable of that shape that nothing has been done with.
pub open spec fn is_probe<T, O>(g: Graph<T, O>, v: Variable, shape: Seq<usize>) -> bool {
    &&& g.wf()
    &&& holds(g, v)
    &&& held(g, v).shape == shape
    &&& g.node(v).grad is None
    &&& g.node(v).creator is None
}

/// Whether two graphs differ at most in whether operations are recorded.
pub open spec fn switched<T, O>(a: Graph<T, O>, b: Graph<T, O>) -> bool {
    a.nodes == b.nodes && a.calls == b.calls && a.config.train == b.config.train
}

/// Whether `inv` survives switching recording on and off, making a variable to run `f`
/// on, and running it there.
pub open spec fn survives<T, O, F: Fn(Graph<T, O>, &Variable) -> (Graph<T, O>, Variable)>(
    f: F,
    shape: Seq<usize>,
    inv: spec_fn(Graph<T, O>) -> bool,
) -> bool {
    &&& forall|h: Graph<T, O>, k: Graph<T, O>| inv(h) && #[trigger] switched(h, k) ==> inv(k)
    &&& forall|h: Graph<T, O>, k: Graph<T, O>, v: Variable|
        inv(h) && #[trigger] one_more(h, k, v) && is_probe(k, v, shape) ==> inv(k)
    &&& forall|h: Graph<T, O>, v: Variable, k: Graph<T, O>, y: Variable|
        inv(h) && is_probe(h, v, shape) && #[trigger] runs(f, h, v, k, y) ==> inv(k)
}

/// Whether a graph can come about while `f` is probed, beginning with `start`: whatever
/// holds of `start` and survives each step of the probing holds of it.
pub open spec fn arises<T, O, F: Fn(Graph<T, O>, &Variable) -> (Graph<T, O>, Variable)>(
    f: F,
    shape: Seq<usize>,
    start: Graph<T, O>,
    g: Graph<T, O>,
) -> bool {
    forall|inv: spec_fn(Graph<T, O>) -> bool| #[trigger]
        survives(f, shape, inv) && inv(start) ==> inv(g)
}

/// Whether `f` can be probed: it runs on every variable that is made for it, and gives
/// back a graph in order, with the switches as they were, and a variable that holds data.
pub open spec fn can_probe<T, O, F: Fn(Graph<T, O>, &Variable) -> (Graph<T, O>, Variable)>(
    f: F,
    shape: Seq<usize>,
    start: Graph<T, O>,
) -> bool {
    &&& forall|h: Graph<T, O>, v: Variable|
        arises(f, shape, start, h) && is_probe(h, v, shape) ==> #[trigger] call_requires(
            f,
            (h, &v),
        )
    &&& forall|h: Graph<T, O>, v: Variable, k: Graph<T, O>, y: Variable|
        arises(f, shape, start, h) && is_probe(h, v, shape) && #[trigger] runs(f, h, v, k, y) ==> {
            &&& k.wf()
            &&& k.config == h.config
            &&& holds(k, y)
        }
}

/// Whether backpropagation can start from what `f` gives on a copy of `x`, and finds the
/// copy still there.
pub open spec fn can_check<
    T: Scalar,
    O: Op<T>,
    F: Fn(Graph<T, O>, &Variable) -> (Graph<T, O>, Variable),
>(f: F, x: Array<T>, start: Graph<T, O>) -> bool {
    forall|h: Graph<T, O>, v: Variable, k: Graph<T, O>, y: Variable|
        arises(f, x.shape, start, h) && is_probe(h, v, x.shape) && held(h, v) == x && h.config
            == start.config && #[trigger] runs(f, h, v, k, y) ==> k.has(v) && can_start(k, y)
}

/// Whether `sum` may be the sum of what `f` gives at `point`, with recording off.
pub open spec fn measured<T: Scalar, O, F: Fn(Graph<T, O>, &Variable) -> (Graph<T, O>, Variable)>(
    f: F,
    start: Graph<T, O>,
    point: Array<T>,
    sum: T,
) -> bool {
    exists|h: Graph<T, O>, v: Variable, k: Graph<T, O>, y: Variable|
        {
            &&& arises(f, point.shape, start, h)
            &&& is_probe(h, v, point.shape)
            &&& held(h, v) == point
            &&& !h.config.enable_backprop
            &&& #[trigger] runs(f, h, v, k, y)
            &&& sum == added_up(held(k, y))
        }
}

/// Whether `d` is the difference quotient of `f` at element `i`: the sum of what `f`
/// gives a step further, less the sum of what it gives a step back, over twice the
/// step.
pub open spec fn quotient<T: Scalar, O, F: Fn(Graph<T, O>, &Variable) -> (Graph<T, O>, Variable)>(
    f: F,
    start: Graph<T, O>,
    x: Array<T>,
    i: int,
    eps: T,
    d: T,
) -> bool {
    exists|further: T, back: T|
        {
            &&& #[trigger] measured(f, start, with_element(x, i, x.data[i].plus(eps)), further)
            &&& #[trigger] measured(f, start, with_element(x, i, x.data[i].minus(eps)), back)
            &&& d == further.minus(back).over(T::count_spec(2).times(eps))
        }
}

/// The sum of the elements.
pub open spec fn added_up<T: Scalar>(x: Array<T>) -> T {
    total(x.data, x.data.len() as int)
}

/// Whether every element of `d` is the difference quotient of `f` there.
pub open spec fn quotients<
    T: Scalar,
    O,
    F: Fn(Graph<T, O>, &Variable) -> (Graph<T, O>, Variable),
>(f: F, start: Graph<T, O>, x: Array<T>, eps: T, d: Array<T>) -> bool {
    &&& d.wf()
    &&& d.shape == x.shape
    &&& forall|i: int|
        0 <= i < x.data.len() ==> quotient(f, start, x, i, eps, #[trigger] d.data[i])
}

fn nudged<T: Scalar>(x: &Tensor<T>, i: usize, value: T) -> (r: Tensor<T>)
    requires
        x.wf(),
        i < x@.data.len(),
    ensures
        r.wf(),
        r@ == with_element(x@, i as int, value),
{
    let mut r = x.duplicate();
    r.data.set(i, value);
    assert(r@ =~= with_element(x@, i as int, value));
    r
}

fn sum_of<T: Scalar>(x: &Tensor<T>) -> (r: T)
    ensures
        r == added_up(x@),
{
    let n: usize = x.data.len();
    let mut r: T = T::zero();
    let mut i: usize = 0;
    while i < n
        invariant
            i <= n,
            n == x.data@.len(),
            r == total(x.data@, i as int),
        decreases n - i,
    {
        r = r.add(x.data[i]);
        i = i + 1;
    }
    r
}

proof fn lemma_switched_arises<T, O, F: Fn(Graph<T, O>, &Variable) -> (Graph<T, O>, Variable)>(
    f: F,
    shape: Seq<usize>,
    start: Graph<T, O>,
    h: Graph<T, O>,
    k: Graph<T, O>,
)
    requires
        arises(f, shape, start, h),
        switched(h, k),
    ensures
        arises(f, shape, start, k),
{
    assert forall|inv: spec_fn(Graph<T, O>) -> bool| #[trigger]
        survives(f, shape, inv) && inv(start) implies inv(k) by {
        assert(inv(h));
    }
}

/// Makes a variable that holds `point`, and runs `f` on it.
fn probe<T, O, F: Fn(Graph<T, O>, &Variable) -> (Graph<T, O>, Variable)>(
    g: Graph<T, O>,
    f: &F,
    point: Tensor<T>,
    Ghost(start): Ghost<Graph<T, O>>,
) -> (r: (Graph<T, O>, Variable, Variable, Ghost<Graph<T, O>>))
    requires
        g.wf(),
        point.wf(),
        arises(*f, point@.shape, start, g),
        can_probe(*f, point@.shape, start),
    ensures
        arises(*f, point@.shape, start, r.3@),
        is_probe(r.3@, r.1, point@.shape),
        held(r.3@, r.1) == point@,
        r.3@.config == g.config,
        runs(*f, r.3@, r.1, r.0, r.2),
        arises(*f, point@.shape, start, r.0),
        r.0.wf(),
        r.0.config == g.config,
        holds(r.0, r.2),
{
    let mut g = g;
    let ghost before = g;
    let ghost shape = point@.shape;
    let v = Variable::new(&mut g, point);
    let ghost h = g;
    assert(arises(*f, shape, start, h)) by {
        assert forall|inv: spec_fn(Graph<T, O>) -> bool| #[trigger]
            survives(*f, shape, inv) && inv(start) implies inv(h) by {
            assert(inv(before));
            assert(one_more(before, h, v));
        }
    }
    assert(is_probe(h, v, shape));
    assert(call_requires(*f, (h, &v)));
    let (g, y) = f(g, &v);
    assert(runs(*f, h, v, g, y));
    assert(arises(*f, shape, start, g)) by {
        assert forall|inv: spec_fn(Graph<T, O>) -> bool| #[trigger]
            survives(*f, shape, inv) && inv(start) implies inv(g) by {
            assert(inv(h));
        }
    }
    (g, v, y, Ghost(h))
}

/// The sum of what `f` gives at `point`.
fn measure<T: Scalar, O, F: Fn(Graph<T, O>, &Variable) -> (Graph<T, O>, Variable)>(
    g: Graph<T, O>,
    f: &F,
    point: Tensor<T>,
    Ghost(start): Ghost<Graph<T, O>>,
) -> (r: (Graph<T, O>, T))
    requires
        g.wf(),
        !g.config.enable_backprop,
        point.wf(),
        arises(*f, point@.shape, start, g),
        can_probe(*f, point@.shape, start),
    ensures
        r.0.wf(),
        r.0.config == g.config,
        arises(*f, point@.shape, start, r.0),
        measured(*f, start, point@, r.1),
{
    let ghost at = point@;
    let (g, v, y, Ghost(h)) = probe(g, f, point, Ghost(start));
    let sum: T = match y.data(&g) {
        Some(t) => sum_of(t),
        None => T::zero(),
    };
    assert(runs(*f, h, v, g, y));
    assert(measured(*f, start, at, sum));
    (g, sum)
}

/// The derivative of the sum of `f` at `x` by central differences, element by element.
/// The graph goes through `f` and comes back with what `f` made of it.
pub fn numerical_diff<T: Scalar, O, F: Fn(Graph<T, O>, &Variable) -> (Graph<T, O>, Variable)>(
    g: Graph<T, O>,
    f: &F,
    x: &Variable,
    eps: T,
) -> (r: (Graph<T, O>, Tensor<T>))
    requires
        g.wf(),
        holds(g, *x),
        can_probe(*f, held(g, *x).shape, g),
    ensures
        r.0.wf(),
        r.0.config == g.config,
        arises(*f, held(g, *x).shape, g, r.0),
        r.1.wf(),
        quotients(*f, g, held(g, *x), eps, r.1@),
{
    let ghost start = g;
    let ghost at = held(g, *x);
    proof {
        assert(g.node_ok(x.id as int));
    }
    let point: Tensor<T> = match x.data(&g) {
        Some(t) => t.duplicate(),
        None => Tensor::scalar(T::zero()),
    };
    let mut g = g;
    let guard = no_grad(&mut g.config);
    proof {
        lemma_nodes_ok(start);
        lemma_history_kept(start, g);
        lemma_switched_arises(*f, at.shape, start, start, g);
    }
    let n: usize = point.data.len();
    let mut grad: Vec<T> = Vec::new();
    let mut i: usize = 0;
    while i < n
        invariant
            i <= n,
            n == point@.data.len(),
            point.wf(),
            point@ == at,
            g.wf(),
            g.config == (Config { enable_backprop: false, ..start.config }),
            arises(*f, at.shape, start, g),
            can_probe(*f, at.shape, start),
            grad@.len() == i,
            forall|j: int|
                0 <= j < i ==> quotient(*f, start, at, j, eps, #[trigger] grad@[j]),
        decreases n - i,
    {
        let original: T = point.data[i];
        let p = nudged(&point, i, original.add(eps));
        let m = nudged(&point, i, original.sub(eps));
        let (after, further) = measure(g, f, p, Ghost(start));
        let (after, back) = measure(after, f, m, Ghost(start));
        g = after;
        let d: T = further.sub(back).div(T::from_count(2).mul(eps));
        assert(quotient(*f, start, at, i as int, eps, d));
        grad.push(d);
        i = i + 1;
    }
    let ghost last = g;
    guard.restore(&mut g.config);
    proof {
        lemma_nodes_ok(last);
        lemma_history_kept(last, g);
        lemma_switched_arises(*f, at.shape, start, last, g);
    }
    (g, Tensor { shape: copy_of(point.shape.as_slice()), data: grad })
}

/// The absolute value.
pub open spec fn magnitude<T: Scalar>(a: T) -> T {
    if T::zero_spec().exceeds(a) {
        a.negated()
    } else {
        a
    }
}

fn abs<T: Scalar>(a: T) -> (r: T)
    ensures
        r == magnitude(a),
{
    if T::zero().gt(a) {
        a.neg()
    } else {
        a
    }
}

/// Whether an element compares with others at all, which a result that is not a number
/// does not: an element above zero does, one below zero does, and zero is recognised by
/// its leaving one above zero.
pub open spec fn ordered<T: Scalar>(a: T) -> bool {
    a.exceeds(T::zero_spec()) || T::zero_spec().exceeds(a) || T::one_spec().plus(a).exceeds(
        T::zero_spec(),
    )
}

/// Whether an element compares with others at all.
pub fn is_ordered<T: Scalar>(a: T) -> (r: bool)
    ensures
        r == ordered(a),
{
    a.gt(T::zero()) || T::zero().gt(a) || T::one().add(a).gt(T::zero())
}

/// Whether `a` lies as near to `b` as the tolerances allow.
pub open spec fn near<T: Scalar>(a: T, b: T, rtol: T, atol: T) -> bool {
    let distance = magnitude(a.minus(b));
    let bound = atol.plus(rtol.times(magnitude(b)));
    ordered(distance) && ordered(bound) && !distance.exceeds(bound)
}

/// The greatest of the first `n` distances between elements, or zero where there are
/// none.
pub open spec fn widest<T: Scalar>(a: Seq<T>, b: Seq<T>, n: int) -> T
    decreases n,
{
    if n <= 0 {
        T::zero_spec()
    } else {
        let so_far = widest(a, b, n - 1);
        let distance = magnitude(a[n - 1].minus(b[n - 1]));
        if distance.exceeds(so_far) {
            distance
        } else {
            so_far
        }
    }
}

/// The two gradients that a failed check compared.
#[derive(Debug, Clone, PartialEq)]
pub struct GradientMismatch<T> {
    /// The gradient by differences.
    pub numerical: Tensor<T>,
    /// The gradient by backpropagation.
    pub analytical: Tensor<T>,
    /// The greatest distance between elements.
    pub max_abs_diff: T,
}

/// Why a gradient failed its check.
#[derive(Debug, Clone, PartialEq)]
pub enum GradientCheckError<T> {
    /// The variable holds no data, so that nothing can be moved.
    NoData,
    /// Backpropagation left no gradient.
    NoGradient,
    /// Backpropagation left a gradient of another shape.
    ShapeMismatch { numerical: Vec<usize>, analytical: Vec<usize> },
    /// The two gradients lie further apart than the tolerances allow.
    ValueMismatch(Box<GradientMismatch<T>>),
}

/// What is said of two gradients.
pub open spec fn judged<T: Scalar>(
    numerical: Array<T>,
    analytical: Array<T>,
    rtol: T,
    atol: T,
    verdict: Result<(), GradientCheckError<T>>,
) -> bool {
    let (a, b) = (numerical.data, analytical.data);
    if numerical.shape != analytical.shape {
        verdict matches Err(GradientCheckError::ShapeMismatch { numerical: n, analytical: m })
            && n@ == numerical.shape && m@ == analytical.shape
    } else if forall|i: int| 0 <= i < a.len() ==> near(#[trigger] a[i], b[i], rtol, atol) {
        verdict is Ok
    } else {
        verdict matches Err(GradientCheckError::ValueMismatch(w)) && w.numerical@ == numerical
            && w.analytical@ == analytical && w.max_abs_diff == widest(a, b, a.len() as int)
    }
}

/// Compares the gradient by differences with the one by backpropagation.
pub fn judge<T: Scalar>(
    numerical: Tensor<T>,
    analytical: Tensor<T>,
    rtol: T,
    atol: T,
) -> (r: Result<(), GradientCheckError<T>>)
    requires
        numerical.wf(),
        analytical.wf(),
    ensures
        judged(numerical@, analytical@, rtol, atol, r),
        r is Ok <==> passes(numerical@, analytical@, rtol, atol),
{
    proof {
        assert forall|verdict: Result<(), GradientCheckError<T>>| #[trigger] judged(
            numerical@,
            analytical@,
            rtol,
            atol,
            verdict,
        ) implies (verdict is Ok <==> passes(numerical@, analytical@, rtol, atol)) by {
            a_gradient_passes_within_its_tolerances(
                numerical@,
                analytical@,
                rtol,
                atol,
                verdict,
            );
        }
    }
    if !same(numerical.shape.as_slice(), analytical.shape.as_slice()) {
        return Err(
            GradientCheckError::ShapeMismatch {
                numerical: numerical.shape,
                analytical: analytical.shape,
            },
        );
    }
    let n: usize = numerical.data.len();
    let ghost (a, b) = (numerical@.data, analytical@.data);
    let mut max_abs_diff: T = T::zero();
    let mut within = true;
    let mut i: usize = 0;
    while i < n
        invariant
            i <= n,
            n == a.len(),
            n == b.len(),
            a == numerical.data@,
            b == analytical.data@,
            max_abs_diff == widest(a, b, i as int),
            within == (forall|j: int| 0 <= j < i ==> near(#[trigger] a[j], b[j], rtol, atol)),
        decreases n - i,
    {
        let distance: T = abs(numerical.data[i].sub(analytical.data[i]));
        let bound: T = atol.add(rtol.mul(abs(analytical.data[i])));
        if distance.gt(max_abs_diff) {
            max_abs_diff = distance;
        }
        let ghost before = within;
        if !(is_ordered(distance) && is_ordered(bound) && !distance.gt(bound)) {
            within = false;
        }
        proof {
            assert(within == (before && near(a[i as int], b[i as int], rtol, atol)));
            if within {
                assert forall|j: int| 0 <= j < i + 1 implies near(
                    #[trigger] a[j],
                    b[j],
                    rtol,
                    atol,
                ) by {
                    if j < i {
                        assert(near(a[j], b[j], rtol, atol));
                    }
                }
            }
        }
        i = i + 1;
    }
    if within {
        Ok(())
    } else {
        Err(
            GradientCheckError::ValueMismatch(
                Box::new(GradientMismatch { numerical, analytical, max_abs_diff }),
            ),
        )
    }
}

/// What a check says once `f` has been run on a copy `v` of `x`, turning `h` into `k` and
/// giving `y`: the gradient that a backward pass from `y` leaves at the copy is held
/// against the difference quotients `n`.
pub open spec fn concluded<T: Scalar, O: Op<T>>(
    k: Graph<T, O>,
    v: Variable,
    y: Variable,
    n: Array<T>,
    rtol: T,
    atol: T,
    verdict: Result<(), GradientCheckError<T>>,
) -> bool {
    exists|order: Seq<Function>|
        {
            &&& #[trigger] is_schedule(k, y, order)
            &&& match run(k, seeded(k, y), order, order.len() as int, false)[v.id as int] {
                None => verdict matches Err(GradientCheckError::NoGradient),
                Some(d) => judged(n, d, rtol, atol, verdict),
            }
        }
}

/// Compares what backpropagation through `f` makes of a copy of `x` with central
/// differences. The graph goes through `f` and comes back with what `f` made of it; a
/// variable that holds no data is reported, and the graph left as it was.
pub fn gradient_check<
    T: Scalar,
    O: Backprop<T>,
    F: Fn(Graph<T, O>, &Variable) -> (Graph<T, O>, Variable),
>(g: Graph<T, O>, f: &F, x: &Variable, eps: T, rtol: T, atol: T) -> (r: (
    Graph<T, O>,
    Result<(), GradientCheckError<T>>,
))
    requires
        g.wf(),
        g.has(*x),
        holds(g, *x) ==> can_probe(*f, held(g, *x).shape, g) && can_check(*f, held(g, *x), g),
    ensures
        r.0.wf(),
        r.0.config == g.config,
        g.node(*x).data is None ==> r.0 == g && r.1 == Err::<(), GradientCheckError<T>>(
            GradientCheckError::NoData,
        ),
        holds(g, *x) ==> exists|
            n: Array<T>,
            h: Graph<T, O>,
            v: Variable,
            k: Graph<T, O>,
            y: Variable,
        |
            {
                &&& #[trigger] quotients(*f, g, held(g, *x), eps, n)
                &&& arises(*f, held(g, *x).shape, g, h)
                &&& is_probe(h, v, held(g, *x).shape)
                &&& held(h, v) == held(g, *x)
                &&& h.config == g.config
                &&& #[trigger] runs(*f, h, v, k, y)
                &&& keeps(k, r.0)
                &&& concluded(k, v, y, n, rtol, atol, r.1)
            },
{
    let ghost start = g;
    let point: Tensor<T> = match x.data(&g) {
        Some(t) => t.duplicate(),
        None => {
            return (g, Err(GradientCheckError::NoData));
        },
    };
    let ghost at = held(start, *x);
    proof {
        assert(g.node_ok(x.id as int));
    }
    let (g, numerical) = numerical_diff(g, f, x, eps);
    let ghost n = numerical@;
    let (g, v, y, Ghost(h)) = probe(g, f, point, Ghost(start));
    let ghost k = g;
    assert(runs(*f, h, v, k, y));
    let mut g = g;
    y.backward(&mut g);
    proof {
        lemma_nodes_ok(g);
        let order = choose|order: Seq<Function>| #[trigger]
            is_schedule(k, y, order) && holds_grads(
                g,
                run(k, seeded(k, y), order, order.len() as int, false),
            );
        let grads = run(k, seeded(k, y), order, order.len() as int, false);
        lemma_run_len(k, y, seeded(k, y), order, order.len() as int, false);
        assert(grads[v.id as int] == gradients(g)[v.id as int]);
    }
    let left: Option<Tensor<T>> = match v.grad(&g) {
        Some(d) => match d.data(&g) {
            Some(t) => Some(t.duplicate()),
            None => None,
        },
        None => None,
    };
    let verdict = match left {
        None => Err(GradientCheckError::NoGradient),
        Some(d) => judge(numerical, d, rtol, atol),
    };
    assert(concluded(k, v, y, n, rtol, atol, verdict));
    (g, verdict)
}

impl<T> GradientCheckError<T> {
    /// What the error says, given how the greatest distance and the two gradients are
    /// written.
    pub open spec fn text(self, widest: Seq<char>, a: Seq<char>, b: Seq<char>) -> Seq<char> {
        match self {
            GradientCheckError::NoData => "gradient check: the variable holds no data"@,
            GradientCheckError::NoGradient =>
                "gradient check: backpropagation produced no gradient for the input"@,
            GradientCheckError::ShapeMismatch { numerical, analytical } =>
                "gradient check: numerical gradient has shape "@ + list_text(numerical@)
                    + " but backpropagation produced "@ + list_text(analytical@),
            GradientCheckError::ValueMismatch(_) => "gradient check: gradients differ by up to "@
                + widest + "\n numerical: "@ + a + "\n analytical: "@ + b,
        }
    }

    /// What the error says to a reader.
    #[must_use]
    pub fn to_string(&self, widest: &str, numerical: &str, analytical: &str) -> (r: String)
        ensures
            r@ == self.text(widest@, numerical@, analytical@),
    {
        match self {
            GradientCheckError::NoData => "gradient check: the variable holds no data".to_owned(),
            GradientCheckError::NoGradient =>
                "gradient check: backpropagation produced no gradient for the input".to_owned(),
            GradientCheckError::ShapeMismatch { numerical: n, analytical: m } => {
                let mut s: String = "gradient check: numerical gradient has shape ".to_owned();
                s.append(list(n.as_slice()).as_str());
                s.append(" but backpropagation produced ");
                s.append(list(m.as_slice()).as_str());
                s
            },
            GradientCheckError::ValueMismatch(_) => {
                let mut s: String = "gradient check: gradients differ by up to ".to_owned();
                s.append(widest);
                s.append("\n numerical: ");
                s.append(numerical);
                s.append("\n analytical: ");
                s.append(analytical);
                s
            },
        }
    }
}

} // verus!
