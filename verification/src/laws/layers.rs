//! Fully connected and recurrent layers, element by element.
use crate::engine::builtin::{held, holds};
use crate::engine::function::Op;
use crate::engine::graph::{Graph, Variable};
use crate::engine::rule::Rule;
use crate::engine::trace::{a_run_computes_its_steps, a_run_only_adds, outcome_of, runs, Step};
use crate::functions::conv::{conv2d_shape, conv2d_spec};
use crate::functions::matmul::linear_spec;
use crate::laws::elements::{
    adding_adds_entries, is_affine, is_product, is_sum, linear_is_affine,
    multiplying_multiplies_entries,
};
use crate::laws::images::{convolving_weighs_windows, is_convolved};
use crate::layers::conv::Conv2dLayer;
use crate::layers::linear::{with_input, Linear};
use crate::layers::rnn::{
    cell_fits, cell_length, cell_place, cell_steps, gate_fits, gate_length, gate_shape, gate_steps,
    lemma_cell_length, lemma_gate_length, linear_step, made, nth, pointwise, shape_held, Lstm, Rnn,
};
use crate::models::{result_of, Model};
use crate::scalar::Scalar;
use crate::tensor::Array;
use vstd::prelude::*;

verus! {

// ---------------------------------------------------------------------------
// words
// ---------------------------------------------------------------------------
/// The weight of a layer.
pub open spec fn weight_of<T, O>(g: Graph<T, O>, l: Linear) -> Array<T> {
    held(g, l.weight.variable)
}

/// The bias of a layer, where it has one.
pub open spec fn bias_of<T, O>(g: Graph<T, O>, l: Linear) -> Option<Array<T>> {
    match l.bias {
        Some(b) => Some(held(g, b.variable)),
        None => None,
    }
}

/// The bias of a convolution, where it has one.
pub open spec fn conv_bias_of<T, O>(g: Graph<T, O>, c: Conv2dLayer) -> Option<Array<T>> {
    match c.bias {
        Some(b) => Some(held(g, b.variable)),
        None => None,
    }
}

/// What an operation on one array makes of it.
pub open spec fn made_of<T: Scalar, O: Op<T>>(rule: O::Rule, x: Array<T>) -> Array<T> {
    O::value(rule, seq![x])[0]
}

/// Whether `y` is what a gate gives: the activation of the affine map of the input `x`, to
/// which the affine map of the state before has been added where there was one. `from` are
/// the layers from the input and from the state.
pub open spec fn is_gate<T: Scalar, O: Op<T>>(
    g: Graph<T, O>,
    y: Array<T>,
    activation: O::Rule,
    from: (Linear, Linear),
    x: Array<T>,
    state: Option<Array<T>>,
) -> bool {
    match state {
        None => exists|a: Array<T>| #[trigger]
            is_affine(a, x, weight_of(g, from.0), bias_of(g, from.0)) && y == made_of::<T, O>(
                activation,
                a,
            ),
        Some(h) => exists|a: Array<T>, b: Array<T>, sum: Array<T>|
            {
                &&& is_affine(a, x, weight_of(g, from.0), bias_of(g, from.0))
                &&& is_affine(b, h, weight_of(g, from.1), bias_of(g, from.1))
                &&& #[trigger] is_sum(sum, a, b)
                &&& y == made_of::<T, O>(activation, sum)
            },
    }
}

/// What a variable holds, where there is one.
pub open spec fn held_by<T, O>(g: Graph<T, O>, v: Option<Variable>) -> Option<Array<T>> {
    match v {
        Some(v) => Some(held(g, v)),
        None => None,
    }
}

/// Whether a memory that held `c` holds `next` and shows `y` behind the gates that forget,
/// take up, show and propose: `next` is what is kept of `c` plus what is taken up of the
/// proposal, and `y` what is shown of the activation of `next`.
pub open spec fn is_mixed<T: Scalar, O: Op<T>>(
    c: Option<Array<T>>,
    next: Array<T>,
    y: Array<T>,
    forget: Array<T>,
    take: Array<T>,
    show: Array<T>,
    proposal: Array<T>,
    tanh: O::Rule,
) -> bool {
    &&& match c {
        None => is_product(next, take, proposal),
        Some(c) => exists|kept: Array<T>, fresh: Array<T>|
            {
                &&& is_product(kept, forget, c)
                &&& is_product(fresh, take, proposal)
                &&& #[trigger] is_sum(next, kept, fresh)
            },
    }
    &&& is_product(y, show, made_of::<T, O>(tanh, next))
}

/// Whether a long short-term memory that shows `h` and holds `c` shows `y` and holds `next`
/// behind a run on `x`: the four gates see the input and what was shown, and are mixed.
pub open spec fn is_run_of_memory<T: Scalar, O: Op<T>, S: Fn() -> O, H: Fn() -> O>(
    g: Graph<T, O>,
    l: Lstm<S, H>,
    x: Array<T>,
    h: Option<Array<T>>,
    c: Option<Array<T>>,
    next: Array<T>,
    y: Array<T>,
) -> bool {
    exists|f: Array<T>, i: Array<T>, o: Array<T>, u: Array<T>|
        {
            let (sigmoid, tanh) = (made::<T, O, S>(l.sigmoid), made::<T, O, H>(l.tanh));
            &&& is_gate::<T, O>(g, f, sigmoid, (l.x2f, l.h2f), x, h)
            &&& is_gate::<T, O>(g, i, sigmoid, (l.x2i, l.h2i), x, h)
            &&& is_gate::<T, O>(g, o, sigmoid, (l.x2o, l.h2o), x, h)
            &&& is_gate::<T, O>(g, u, tanh, (l.x2u, l.h2u), x, h)
            &&& #[trigger] is_mixed::<T, O>(c, next, y, f, i, o, u, made::<T, O, H>(l.tanh))
        }
}

// ---------------------------------------------------------------------------
// laws
// ---------------------------------------------------------------------------
/// What stood in a graph stays there while it grows.
pub proof fn lemma_still_held<T, O>(before: Graph<T, O>, after: Graph<T, O>, v: Variable)
    requires
        after.extends(before),
        holds(before, v),
    ensures
        holds(after, v),
        held(after, v) == held(before, v),
{
    assert(after.nodes@[v.id as int] == before.nodes@[v.id as int]);
}

/// A variable that a built-in step adds holds what the rule makes of its inputs.
pub proof fn lemma_step_value<T: Scalar, O: Op<T>>(
    before: Graph<T, O>,
    after: Graph<T, O>,
    steps: Seq<Step<O::Rule>>,
    k: int,
    rule: Rule,
    inputs: Seq<Variable>,
)
    requires
        runs(before, after, steps),
        0 <= k < steps.len(),
        steps[k] == (Step { rule: O::embed(rule), inputs }),
    ensures
        after.all_hold(inputs),
        after.extends(before),
        holds(after, outcome_of(before, k)),
        held(after, outcome_of(before, k)) == rule.value(after.arrays(inputs)),
{
    O::embedding(rule);
    a_run_computes_its_steps(before, after, steps, k);
    a_run_only_adds(before, after, steps);
    assert(O::value(O::embed(rule), after.arrays(inputs)) == seq![
        rule.value(after.arrays(inputs)),
    ]);
    assert(after.nodes.len() == after.nodes@.len());
}

/// Whether every array of a graph is whole.
pub open spec fn whole<T, O>(g: Graph<T, O>) -> bool {
    forall|v: Variable| holds(g, v) ==> (#[trigger] held(g, v)).wf()
}

/// The arrays of a graph in order are whole, and so are those of what it grew from.
pub proof fn lemma_whole<T, O>(before: Graph<T, O>, after: Graph<T, O>)
    requires
        after.wf() || whole(after),
        after.extends(before),
    ensures
        whole(before),
        whole(after),
{
    assert forall|v: Variable| holds(after, v) implies (#[trigger] held(after, v)).wf() by {
        if after.wf() {
            assert(after.node_ok(v.id as int));
        }
    }
    assert forall|v: Variable| holds(before, v) implies (#[trigger] held(before, v)).wf() by {
        lemma_still_held(before, after, v);
    }
}

/// The variable that the step of a fully connected layer adds holds the affine map of what
/// the layer reads.
pub proof fn lemma_linear_step<T: Scalar, O: Op<T>>(
    before: Graph<T, O>,
    after: Graph<T, O>,
    steps: Seq<Step<O::Rule>>,
    k: int,
    l: Linear,
    x: Variable,
)
    requires
        whole(after),
        runs(before, after, steps),
        0 <= k < steps.len(),
        steps[k] == linear_step::<T, O>(l, x),
        holds(after, x),
        Model::<T, O>::takes(&l, before, held(after, x).shape),
    ensures
        holds(after, outcome_of(before, k)),
        is_affine(
            held(after, outcome_of(before, k)),
            held(after, x),
            weight_of(before, l),
            bias_of(before, l),
        ),
        held(after, outcome_of(before, k)).shape == seq![
            held(after, x).shape[0],
            weight_of(before, l).shape[1],
        ],
{
    let inputs = with_input(x, l.weight, l.bias);
    lemma_step_value(before, after, steps, k, Rule::Linear, inputs);
    lemma_whole(before, after);
    lemma_still_held(before, after, l.weight.variable);
    let xs = after.arrays(inputs);
    assert(xs[0] == held(after, x));
    assert(xs[1] == weight_of(before, l));
    if let Some(b) = l.bias {
        lemma_still_held(before, after, b.variable);
        assert(xs[2] == held(before, b.variable));
    }
    let y = held(after, outcome_of(before, k));
    assert(y == linear_spec(held(after, x), weight_of(before, l), bias_of(before, l)));
    linear_is_affine(held(after, x), weight_of(before, l), bias_of(before, l));
    assert(y.shape =~= seq![held(after, x).shape[0], weight_of(before, l).shape[1]]);
}

/// A fully connected layer gives the affine map of its input.
pub proof fn a_layer_is_affine<T: Scalar, O: Op<T>>(
    before: Graph<T, O>,
    after: Graph<T, O>,
    l: Linear,
    x: Variable,
    y: Variable,
)
    requires
        before.wf(),
        after.wf(),
        holds(before, x),
        Model::<T, O>::takes(&l, before, held(before, x).shape),
        runs(before, after, Model::<T, O>::steps(&l, before.nodes@.len(), x)),
        y == result_of(
            before,
            Model::<T, O>::steps(&l, before.nodes@.len(), x).len() as int,
            x,
        ),
    ensures
        holds(after, y),
        is_affine(held(after, y), held(before, x), weight_of(before, l), bias_of(before, l)),
{
    let steps = Model::<T, O>::steps(&l, before.nodes@.len(), x);
    a_run_only_adds(before, after, steps);
    lemma_whole(before, after);
    lemma_still_held(before, after, x);
    lemma_linear_step(before, after, steps, 0, l, x);
}

/// A step that convolves weighs the windows of its input.
pub proof fn lemma_conv_step<T: Scalar, O: Op<T>>(
    before: Graph<T, O>,
    after: Graph<T, O>,
    steps: Seq<Step<O::Rule>>,
    k: int,
    c: Conv2dLayer,
    x: Variable,
)
    requires
        whole(after),
        runs(before, after, steps),
        0 <= k < steps.len(),
        steps[k] == Model::<T, O>::steps(&c, before.nodes@.len(), x)[0],
        holds(before, x),
        Model::<T, O>::takes(&c, before, held(before, x).shape),
    ensures
        holds(after, outcome_of(before, k)),
        held(after, outcome_of(before, k)).shape == Model::<T, O>::gives(
            &c,
            before,
            held(before, x).shape,
        ),
        is_convolved(
            held(after, outcome_of(before, k)),
            held(before, x),
            held(before, c.weight.variable),
            conv_bias_of(before, c),
            c.stride,
            c.pad,
        ),
{
    a_run_only_adds(before, after, steps);
    lemma_whole(before, after);
    assert(after.nodes.len() == after.nodes@.len());
    lemma_still_held(before, after, x);
    lemma_still_held(before, after, c.weight.variable);
    if let Some(b) = c.bias {
        lemma_still_held(before, after, b.variable);
    }
    let rule = Rule::Conv2d { stride: c.stride, pad: c.pad };
    let inputs = with_input(x, c.weight, c.bias);
    lemma_step_value(before, after, steps, k, rule, inputs);
    let (xa, w, b) = (held(before, x), held(before, c.weight.variable), conv_bias_of(before, c));
    let xs = after.arrays(inputs);
    assert(xs[0] == xa && xs[1] == w);
    if b is Some {
        assert(xs[2] == b->0);
    }
    let a = held(after, outcome_of(before, k));
    assert(a == conv2d_spec(xa, w, b, c.stride, c.pad));
    convolving_weighs_windows(xa, w, b, c.stride, c.pad);
    assert(a.shape =~= conv2d_shape(xa.shape, w.shape, c.stride, c.pad));
}

/// What a convolution layer gives is its input convolved with its filters, plus its bias
/// where it has one.
pub proof fn a_convolution_layer_weighs_windows<T: Scalar, O: Op<T>>(
    before: Graph<T, O>,
    after: Graph<T, O>,
    c: Conv2dLayer,
    x: Variable,
    y: Variable,
)
    requires
        before.wf(),
        after.wf(),
        holds(before, x),
        Model::<T, O>::takes(&c, before, held(before, x).shape),
        runs(before, after, Model::<T, O>::steps(&c, before.nodes@.len(), x)),
        y == result_of(
            before,
            Model::<T, O>::steps(&c, before.nodes@.len(), x).len() as int,
            x,
        ),
    ensures
        holds(after, y),
        is_convolved(
            held(after, y),
            held(before, x),
            held(before, c.weight.variable),
            conv_bias_of(before, c),
            c.stride,
            c.pad,
        ),
{
    let steps = Model::<T, O>::steps(&c, before.nodes@.len(), x);
    a_run_only_adds(before, after, steps);
    lemma_whole(before, after);
    lemma_conv_step(before, after, steps, 0, c, x);
}

/// The last variable that a gate adds holds what a gate gives.
pub proof fn lemma_gate<T: Scalar, O: Op<T>>(
    before: Graph<T, O>,
    after: Graph<T, O>,
    steps: Seq<Step<O::Rule>>,
    at: int,
    from: (Linear, Linear),
    x: Variable,
    h: Option<Variable>,
    activation: O::Rule,
)
    requires
        whole(after),
        runs(before, after, steps),
        0 <= at,
        at + gate_length(h) <= steps.len(),
        steps.subrange(at, at + gate_length(h)) == gate_steps::<T, O>(
            (before.nodes@.len() + at) as nat,
            from.0,
            from.1,
            x,
            h,
            activation,
        ),
        holds(before, x),
        gate_fits(before, from.0, from.1, held(before, x).shape, h),
        pointwise::<T, O>(activation),
    ensures
        holds(after, outcome_of(before, at + gate_length(h) - 1)),
        held(after, outcome_of(before, at + gate_length(h) - 1)).shape == gate_shape(
            before,
            from.0,
            from.1,
            held(before, x).shape,
            h,
        ),
        is_gate::<T, O>(
            before,
            held(after, outcome_of(before, at + gate_length(h) - 1)),
            activation,
            from,
            held(before, x),
            held_by(before, h),
        ),
{
    reveal(gate_steps);
    let n = (before.nodes@.len() + at) as nat;
    let part = steps.subrange(at, at + gate_length(h));
    let (x2, h2) = from;
    let last = outcome_of(before, at + gate_length(h) - 1);
    a_run_only_adds(before, after, steps);
    lemma_whole(before, after);
    assert(after.nodes.len() == after.nodes@.len());
    lemma_still_held(before, after, x);
    assert(part[0] == steps[at]);
    lemma_linear_step(before, after, steps, at, x2, x);
    let va = outcome_of(before, at);
    assert(va == nth(n, 0));
    let a = held(after, va);
    match h {
        None => {
            assert(part[1] == steps[at + 1]);
            a_run_computes_its_steps(before, after, steps, at + 1);
            assert(after.arrays(seq![va]) =~= seq![a]);
            assert(held(after, last) == made_of::<T, O>(activation, a));
        },
        Some(s) => {
            assert(part[1] == steps[at + 1] && part[2] == steps[at + 2] && part[3] == steps[at
                + 3]);
            lemma_still_held(before, after, s);
            lemma_linear_step(before, after, steps, at + 1, h2, s);
            let vb = outcome_of(before, at + 1);
            assert(vb == nth(n, 1));
            let b = held(after, vb);
            lemma_step_value(before, after, steps, at + 2, Rule::Add, seq![va, vb]);
            assert(after.arrays(seq![va, vb]) =~= seq![a, b]);
            let vs = outcome_of(before, at + 2);
            assert(vs == nth(n, 2));
            let sum = held(after, vs);
            adding_adds_entries(a, b);
            a_run_computes_its_steps(before, after, steps, at + 3);
            assert(after.arrays(seq![vs]) =~= seq![sum]);
            assert(held(after, last) == made_of::<T, O>(activation, sum));
            assert(is_sum(sum, a, b));
        },
    }
}

/// What a recurrent layer gives is the activation of the affine map of its input, to which
/// the affine map of its state has been added once there is one.
pub proof fn a_recurrent_layer_adds_its_state<T: Scalar, O: Op<T>, H: Fn() -> O>(
    before: Graph<T, O>,
    after: Graph<T, O>,
    l: Rnn<H>,
    x: Variable,
    y: Variable,
)
    requires
        before.wf(),
        after.wf(),
        holds(before, x),
        Model::<T, O>::takes(&l, before, held(before, x).shape),
        runs(before, after, Model::<T, O>::steps(&l, before.nodes@.len(), x)),
        y == result_of(
            before,
            Model::<T, O>::steps(&l, before.nodes@.len(), x).len() as int,
            x,
        ),
    ensures
        holds(after, y),
        is_gate::<T, O>(
            before,
            held(after, y),
            made::<T, O, H>(l.tanh),
            (l.x2h, l.h2h),
            held(before, x),
            held_by(before, l.h),
        ),
{
    let n = before.nodes@.len();
    let steps = Model::<T, O>::steps(&l, n, x);
    let rule = made::<T, O, H>(l.tanh);
    a_run_only_adds(before, after, steps);
    lemma_whole(before, after);
    lemma_gate_length::<T, O>(n, l.x2h, l.h2h, x, l.h, rule);
    assert(steps.subrange(0, gate_length(l.h)) =~= steps);
    lemma_gate(before, after, steps, 0, (l.x2h, l.h2h), x, l.h, rule);
}

/// A recurrent layer that gave `given` adds that as its state in its next run.
pub proof fn a_recurrent_layer_remembers<T: Scalar, O: Op<T>, H: Fn() -> O>(
    before: Graph<T, O>,
    after: Graph<T, O>,
    l: Rnn<H>,
    given: Variable,
    x: Variable,
    y: Variable,
)
    requires
        before.wf(),
        after.wf(),
        holds(before, x),
        holds(before, given),
        Model::<T, O>::takes(&l.having_given(given), before, held(before, x).shape),
        runs(
            before,
            after,
            Model::<T, O>::steps(&l.having_given(given), before.nodes@.len(), x),
        ),
        y == result_of(
            before,
            Model::<T, O>::steps(&l.having_given(given), before.nodes@.len(), x).len() as int,
            x,
        ),
    ensures
        holds(after, y),
        is_gate::<T, O>(
            before,
            held(after, y),
            made::<T, O, H>(l.tanh),
            (l.x2h, l.h2h),
            held(before, x),
            Some(held(before, given)),
        ),
{
    a_recurrent_layer_adds_its_state(before, after, l.having_given(given), x, y);
}

/// What mixing adds holds the new cell state and what is shown of it.
proof fn lemma_mix<T: Scalar, O: Op<T>>(
    before: Graph<T, O>,
    after: Graph<T, O>,
    steps: Seq<Step<O::Rule>>,
    at: int,
    f: Variable,
    i: Variable,
    o: Variable,
    u: Variable,
    c: Option<Variable>,
    tanh: O::Rule,
)
    requires
        whole(after),
        runs(before, after, steps),
        0 <= at,
        at + cell_length(c) <= steps.len(),
        steps.subrange(at, at + cell_length(c)) == cell_steps::<T, O>(
            (before.nodes@.len() + at) as nat,
            f,
            i,
            o,
            u,
            c,
            tanh,
        ),
        holds(after, f) && holds(after, i) && holds(after, o) && holds(after, u),
        c matches Some(v) ==> holds(after, v) && held(after, v).shape.len() <= 2,
        held(after, f).shape.len() == 2,
        held(after, i).shape.len() == 2,
        held(after, o).shape.len() == 2,
        held(after, u).shape.len() == 2,
        cell_fits(
            held(after, f).shape,
            held(after, i).shape,
            held(after, o).shape,
            held(after, u).shape,
            shape_held(after, c),
        ),
        pointwise::<T, O>(tanh),
    ensures
        holds(after, outcome_of(before, at + cell_place(c))),
        holds(after, outcome_of(before, at + cell_length(c) - 1)),
        is_mixed::<T, O>(
            held_by(after, c),
            held(after, outcome_of(before, at + cell_place(c))),
            held(after, outcome_of(before, at + cell_length(c) - 1)),
            held(after, f),
            held(after, i),
            held(after, o),
            held(after, u),
            tanh,
        ),
{
    reveal(cell_steps);
    let n = (before.nodes@.len() + at) as nat;
    let part = steps.subrange(at, at + cell_length(c));
    a_run_only_adds(before, after, steps);
    lemma_whole(before, after);
    assert(after.nodes.len() == after.nodes@.len());
    let (af, ai, ao, au) = (held(after, f), held(after, i), held(after, o), held(after, u));
    let place = cell_place(c);
    let cell = outcome_of(before, at + place);
    match c {
        None => {
            assert(part[0] == steps[at]);
            lemma_step_value(before, after, steps, at, Rule::Mul, seq![i, u]);
            assert(after.arrays(seq![i, u]) =~= seq![ai, au]);
            multiplying_multiplies_entries(ai, au);
        },
        Some(v) => {
            let ac = held(after, v);
            assert(part[0] == steps[at] && part[1] == steps[at + 1] && part[2] == steps[at + 2]);
            lemma_step_value(before, after, steps, at, Rule::Mul, seq![f, v]);
            assert(after.arrays(seq![f, v]) =~= seq![af, ac]);
            multiplying_multiplies_entries(af, ac);
            lemma_step_value(before, after, steps, at + 1, Rule::Mul, seq![i, u]);
            assert(after.arrays(seq![i, u]) =~= seq![ai, au]);
            multiplying_multiplies_entries(ai, au);
            let (vk, vn) = (outcome_of(before, at), outcome_of(before, at + 1));
            assert(vk == nth(n, 0) && vn == nth(n, 1));
            let (kept, fresh) = (held(after, vk), held(after, vn));
            lemma_step_value(before, after, steps, at + 2, Rule::Add, seq![vk, vn]);
            assert(after.arrays(seq![vk, vn]) =~= seq![kept, fresh]);
            adding_adds_entries(kept, fresh);
            assert(is_sum(held(after, cell), kept, fresh));
        },
    }
    assert(cell == nth(n, place));
    let next = held(after, cell);
    assert(part[place + 1] == steps[at + place + 1] && part[place + 2] == steps[at + place + 2]);
    a_run_computes_its_steps(before, after, steps, at + place + 1);
    assert(after.arrays(seq![cell]) =~= seq![next]);
    let vt = outcome_of(before, at + place + 1);
    assert(vt == nth(n, place + 1));
    let t = held(after, vt);
    assert(t == made_of::<T, O>(tanh, next));
    lemma_step_value(before, after, steps, at + place + 2, Rule::Mul, seq![o, vt]);
    assert(after.arrays(seq![o, vt]) =~= seq![ao, t]);
    multiplying_multiplies_entries(ao, t);
}

/// A long short-term memory keeps of its cell state what the first gate lets it, takes up
/// what the second lets it of the fourth, and shows what the third lets it of the
/// activation of the result. `cell` is the new cell state and `y` what is given back.
pub proof fn a_memory_keeps_and_takes_up<T: Scalar, O: Op<T>, S: Fn() -> O, H: Fn() -> O>(
    before: Graph<T, O>,
    after: Graph<T, O>,
    l: Lstm<S, H>,
    x: Variable,
    cell: Variable,
    y: Variable,
)
    requires
        before.wf(),
        after.wf(),
        holds(before, x),
        l.c matches Some(c) ==> held(before, c).shape.len() <= 2,
        Model::<T, O>::takes(&l, before, held(before, x).shape),
        runs(before, after, Model::<T, O>::steps(&l, before.nodes@.len(), x)),
        cell == outcome_of(before, 4 * gate_length(l.h) + cell_place(l.c)),
        y == result_of(
            before,
            Model::<T, O>::steps(&l, before.nodes@.len(), x).len() as int,
            x,
        ),
    ensures
        holds(after, cell),
        holds(after, y),
        is_run_of_memory(
            before,
            l,
            held(before, x),
            held_by(before, l.h),
            held_by(before, l.c),
            held(after, cell),
            held(after, y),
        ),
{
    let n = before.nodes@.len();
    let steps = Model::<T, O>::steps(&l, n, x);
    let k = gate_length(l.h);
    let (sig, tan) = (made::<T, O, S>(l.sigmoid), made::<T, O, H>(l.tanh));
    let (vf, vi, vo, vu) = (
        outcome_of(before, k - 1),
        outcome_of(before, 2 * k - 1),
        outcome_of(before, 3 * k - 1),
        outcome_of(before, 4 * k - 1),
    );
    let m = (n + 4 * k) as nat;
    let (nf, ni, no, nu) = (nth(n, k - 1), nth(n, 2 * k - 1), nth(n, 3 * k - 1), nth(n, 4 * k - 1));
    let sf = gate_steps::<T, O>(n, l.x2f, l.h2f, x, l.h, sig);
    let si = gate_steps::<T, O>((n + k) as nat, l.x2i, l.h2i, x, l.h, sig);
    let so = gate_steps::<T, O>((n + 2 * k) as nat, l.x2o, l.h2o, x, l.h, sig);
    let su = gate_steps::<T, O>((n + 3 * k) as nat, l.x2u, l.h2u, x, l.h, tan);
    let sc = cell_steps::<T, O>(m, nf, ni, no, nu, l.c, tan);
    lemma_gate_length::<T, O>(n, l.x2f, l.h2f, x, l.h, sig);
    lemma_gate_length::<T, O>((n + k) as nat, l.x2i, l.h2i, x, l.h, sig);
    lemma_gate_length::<T, O>((n + 2 * k) as nat, l.x2o, l.h2o, x, l.h, sig);
    lemma_gate_length::<T, O>((n + 3 * k) as nat, l.x2u, l.h2u, x, l.h, tan);
    lemma_cell_length::<T, O>(m, nf, ni, no, nu, l.c, tan);
    assert(steps == sf + si + so + su + sc);
    a_run_only_adds(before, after, steps);
    lemma_whole(before, after);
    assert(after.nodes.len() == after.nodes@.len());
    assert(steps.subrange(0, k) =~= sf);
    assert(steps.subrange(k, 2 * k) =~= si);
    assert(steps.subrange(2 * k, 3 * k) =~= so);
    assert(steps.subrange(3 * k, 4 * k) =~= su);
    assert(steps.subrange(4 * k, 4 * k + cell_length(l.c)) =~= sc);
    lemma_gate(before, after, steps, 0, (l.x2f, l.h2f), x, l.h, sig);
    lemma_gate(before, after, steps, k, (l.x2i, l.h2i), x, l.h, sig);
    lemma_gate(before, after, steps, 2 * k, (l.x2o, l.h2o), x, l.h, sig);
    lemma_gate(before, after, steps, 3 * k, (l.x2u, l.h2u), x, l.h, tan);
    if let Some(c) = l.c {
        lemma_still_held(before, after, c);
    }
    assert(vf == nf && vi == ni && vo == no && vu == nu);
    lemma_mix(before, after, steps, 4 * k, vf, vi, vo, vu, l.c, tan);
    assert(is_mixed::<T, O>(
        held_by(before, l.c),
        held(after, cell),
        held(after, y),
        held(after, vf),
        held(after, vi),
        held(after, vo),
        held(after, vu),
        tan,
    ));
}

/// A long short-term memory goes on from the state and the cell state of its last run. The
/// first run, of `x` from `start` to `middle`, gives `y`, and the second, of `z`, gives `w`.
pub proof fn a_memory_remembers<T: Scalar, O: Op<T>, S: Fn() -> O, H: Fn() -> O>(
    start: Graph<T, O>,
    middle: Graph<T, O>,
    end: Graph<T, O>,
    l: Lstm<S, H>,
    x: Variable,
    y: Variable,
    z: Variable,
    w: Variable,
) -> (cells: (Array<T>, Array<T>))
    requires
        start.wf(),
        middle.wf(),
        end.wf(),
        holds(start, x),
        holds(middle, z),
        l.c matches Some(c) ==> held(start, c).shape.len() <= 2,
        Model::<T, O>::takes(&l, start, held(start, x).shape),
        runs(start, middle, Model::<T, O>::steps(&l, start.nodes@.len(), x)),
        y == result_of(start, Model::<T, O>::steps(&l, start.nodes@.len(), x).len() as int, x),
        Model::<T, O>::takes(&l.having_given(start, y), middle, held(middle, z).shape),
        runs(
            middle,
            end,
            Model::<T, O>::steps(&l.having_given(start, y), middle.nodes@.len(), z),
        ),
        w == result_of(
            middle,
            Model::<T, O>::steps(&l.having_given(start, y), middle.nodes@.len(), z).len() as int,
            z,
        ),
    ensures
        holds(middle, y),
        holds(end, w),
        is_run_of_memory(
            start,
            l,
            held(start, x),
            held_by(start, l.h),
            held_by(start, l.c),
            cells.0,
            held(middle, y),
        ),
        is_run_of_memory(
            middle,
            l,
            held(middle, z),
            Some(held(middle, y)),
            Some(cells.0),
            cells.1,
            held(end, w),
        ),
{
    let next = l.having_given(start, y);
    let first = outcome_of(start, 4 * gate_length(l.h) + cell_place(l.c));
    let second = outcome_of(middle, 4 * gate_length(next.h) + cell_place(next.c));
    a_memory_keeps_and_takes_up(start, middle, l, x, first, y);
    a_memory_keeps_and_takes_up(middle, end, next, z, second, w);
    (held(middle, first), held(end, second))
}

} // verus!
