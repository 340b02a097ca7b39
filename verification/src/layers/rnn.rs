//! Recurrent layers.

use vstd::prelude::*;

use crate::engine::builtin::{held, holds};
use crate::engine::elementwise::zips;
use crate::engine::function::{apply1, Op};
use crate::engine::graph::{Graph, Variable};
use crate::engine::parameter::Parameter;
use crate::engine::rule::{shapes, Rule};
use crate::engine::trace::{
    a_run_only_adds, lemma_apply, lemma_extends, lemma_no_steps, lemma_runs_chain, outcome_of, runs,
    Step,
};
use crate::laws::layers::{
    a_memory_keeps_and_takes_up, a_recurrent_layer_adds_its_state, held_by, is_gate,
    is_run_of_memory,
};
use crate::layers::linear::{
    build_layers, built, init_layers, lemma_built, lemma_built_sizes, lemma_drop_bias, sized,
    weights_filled, with_input, Linear,
};
use crate::layers::{trees, Layer, ParamTree, Tree};
use crate::models::Model;
use crate::scalar::Scalar;
use crate::tensor::{Array, Tensor};
use crate::utils::shape::joint_shape;

verus! {

/// The number of columns of a matrix.
fn width_of<T, O>(g: &Graph<T, O>, x: &Variable) -> (r: usize)
    requires
        holds(*g, *x),
        held(*g, *x).shape.len() == 2,
    ensures
        r == held(*g, *x).shape[1],
{
    crate::engine::gradient::shape_held(g, x)[1]
}

/// What a maker of operations makes.
pub open spec fn made<T: Scalar, O: Op<T>, F: Fn() -> O>(f: F) -> O::Rule {
    (choose|r: O| #[trigger] call_ensures(f, (), r)).rule()
}

/// Whether a maker of operations makes the same operation every time.
pub open spec fn makes_one<T: Scalar, O: Op<T>, F: Fn() -> O>(f: F) -> bool {
    &&& call_requires(f, ())
    &&& forall|r: O| #[trigger] call_ensures(f, (), r) ==> r.rule() == made::<T, O, F>(f)
}

/// Whether an operation takes one array of any shape and keeps its shape.
pub open spec fn pointwise<T: Scalar, O: Op<T>>(rule: O::Rule) -> bool {
    forall|x: Array<T>|
        x.wf() ==> {
            &&& O::accepts(rule, seq![x.shape])
            &&& (#[trigger] O::value(rule, seq![x])).len() == 1
            &&& O::value(rule, seq![x])[0].shape == x.shape
        }
}

/// Whether a maker makes an activation.
pub open spec fn activates<T: Scalar, O: Op<T>, F: Fn() -> O>(f: F) -> bool {
    makes_one::<T, O, F>(f) && pointwise::<T, O>(made::<T, O, F>(f))
}

/// Applies an activation.
pub fn activate<T: Scalar, O: Op<T>, F: Fn() -> O>(
    g: &mut Graph<T, O>,
    f: &F,
    x: &Variable,
) -> (y: Variable)
    requires
        old(g).wf(),
        holds(*old(g), *x),
        activates::<T, O, F>(*f),
    ensures
        final(g).wf(),
        old(g).all_hold(seq![*x]),
        crate::engine::function::applied(
            *old(g),
            *final(g),
            made::<T, O, F>(*f),
            seq![*x],
            seq![y],
        ),
        holds(*final(g), y),
        held(*final(g), y).shape == held(*old(g), *x).shape,
{
    let ghost before = *g;
    let inputs: [Variable; 1] = [*x];
    let ghost a = held(before, *x);
    proof {
        assert(before.node_ok(x.id as int));
        assert(inputs@ =~= seq![*x]);
        assert(before.arrays(inputs@) =~= seq![a]);
        assert(shapes(before.arrays(inputs@)) =~= seq![a.shape]);
        assert(O::value(made::<T, O, F>(*f), seq![a]).len() == 1);
    }
    let op = f();
    let y = apply1(g, op, inputs.as_slice());
    assert(seq![y][0] == y);
    y
}

/// The step that runs a fully connected layer.
pub open spec fn linear_step<T: Scalar, O: Op<T>>(l: Linear, x: Variable) -> Step<O::Rule> {
    Step { rule: O::embed(Rule::Linear), inputs: with_input(x, l.weight, l.bias) }
}

/// Variable `k` after the first `n`.
pub open spec fn nth(n: nat, k: int) -> Variable {
    Variable { id: (n + k) as usize }
}

/// The steps of one gate: the input's part, the part of the previous state where
/// there is one, their sum, and the activation.
#[verifier::opaque]
pub open spec fn gate_steps<T: Scalar, O: Op<T>>(
    n: nat,
    x2: Linear,
    h2: Linear,
    x: Variable,
    h: Option<Variable>,
    activation: O::Rule,
) -> Seq<Step<O::Rule>> {
    match h {
        None => seq![
            linear_step::<T, O>(x2, x),
            Step { rule: activation, inputs: seq![nth(n, 0)] },
        ],
        Some(h) => seq![
            linear_step::<T, O>(x2, x),
            linear_step::<T, O>(h2, h),
            Step { rule: O::embed(Rule::Add), inputs: seq![nth(n, 0), nth(n, 1)] },
            Step { rule: activation, inputs: seq![nth(n, 2)] },
        ],
    }
}

/// The number of steps of one gate.
pub open spec fn gate_length(h: Option<Variable>) -> int {
    if h is None {
        2
    } else {
        4
    }
}

/// A gate takes as many steps as it should.
pub proof fn lemma_gate_length<T: Scalar, O: Op<T>>(
    n: nat,
    x2: Linear,
    h2: Linear,
    x: Variable,
    h: Option<Variable>,
    activation: O::Rule,
)
    ensures
        gate_steps::<T, O>(n, x2, h2, x, h, activation).len() == gate_length(h),
{
    reveal(gate_steps);
}

/// Whether the layers of a gate can be run on an input of shape `s` and on the
/// previous state.
pub open spec fn gate_fits<T: Scalar, O: Op<T>>(
    g: Graph<T, O>,
    x2: Linear,
    h2: Linear,
    s: Seq<usize>,
    h: Option<Variable>,
) -> bool {
    &&& Model::<T, O>::takes(&x2, g, s)
    &&& h matches Some(h) ==> {
        &&& holds(g, h)
        &&& Model::<T, O>::takes(&h2, g, held(g, h).shape)
        &&& zips(
            Model::<T, O>::gives(&x2, g, s),
            Model::<T, O>::gives(&h2, g, held(g, h).shape),
        )
    }
}

/// The shape that a gate gives.
pub open spec fn gate_shape<T: Scalar, O: Op<T>>(
    g: Graph<T, O>,
    x2: Linear,
    h2: Linear,
    s: Seq<usize>,
    h: Option<Variable>,
) -> Seq<usize> {
    match h {
        None => Model::<T, O>::gives(&x2, g, s),
        Some(h) => joint_shape(
            Model::<T, O>::gives(&x2, g, s),
            Model::<T, O>::gives(&h2, g, held(g, h).shape),
        ),
    }
}

proof fn lemma_gate_unmoved<T: Scalar, O: Op<T>>(
    before: Graph<T, O>,
    after: Graph<T, O>,
    x2: Linear,
    h2: Linear,
    s: Seq<usize>,
    h: Option<Variable>,
)
    requires
        gate_fits(before, x2, h2, s, h),
        after.extends(before),
    ensures
        gate_fits(after, x2, h2, s, h),
        gate_shape(after, x2, h2, s, h) == gate_shape(before, x2, h2, s, h),
{
    Model::<T, O>::unmoved(&x2, before, after, s);
    if let Some(h) = h {
        assert(after.nodes@[h.id as int] == before.nodes@[h.id as int]);
        Model::<T, O>::unmoved(&h2, before, after, held(before, h).shape);
    }
}

/// Runs one gate.
fn gate<T: Scalar, O: Op<T>, F: Fn() -> O>(
    g: &mut Graph<T, O>,
    x2: &Linear,
    h2: &Linear,
    x: &Variable,
    h: &Option<Variable>,
    activation: &F,
) -> (y: Variable)
    requires
        old(g).wf(),
        holds(*old(g), *x),
        gate_fits(*old(g), *x2, *h2, held(*old(g), *x).shape, *h),
        activates::<T, O, F>(*activation),
    ensures
        final(g).wf(),
        runs(
            *old(g),
            *final(g),
            gate_steps::<T, O>(
                old(g).nodes@.len(),
                *x2,
                *h2,
                *x,
                *h,
                made::<T, O, F>(*activation),
            ),
        ),
        y == outcome_of(*old(g), gate_length(*h) - 1),
        holds(*final(g), y),
        held(*final(g), y).shape == gate_shape(*old(g), *x2, *h2, held(*old(g), *x).shape, *h),
{
    let ghost before = *g;
    let ghost n = g.nodes@.len();
    let ghost rule = made::<T, O, F>(*activation);
    proof {
        reveal(gate_steps);
    }
    let mut x2: Linear = *x2;
    let a = Model::<T, O>::forward(&mut x2, g, x);
    let ghost g1 = *g;
    let ghost one = seq![linear_step::<T, O>(x2, *x)];
    proof {
        a_run_only_adds(before, g1, one);
        assert(a == nth(n, 0));
    }
    match h {
        None => {
            let y = activate(g, activation, &a);
            proof {
                lemma_apply(before, g1, *g, one, rule, seq![a], y);
                assert(one.push(Step { rule, inputs: seq![a] }) =~= gate_steps::<T, O>(
                    n,
                    x2,
                    *h2,
                    *x,
                    *h,
                    rule,
                ));
            }
            y
        },
        Some(state) => {
            proof {
                assert(g1.nodes@[state.id as int] == before.nodes@[state.id as int]);
                Model::<T, O>::unmoved(h2, before, g1, held(before, *state).shape);
            }
            let mut h2: Linear = *h2;
            let b = Model::<T, O>::forward(&mut h2, g, state);
            let ghost g2 = *g;
            let ghost second = seq![linear_step::<T, O>(h2, *state)];
            proof {
                a_run_only_adds(g1, g2, second);
                lemma_runs_chain(before, g1, g2, one, second);
                assert(g2.nodes@[a.id as int] == g1.nodes@[a.id as int]);
                assert(b == nth(n, 1));
                a_run_only_adds(before, g2, one + second);
            }
            let sum = crate::engine::ops::add(g, &a, &b);
            let ghost g3 = *g;
            proof {
                lemma_apply(before, g2, g3, one + second, O::embed(Rule::Add), seq![a, b], sum);
                assert(sum == nth(n, 2));
            }
            let y = activate(g, activation, &sum);
            proof {
                let three = (one + second).push(
                    Step { rule: O::embed(Rule::Add), inputs: seq![a, b] },
                );
                lemma_apply(before, g3, *g, three, rule, seq![sum], y);
                assert(three.push(Step { rule, inputs: seq![sum] }) =~= gate_steps::<T, O>(
                    n,
                    x2,
                    h2,
                    *x,
                    *h,
                    rule,
                ));
            }
            y
        },
    }
}

/// A recurrent layer: what it gives is also its state, which the next run sees.
pub struct Rnn<H> {
    pub x2h: Linear,
    pub h2h: Linear,
    pub h: Option<Variable>,
    pub tanh: H,
}

impl<H> Rnn<H> {
    /// The layer behind a run that gave `y`.
    pub open spec fn having_given(self, y: Variable) -> Rnn<H> {
        Rnn { h: Some(y), ..self }
    }

    /// A layer whose input width is settled by its first input.
    #[must_use]
    pub fn new<T: Scalar, O>(g: &mut Graph<T, O>, hidden_size: usize, tanh: H) -> (r: Rnn<H>)
        requires
            old(g).wf(),
        ensures
            final(g).wf(),
            built(*old(g), *final(g), seq![r.x2h, r.h2h], seq![hidden_size, hidden_size]),
            r.x2h.bias is Some,
            r.h2h.bias is None,
            r.h is None,
            r.tanh == tanh,
    {
        let ghost before = *g;
        let sizes: [usize; 2] = [hidden_size, hidden_size];
        let layers = build_layers(g, sizes.as_slice());
        proof {
            assert(sizes@ =~= seq![hidden_size, hidden_size]);
            lemma_built(before, *g, layers@, sizes@);
        }
        let x2h: Linear = layers[0];
        let h2h: Linear = layers[1].without_bias();
        proof {
            assert(layers@ =~= seq![layers@[0], layers@[1]]);
            lemma_drop_bias(before, *g, layers@, sizes@, 1);
            assert(layers@.update(1, h2h) =~= seq![x2h, h2h]);
        }
        Rnn { x2h, h2h, h: None, tanh }
    }

    /// A layer whose weights are there at once: that from state to state has as many
    /// inputs as outputs.
    #[must_use]
    pub fn with_in_size<T: Scalar, O>(
        g: &mut Graph<T, O>,
        in_size: usize,
        hidden_size: usize,
        draws: &[Tensor<T>],
        scales: &[T],
        tanh: H,
    ) -> (r: Rnn<H>)
        requires
            old(g).wf(),
            in_size > 0,
            hidden_size > 0,
            draws@.len() == 2,
            scales@.len() == 2,
            draws@[0].wf() && draws@[0]@.shape == seq![in_size, hidden_size],
            draws@[1].wf() && draws@[1]@.shape == seq![hidden_size, hidden_size],
        ensures
            final(g).wf(),
            r.x2h.bias is Some,
            r.h2h.bias is None,
            r.h is None,
            r.tanh == tanh,
            exists|mid: Graph<T, O>, ls: Seq<Linear>|
                {
                    &&& built(*old(g), mid, ls, seq![hidden_size, hidden_size])
                    &&& #[trigger] weights_filled(mid, *final(g), ls, draws@, scales@)
                    &&& seq![r.x2h, r.h2h] == sized(ls, seq![in_size, hidden_size])
                },
    {
        let ghost before = *g;
        let bare = Rnn::new(g, hidden_size, tanh);
        let ghost mid = *g;
        let layers: [Linear; 2] = [bare.x2h, bare.h2h];
        let in_sizes: [usize; 2] = [in_size, hidden_size];
        proof {
            assert(layers@ =~= seq![bare.x2h, bare.h2h]);
            assert(in_sizes@ =~= seq![in_size, hidden_size]);
            lemma_built(before, mid, layers@, seq![hidden_size, hidden_size]);
            assert(layers@[0].wf(mid) && layers@[1].wf(mid));
            assert(layers@[0].out_size == hidden_size && layers@[1].out_size == hidden_size) by {
                lemma_built_sizes(before, mid, layers@, seq![hidden_size, hidden_size]);
            }
        }
        let full = init_layers(g, layers.as_slice(), in_sizes.as_slice(), draws, scales);
        let r = Rnn { x2h: full[0], h2h: full[1], h: None, tanh: bare.tanh };
        proof {
            assert(full@ =~= seq![r.x2h, r.h2h]);
            assert(weights_filled(mid, *g, layers@, draws@, scales@));
        }
        r
    }

    /// How many inputs the weights of the two layers have to be made for before a
    /// run on an input of width `in_size`; nothing where they are there already, nor for
    /// the second layer before there is a state.
    #[must_use]
    pub fn wanted<T, O>(&self, g: &Graph<T, O>, in_size: usize) -> (r: (
        Option<usize>,
        Option<usize>,
    ))
        requires
            self.x2h.wf(*g),
            self.h2h.wf(*g),
            self.h matches Some(h) ==> holds(*g, h) && held(*g, h).shape.len() == 2,
        ensures
            r.0 == if g.node(self.x2h.weight.variable).data is None {
                Some(in_size)
            } else {
                None
            },
            r.1 == if self.h is Some && g.node(self.h2h.weight.variable).data is None {
                Some(held(*g, self.h->0).shape[1])
            } else {
                None
            },
    {
        let first = self.x2h.wanted(g, in_size);
        let second = match &self.h {
            Some(h) => self.h2h.wanted(g, width_of(g, h)),
            None => None,
        };
        (first, second)
    }

    /// Forgets the state.
    pub fn reset_state(&mut self)
        ensures
            *final(self) == (Rnn { h: None, ..*old(self) }),
    {
        self.h = None;
    }

    /// The state, once a run has left one.
    #[must_use]
    pub fn state(&self) -> (r: Option<Variable>)
        ensures
            r == self.h,
    {
        self.h
    }

    /// The layer from input to state.
    #[must_use]
    pub fn x2h(&self) -> (r: &Linear)
        ensures
            *r == self.x2h,
    {
        &self.x2h
    }

    /// The layer from state to state.
    #[must_use]
    pub fn h2h(&self) -> (r: &Linear)
        ensures
            *r == self.h2h,
    {
        &self.h2h
    }
}

/// The tree of a list of fully connected layers.
pub open spec fn linear_trees(ls: Seq<Linear>) -> Seq<Tree> {
    Seq::new(ls.len(), |i: int| ls[i].tree_spec())
}

/// The trees of a list of fully connected layers.
pub fn list_trees(ls: &[Linear]) -> (r: Vec<ParamTree>)
    ensures
        trees(r@) == linear_trees(ls@),
{
    let n: usize = ls.len();
    let mut r: Vec<ParamTree> = Vec::new();
    let mut i: usize = 0;
    while i < n
        invariant
            n == ls@.len(),
            i <= n,
            r@.len() == i,
            trees(r@) == linear_trees(ls@.take(i as int)),
        decreases n - i,
    {
        let ghost was = r@;
        r.push(ls[i].tree());
        proof {
            crate::layers::lemma_trees_push(was, r@[i as int]);
            assert(linear_trees(ls@.take(i + 1)) =~= linear_trees(ls@.take(i as int)).push(
                ls@[i as int].tree_spec(),
            ));
        }
        i = i + 1;
    }
    assert(ls@.take(n as int) =~= ls@);
    r
}

impl<H> Layer for Rnn<H> {
    open spec fn tree_spec(&self) -> Tree {
        Tree { own: Seq::empty(), children: linear_trees(seq![self.x2h, self.h2h]) }
    }

    fn own_params(&self) -> (r: Vec<Parameter>) {
        Vec::new()
    }

    fn sublayers(&self) -> (r: Vec<ParamTree>) {
        let layers: [Linear; 2] = [self.x2h, self.h2h];
        assert(layers@ =~= seq![self.x2h, self.h2h]);
        list_trees(layers.as_slice())
    }
}

impl<T: Scalar, O: Op<T>, H: Fn() -> O> Model<T, O> for Rnn<H> {
    open spec fn takes(&self, g: Graph<T, O>, s: Seq<usize>) -> bool {
        &&& gate_fits(g, self.x2h, self.h2h, s, self.h)
        &&& activates::<T, O, H>(self.tanh)
    }

    open spec fn gives(&self, g: Graph<T, O>, s: Seq<usize>) -> Seq<usize> {
        gate_shape(g, self.x2h, self.h2h, s, self.h)
    }

    open spec fn steps(&self, n: nat, x: Variable) -> Seq<Step<O::Rule>> {
        gate_steps::<T, O>(
            n,
            self.x2h,
            self.h2h,
            x,
            self.h,
            made::<T, O, H>(self.tanh),
        )
    }

    proof fn unmoved(&self, before: Graph<T, O>, after: Graph<T, O>, s: Seq<usize>) {
        lemma_gate_unmoved(before, after, self.x2h, self.h2h, s, self.h);
    }

    /// One step in time. What it gives is kept as the state.
    fn forward(&mut self, g: &mut Graph<T, O>, x: &Variable) -> (y: Variable)
        ensures
            *final(self) == (Rnn { h: Some(y), ..*old(self) }),
            *final(self) == old(self).having_given(y),
            is_gate::<T, O>(
                *old(g),
                held(*final(g), y),
                made::<T, O, H>(old(self).tanh),
                (old(self).x2h, old(self).h2h),
                held(*old(g), *x),
                held_by(*old(g), old(self).h),
            ),
    {
        proof {
            let rule = made::<T, O, H>(self.tanh);
            lemma_gate_length::<T, O>(g.nodes@.len(), self.x2h, self.h2h, *x, self.h, rule);
        }
        let y = gate(g, &self.x2h, &self.h2h, x, &self.h, &self.tanh);
        proof {
            a_recurrent_layer_adds_its_state(*old(g), *g, *self, *x, y);
        }
        self.h = Some(y);
        y
    }
}

/// The steps that mix the gates into a new cell state and a new state.
#[verifier::opaque]
pub open spec fn cell_steps<T: Scalar, O: Op<T>>(
    n: nat,
    f: Variable,
    i: Variable,
    o: Variable,
    u: Variable,
    c: Option<Variable>,
    tanh: O::Rule,
) -> Seq<Step<O::Rule>> {
    let times = O::embed(Rule::Mul);
    match c {
        None => seq![
            Step { rule: times, inputs: seq![i, u] },
            Step { rule: tanh, inputs: seq![nth(n, 0)] },
            Step { rule: times, inputs: seq![o, nth(n, 1)] },
        ],
        Some(c) => seq![
            Step { rule: times, inputs: seq![f, c] },
            Step { rule: times, inputs: seq![i, u] },
            Step { rule: O::embed(Rule::Add), inputs: seq![nth(n, 0), nth(n, 1)] },
            Step { rule: tanh, inputs: seq![nth(n, 2)] },
            Step { rule: times, inputs: seq![o, nth(n, 3)] },
        ],
    }
}

/// The place of the new cell state among the variables that mixing adds.
pub open spec fn cell_place(c: Option<Variable>) -> int {
    if c is None {
        0
    } else {
        2
    }
}

/// The number of steps that mixing takes.
pub open spec fn cell_length(c: Option<Variable>) -> int {
    if c is None {
        3
    } else {
        5
    }
}

/// Mixing takes as many steps as it should.
pub proof fn lemma_cell_length<T: Scalar, O: Op<T>>(
    n: nat,
    f: Variable,
    i: Variable,
    o: Variable,
    u: Variable,
    c: Option<Variable>,
    tanh: O::Rule,
)
    ensures
        cell_steps::<T, O>(n, f, i, o, u, c, tanh).len() == cell_length(c),
{
    reveal(cell_steps);
}

/// The shape of the new cell state, from the shapes of three gates and of the cell
/// state before.
pub open spec fn cell_shape(
    f: Seq<usize>,
    i: Seq<usize>,
    u: Seq<usize>,
    c: Option<Seq<usize>>,
) -> Seq<usize> {
    match c {
        None => joint_shape(i, u),
        Some(c) => joint_shape(joint_shape(f, c), joint_shape(i, u)),
    }
}

/// Whether four gates and the cell state before can be mixed.
pub open spec fn cell_fits(
    f: Seq<usize>,
    i: Seq<usize>,
    o: Seq<usize>,
    u: Seq<usize>,
    c: Option<Seq<usize>>,
) -> bool {
    &&& zips(i, u)
    &&& c matches Some(c) ==> zips(f, c) && zips(joint_shape(f, c), joint_shape(i, u))
    &&& zips(o, cell_shape(f, i, u, c))
}

/// The shape that an optional variable holds.
pub open spec fn shape_held<T, O>(g: Graph<T, O>, v: Option<Variable>) -> Option<Seq<usize>> {
    match v {
        Some(v) => Some(held(g, v).shape),
        None => None,
    }
}

/// Mixes the gates into a new cell state and a new state.
fn mix<T: Scalar, O: Op<T>, H: Fn() -> O>(
    g: &mut Graph<T, O>,
    f: &Variable,
    i: &Variable,
    o: &Variable,
    u: &Variable,
    c: &Option<Variable>,
    tanh: &H,
) -> (r: (Variable, Variable))
    requires
        old(g).wf(),
        holds(*old(g), *f),
        holds(*old(g), *i),
        holds(*old(g), *o),
        holds(*old(g), *u),
        *c matches Some(v) ==> holds(*old(g), v),
        activates::<T, O, H>(*tanh),
        cell_fits(
            held(*old(g), *f).shape,
            held(*old(g), *i).shape,
            held(*old(g), *o).shape,
            held(*old(g), *u).shape,
            shape_held(*old(g), *c),
        ),
    ensures
        final(g).wf(),
        runs(
            *old(g),
            *final(g),
            cell_steps::<T, O>(
                old(g).nodes@.len(),
                *f,
                *i,
                *o,
                *u,
                *c,
                made::<T, O, H>(*tanh),
            ),
        ),
        r.0 == outcome_of(*old(g), cell_place(*c)),
        r.1 == outcome_of(*old(g), cell_length(*c) - 1),
        holds(*final(g), r.0),
        holds(*final(g), r.1),
        held(*final(g), r.1).shape == joint_shape(
            held(*old(g), *o).shape,
            cell_shape(
                held(*old(g), *f).shape,
                held(*old(g), *i).shape,
                held(*old(g), *u).shape,
                shape_held(*old(g), *c),
            ),
        ),
{
    let ghost g0 = *g;
    let ghost n = g.nodes@.len();
    let ghost rule = made::<T, O, H>(*tanh);
    let ghost times = O::embed(Rule::Mul);
    let ghost plus = O::embed(Rule::Add);
    let ghost none = Seq::<Step<O::Rule>>::empty();
    proof {
        reveal(cell_steps);
        lemma_no_steps(g0);
    }
    match c {
        None => {
            let c_new = crate::engine::ops::mul(g, i, u);
            let ghost g1 = *g;
            let ghost s1 = none.push(Step { rule: times, inputs: seq![*i, *u] });
            proof {
                lemma_apply(g0, g0, g1, none, times, seq![*i, *u], c_new);
                assert(g1.nodes@[o.id as int] == g0.nodes@[o.id as int]);
            }
            let squashed = activate(g, tanh, &c_new);
            let ghost g2 = *g;
            let ghost s2 = s1.push(Step { rule, inputs: seq![c_new] });
            proof {
                lemma_apply(g0, g1, g2, s1, rule, seq![c_new], squashed);
                assert(g2.nodes@[o.id as int] == g1.nodes@[o.id as int]);
                assert(g2.nodes@[c_new.id as int] == g1.nodes@[c_new.id as int]);
            }
            let h_new = crate::engine::ops::mul(g, o, &squashed);
            proof {
                lemma_apply(g0, g2, *g, s2, times, seq![*o, squashed], h_new);
                assert(g.nodes@[c_new.id as int] == g2.nodes@[c_new.id as int]);
                assert(s2.push(Step { rule: times, inputs: seq![*o, squashed] })
                    =~= cell_steps::<T, O>(n, *f, *i, *o, *u, *c, rule));
            }
            (c_new, h_new)
        },
        Some(c_old) => {
            let kept = crate::engine::ops::mul(g, f, c_old);
            let ghost g1 = *g;
            let ghost s1 = none.push(Step { rule: times, inputs: seq![*f, *c_old] });
            proof {
                lemma_apply(g0, g0, g1, none, times, seq![*f, *c_old], kept);
                assert(g1.nodes@[i.id as int] == g0.nodes@[i.id as int]);
                assert(g1.nodes@[u.id as int] == g0.nodes@[u.id as int]);
                assert(g1.nodes@[o.id as int] == g0.nodes@[o.id as int]);
            }
            let fresh = crate::engine::ops::mul(g, i, u);
            let ghost g2 = *g;
            let ghost s2 = s1.push(Step { rule: times, inputs: seq![*i, *u] });
            proof {
                lemma_apply(g0, g1, g2, s1, times, seq![*i, *u], fresh);
                assert(g2.nodes@[kept.id as int] == g1.nodes@[kept.id as int]);
                assert(g2.nodes@[o.id as int] == g1.nodes@[o.id as int]);
            }
            let c_new = crate::engine::ops::add(g, &kept, &fresh);
            let ghost g3 = *g;
            let ghost s3 = s2.push(Step { rule: plus, inputs: seq![kept, fresh] });
            proof {
                lemma_apply(g0, g2, g3, s2, plus, seq![kept, fresh], c_new);
                assert(g3.nodes@[o.id as int] == g2.nodes@[o.id as int]);
            }
            let squashed = activate(g, tanh, &c_new);
            let ghost g4 = *g;
            let ghost s4 = s3.push(Step { rule, inputs: seq![c_new] });
            proof {
                lemma_apply(g0, g3, g4, s3, rule, seq![c_new], squashed);
                assert(g4.nodes@[o.id as int] == g3.nodes@[o.id as int]);
                assert(g4.nodes@[c_new.id as int] == g3.nodes@[c_new.id as int]);
            }
            let h_new = crate::engine::ops::mul(g, o, &squashed);
            proof {
                lemma_apply(g0, g4, *g, s4, times, seq![*o, squashed], h_new);
                assert(g.nodes@[c_new.id as int] == g4.nodes@[c_new.id as int]);
                assert(s4.push(Step { rule: times, inputs: seq![*o, squashed] })
                    =~= cell_steps::<T, O>(n, *f, *i, *o, *u, *c, rule));
            }
            (c_new, h_new)
        },
    }
}

/// The number of inputs of layer `k` of a long short-term memory.
pub open spec fn lstm_in_size(in_size: usize, hidden_size: usize, k: int) -> usize {
    if k < 4 {
        in_size
    } else {
        hidden_size
    }
}

/// A long short-term memory: four gates decide what a cell state forgets, takes up
/// and shows.
pub struct Lstm<S, H> {
    pub x2f: Linear,
    pub x2i: Linear,
    pub x2o: Linear,
    pub x2u: Linear,
    pub h2f: Linear,
    pub h2i: Linear,
    pub h2o: Linear,
    pub h2u: Linear,
    pub h: Option<Variable>,
    pub c: Option<Variable>,
    pub sigmoid: S,
    pub tanh: H,
}

impl<S, H> Lstm<S, H> {
    /// The layer behind a run in the graph `before` that gave `y`.
    pub open spec fn having_given<T, O>(self, before: Graph<T, O>, y: Variable) -> Lstm<S, H> {
        Lstm {
            h: Some(y),
            c: Some(outcome_of(before, 4 * gate_length(self.h) + cell_place(self.c))),
            ..self
        }
    }

    /// The eight layers, those of the input first.
    pub open spec fn layers(self) -> Seq<Linear> {
        seq![
            self.x2f,
            self.x2i,
            self.x2o,
            self.x2u,
            self.h2f,
            self.h2i,
            self.h2o,
            self.h2u,
        ]
    }

    /// A cell whose input width is settled by its first input.
    #[must_use]
    pub fn new<T: Scalar, O>(
        g: &mut Graph<T, O>,
        hidden_size: usize,
        sigmoid: S,
        tanh: H,
    ) -> (r: Lstm<S, H>)
        requires
            old(g).wf(),
        ensures
            final(g).wf(),
            built(*old(g), *final(g), r.layers(), Seq::new(8, |k: int| hidden_size)),
            forall|k: int| 0 <= k < 8 ==> ((#[trigger] r.layers()[k]).bias is Some <==> k < 4),
            r.h is None,
            r.c is None,
            r.sigmoid == sigmoid,
            r.tanh == tanh,
    {
        let ghost before = *g;
        let s: usize = hidden_size;
        let sizes: [usize; 8] = [s, s, s, s, s, s, s, s];
        let l = build_layers(g, sizes.as_slice());
        proof {
            assert(sizes@ =~= Seq::new(8, |k: int| hidden_size));
            lemma_built(before, *g, l@, sizes@);
        }
        let r = Lstm {
            x2f: l[0],
            x2i: l[1],
            x2o: l[2],
            x2u: l[3],
            h2f: l[4].without_bias(),
            h2i: l[5].without_bias(),
            h2o: l[6].without_bias(),
            h2u: l[7].without_bias(),
            h: None,
            c: None,
            sigmoid,
            tanh,
        };
        proof {
            let l4 = l@.update(4, r.h2f);
            let l5 = l4.update(5, r.h2i);
            let l6 = l5.update(6, r.h2o);
            let l7 = l6.update(7, r.h2u);
            lemma_drop_bias(before, *g, l@, sizes@, 4);
            lemma_drop_bias(before, *g, l4, sizes@, 5);
            lemma_drop_bias(before, *g, l5, sizes@, 6);
            lemma_drop_bias(before, *g, l6, sizes@, 7);
            assert(l7 =~= r.layers());
        }
        r
    }

    /// A cell whose weights are there at once: the layers from the state have as many
    /// inputs as outputs.
    #[must_use]
    pub fn with_in_size<T: Scalar, O>(
        g: &mut Graph<T, O>,
        in_size: usize,
        hidden_size: usize,
        draws: &[Tensor<T>],
        scales: &[T],
        sigmoid: S,
        tanh: H,
    ) -> (r: Lstm<S, H>)
        requires
            old(g).wf(),
            in_size > 0,
            hidden_size > 0,
            draws@.len() == 8,
            scales@.len() == 8,
            forall|k: int|
                0 <= k < 8 ==> (#[trigger] draws@[k]).wf() && draws@[k]@.shape == seq![
                    lstm_in_size(in_size, hidden_size, k),
                    hidden_size,
                ],
        ensures
            final(g).wf(),
            forall|k: int| 0 <= k < 8 ==> ((#[trigger] r.layers()[k]).bias is Some <==> k < 4),
            r.h is None,
            r.c is None,
            r.sigmoid == sigmoid,
            r.tanh == tanh,
            exists|mid: Graph<T, O>, ls: Seq<Linear>|
                {
                    &&& built(*old(g), mid, ls, Seq::new(8, |k: int| hidden_size))
                    &&& #[trigger] weights_filled(mid, *final(g), ls, draws@, scales@)
                    &&& r.layers() == sized(
                        ls,
                        Seq::new(8, |k: int| lstm_in_size(in_size, hidden_size, k)),
                    )
                },
    {
        let ghost before = *g;
        let bare = Lstm::new(g, hidden_size, sigmoid, tanh);
        let ghost mid = *g;
        let layers: [Linear; 8] = [
            bare.x2f,
            bare.x2i,
            bare.x2o,
            bare.x2u,
            bare.h2f,
            bare.h2i,
            bare.h2o,
            bare.h2u,
        ];
        let (n, m): (usize, usize) = (in_size, hidden_size);
        let in_sizes: [usize; 8] = [n, n, n, n, m, m, m, m];
        let ghost sizes = Seq::new(8, |k: int| hidden_size);
        proof {
            assert(layers@ =~= bare.layers());
            assert(in_sizes@ =~= Seq::new(8, |k: int| lstm_in_size(in_size, hidden_size, k)));
            lemma_built(before, mid, layers@, sizes);
            lemma_built_sizes(before, mid, layers@, sizes);
            assert forall|k: int| 0 <= k < 8 implies {
                &&& (#[trigger] layers@[k]).wf(mid)
                &&& in_sizes@[k] > 0
                &&& draws@[k].wf()
                &&& draws@[k]@.shape == seq![in_sizes@[k], layers@[k].out_size]
            } by {
                assert(draws@[k].wf());
                assert(in_sizes@[k] == lstm_in_size(in_size, hidden_size, k));
            }
        }
        let full = init_layers(g, layers.as_slice(), in_sizes.as_slice(), draws, scales);
        let r = Lstm {
            x2f: full[0],
            x2i: full[1],
            x2o: full[2],
            x2u: full[3],
            h2f: full[4],
            h2i: full[5],
            h2o: full[6],
            h2u: full[7],
            h: None,
            c: None,
            sigmoid: bare.sigmoid,
            tanh: bare.tanh,
        };
        proof {
            assert(full@ =~= r.layers());
            assert forall|k: int| 0 <= k < 8 implies ((#[trigger] r.layers()[k]).bias is Some <==> k
                < 4) by {
                assert(r.layers()[k].bias == bare.layers()[k].bias);
            }
            assert(weights_filled(mid, *g, layers@, draws@, scales@));
        }
        r
    }

    /// Forgets both states.
    pub fn reset_state(&mut self)
        ensures
            *final(self) == (Lstm { h: None, c: None, ..*old(self) }),
    {
        self.h = None;
        self.c = None;
    }

    /// The state, once a run has left one.
    #[must_use]
    pub fn state(&self) -> (r: Option<Variable>)
        ensures
            r == self.h,
    {
        self.h
    }

    /// For each of the eight layers, how many inputs its weight has to be made for before
    /// a run on an input of width `in_size`; nothing where it is there already, nor for
    /// the layers from the state before there is one.
    #[must_use]
    pub fn wanted<T, O>(&self, g: &Graph<T, O>, in_size: usize) -> (r: Vec<Option<usize>>)
        requires
            forall|k: int| 0 <= k < 8 ==> (#[trigger] self.layers()[k]).wf(*g),
            self.h matches Some(h) ==> holds(*g, h) && held(*g, h).shape.len() == 2,
        ensures
            r@ == Seq::new(
                8,
                |k: int|
                    if g.node(self.layers()[k].weight.variable).data is None && (k < 4
                        || self.h is Some) {
                        Some(
                            if k < 4 {
                                in_size
                            } else {
                                held(*g, self.h->0).shape[1]
                            },
                        )
                    } else {
                        None
                    },
            ),
    {
        proof {
            let l = self.layers();
            assert(l[0].wf(*g) && l[1].wf(*g) && l[2].wf(*g) && l[3].wf(*g));
            assert(l[4].wf(*g) && l[5].wf(*g) && l[6].wf(*g) && l[7].wf(*g));
        }
        let mut r: Vec<Option<usize>> = vec![
            self.x2f.wanted(g, in_size),
            self.x2i.wanted(g, in_size),
            self.x2o.wanted(g, in_size),
            self.x2u.wanted(g, in_size),
            None,
            None,
            None,
            None,
        ];
        if let Some(h) = &self.h {
            let width: usize = width_of(g, h);
            r.set(4, self.h2f.wanted(g, width));
            r.set(5, self.h2i.wanted(g, width));
            r.set(6, self.h2o.wanted(g, width));
            r.set(7, self.h2u.wanted(g, width));
        }
        r
    }

    /// The cell state, once a run has left one.
    #[must_use]
    pub fn cell_state(&self) -> (r: Option<Variable>)
        ensures
            r == self.c,
    {
        self.c
    }

    /// The four layers from the input: forget, input, output, candidate.
    #[must_use]
    pub fn input_gates(&self) -> (r: [&Linear; 4])
        ensures
            *r[0] == self.x2f,
            *r[1] == self.x2i,
            *r[2] == self.x2o,
            *r[3] == self.x2u,
    {
        [&self.x2f, &self.x2i, &self.x2o, &self.x2u]
    }

    /// The four layers from the state, in the same order.
    #[must_use]
    pub fn recurrent_gates(&self) -> (r: [&Linear; 4])
        ensures
            *r[0] == self.h2f,
            *r[1] == self.h2i,
            *r[2] == self.h2o,
            *r[3] == self.h2u,
    {
        [&self.h2f, &self.h2i, &self.h2o, &self.h2u]
    }
}

impl<S, H> Layer for Lstm<S, H> {
    open spec fn tree_spec(&self) -> Tree {
        Tree { own: Seq::empty(), children: linear_trees(self.layers()) }
    }

    fn own_params(&self) -> (r: Vec<Parameter>) {
        Vec::new()
    }

    fn sublayers(&self) -> (r: Vec<ParamTree>) {
        let layers: [Linear; 8] = [
            self.x2f,
            self.x2i,
            self.x2o,
            self.x2u,
            self.h2f,
            self.h2i,
            self.h2o,
            self.h2u,
        ];
        assert(layers@ =~= self.layers());
        list_trees(layers.as_slice())
    }
}

/// The steps of one run of a long short-term memory.
pub open spec fn lstm_steps<T: Scalar, O: Op<T>, S, H>(
    n: nat,
    l: Lstm<S, H>,
    x: Variable,
    sigmoid: O::Rule,
    tanh: O::Rule,
) -> Seq<Step<O::Rule>> {
    let k = gate_length(l.h);
    gate_steps::<T, O>(n, l.x2f, l.h2f, x, l.h, sigmoid) + gate_steps::<T, O>(
        (n + k) as nat,
        l.x2i,
        l.h2i,
        x,
        l.h,
        sigmoid,
    ) + gate_steps::<T, O>((n + 2 * k) as nat, l.x2o, l.h2o, x, l.h, sigmoid) + gate_steps::<
        T,
        O,
    >((n + 3 * k) as nat, l.x2u, l.h2u, x, l.h, tanh) + cell_steps::<T, O>(
        (n + 4 * k) as nat,
        nth(n, k - 1),
        nth(n, 2 * k - 1),
        nth(n, 3 * k - 1),
        nth(n, 4 * k - 1),
        l.c,
        tanh,
    )
}

/// Whether a long short-term memory can be run on an input of this shape.
pub open spec fn lstm_fits<T: Scalar, O: Op<T>, S, H>(
    g: Graph<T, O>,
    l: Lstm<S, H>,
    s: Seq<usize>,
) -> bool {
    &&& gate_fits(g, l.x2f, l.h2f, s, l.h)
    &&& gate_fits(g, l.x2i, l.h2i, s, l.h)
    &&& gate_fits(g, l.x2o, l.h2o, s, l.h)
    &&& gate_fits(g, l.x2u, l.h2u, s, l.h)
    &&& l.c matches Some(c) ==> holds(g, c)
    &&& cell_fits(
        gate_shape(g, l.x2f, l.h2f, s, l.h),
        gate_shape(g, l.x2i, l.h2i, s, l.h),
        gate_shape(g, l.x2o, l.h2o, s, l.h),
        gate_shape(g, l.x2u, l.h2u, s, l.h),
        shape_held(g, l.c),
    )
}

impl<T: Scalar, O: Op<T>, S: Fn() -> O, H: Fn() -> O> Model<T, O> for Lstm<S, H> {
    open spec fn takes(&self, g: Graph<T, O>, s: Seq<usize>) -> bool {
        &&& lstm_fits(g, *self, s)
        &&& activates::<T, O, S>(self.sigmoid)
        &&& activates::<T, O, H>(self.tanh)
    }

    open spec fn gives(&self, g: Graph<T, O>, s: Seq<usize>) -> Seq<usize> {
        joint_shape(
            gate_shape(g, self.x2o, self.h2o, s, self.h),
            cell_shape(
                gate_shape(g, self.x2f, self.h2f, s, self.h),
                gate_shape(g, self.x2i, self.h2i, s, self.h),
                gate_shape(g, self.x2u, self.h2u, s, self.h),
                shape_held(g, self.c),
            ),
        )
    }

    open spec fn steps(&self, n: nat, x: Variable) -> Seq<Step<O::Rule>> {
        lstm_steps::<T, O, S, H>(
            n,
            *self,
            x,
            made::<T, O, S>(self.sigmoid),
            made::<T, O, H>(self.tanh),
        )
    }

    proof fn unmoved(&self, before: Graph<T, O>, after: Graph<T, O>, s: Seq<usize>) {
        lemma_gate_unmoved(before, after, self.x2f, self.h2f, s, self.h);
        lemma_gate_unmoved(before, after, self.x2i, self.h2i, s, self.h);
        lemma_gate_unmoved(before, after, self.x2o, self.h2o, s, self.h);
        lemma_gate_unmoved(before, after, self.x2u, self.h2u, s, self.h);
        if let Some(c) = self.c {
            assert(after.nodes@[c.id as int] == before.nodes@[c.id as int]);
        }
    }

    /// One step in time. Both states are kept for the next.
    #[verifier::rlimit(30)]
    fn forward(&mut self, g: &mut Graph<T, O>, x: &Variable) -> (y: Variable)
        ensures
            *final(self) == (Lstm {
                h: Some(y),
                c: Some(
                    outcome_of(*old(g), 4 * gate_length(old(self).h) + cell_place(old(self).c)),
                ),
                ..*old(self)
            }),
            *final(self) == old(self).having_given(*old(g), y),
            (old(self).c matches Some(c) ==> held(*old(g), c).shape.len() <= 2)
                ==> is_run_of_memory(
                *old(g),
                *old(self),
                held(*old(g), *x),
                held_by(*old(g), old(self).h),
                held_by(*old(g), old(self).c),
                held(*final(g), final(self).c->0),
                held(*final(g), y),
            ),
    {
        let ghost me = *self;
        let ghost s = held(*g, *x).shape;
        let ghost k = gate_length(self.h);
        let ghost n = g.nodes@.len();
        let ghost sig = made::<T, O, S>(self.sigmoid);
        let ghost tan = made::<T, O, H>(self.tanh);
        let ghost g0 = *g;
        let f = gate(g, &self.x2f, &self.h2f, x, &self.h, &self.sigmoid);
        let ghost g1 = *g;
        let ghost sf = gate_steps::<T, O>(n, me.x2f, me.h2f, *x, me.h, sig);
        proof {
            lemma_gate_length::<T, O>(n, me.x2f, me.h2f, *x, me.h, sig);
            a_run_only_adds(g0, g1, sf);
            assert(g1.nodes@[x.id as int] == g0.nodes@[x.id as int]);
            lemma_gate_unmoved(g0, g1, me.x2i, me.h2i, s, me.h);
        }
        let i = gate(g, &self.x2i, &self.h2i, x, &self.h, &self.sigmoid);
        let ghost g2 = *g;
        let ghost si = gate_steps::<T, O>((n + k) as nat, me.x2i, me.h2i, *x, me.h, sig);
        proof {
            lemma_gate_length::<T, O>((n + k) as nat, me.x2i, me.h2i, *x, me.h, sig);
            a_run_only_adds(g1, g2, si);
            lemma_runs_chain(g0, g1, g2, sf, si);
            lemma_extends(g0, g1, g2);
            assert(g2.nodes@[x.id as int] == g0.nodes@[x.id as int]);
            lemma_gate_unmoved(g0, g2, me.x2o, me.h2o, s, me.h);
        }
        let o = gate(g, &self.x2o, &self.h2o, x, &self.h, &self.sigmoid);
        let ghost g3 = *g;
        let ghost so = gate_steps::<T, O>((n + 2 * k) as nat, me.x2o, me.h2o, *x, me.h, sig);
        proof {
            lemma_gate_length::<T, O>((n + 2 * k) as nat, me.x2o, me.h2o, *x, me.h, sig);
            a_run_only_adds(g2, g3, so);
            lemma_runs_chain(g0, g2, g3, sf + si, so);
            lemma_extends(g0, g2, g3);
            lemma_extends(g1, g2, g3);
            assert(g3.nodes@[x.id as int] == g0.nodes@[x.id as int]);
            lemma_gate_unmoved(g0, g3, me.x2u, me.h2u, s, me.h);
        }
        let u = gate(g, &self.x2u, &self.h2u, x, &self.h, &self.tanh);
        let ghost g4 = *g;
        let ghost su = gate_steps::<T, O>((n + 3 * k) as nat, me.x2u, me.h2u, *x, me.h, tan);
        proof {
            lemma_gate_length::<T, O>((n + 3 * k) as nat, me.x2u, me.h2u, *x, me.h, tan);
            a_run_only_adds(g3, g4, su);
            lemma_runs_chain(g0, g3, g4, sf + si + so, su);
            lemma_extends(g0, g3, g4);
            lemma_extends(g1, g3, g4);
            lemma_extends(g2, g3, g4);
            assert(g4.nodes@[f.id as int] == g1.nodes@[f.id as int]);
            assert(g4.nodes@[i.id as int] == g2.nodes@[i.id as int]);
            assert(g4.nodes@[o.id as int] == g3.nodes@[o.id as int]);
            if let Some(c) = me.c {
                assert(g4.nodes@[c.id as int] == g0.nodes@[c.id as int]);
            }
        }
        let (c_new, h_new) = mix(g, &f, &i, &o, &u, &self.c, &self.tanh);
        proof {
            let sc = cell_steps::<T, O>((n + 4 * k) as nat, f, i, o, u, me.c, tan);
            lemma_cell_length::<T, O>((n + 4 * k) as nat, f, i, o, u, me.c, tan);
            lemma_runs_chain(g0, g4, *g, sf + si + so + su, sc);
            assert(sf + si + so + su + sc == lstm_steps::<T, O, S, H>(n, me, *x, sig, tan));
            if me.c is None || held(g0, me.c->0).shape.len() <= 2 {
                a_memory_keeps_and_takes_up(g0, *g, me, *x, c_new, h_new);
            }
        }
        self.h = Some(h_new);
        self.c = Some(c_new);
        h_new
    }
}

} // verus!
