//! Pipelines of layers, and perceptrons.

use vstd::prelude::*;

use crate::engine::builtin::{held, holds};
use crate::engine::function::Op;
use crate::engine::graph::{Graph, Variable};
use crate::engine::parameter::Parameter;
use crate::engine::trace::{
    a_run_only_adds, lemma_apply, lemma_no_steps, lemma_runs_chain, runs, Step,
};
use crate::laws::networks::{
    a_perceptron_activates_between_its_layers, a_pipeline_runs_its_layers_in_order, is_perceptron,
    is_pipeline,
};
use crate::layers::linear::{build_layers, built, Linear};
use crate::layers::rnn::{activate, activates, linear_step, linear_trees, list_trees, made, nth};
use crate::layers::{lemma_trees_push, trees, Layer, ParamTree, Tree};
use crate::models::{result_of, Model};
use crate::scalar::Scalar;

verus! {

/// A pipeline of layers, run front to back.
pub struct Sequential<L> {
    pub layers: Vec<L>,
}

impl<L> Sequential<L> {
    /// A pipeline of the layers given; without any it hands its input back.
    #[must_use]
    pub fn new(layers: Vec<L>) -> (r: Sequential<L>)
        ensures
            r.layers == layers,
    {
        Sequential { layers }
    }

    /// Puts a layer at the end of the pipeline.
    pub fn push(&mut self, layer: L)
        ensures
            final(self).layers@ == old(self).layers@.push(layer),
    {
        self.layers.push(layer);
    }

    /// The layers, in their order.
    #[must_use]
    pub fn layers(&self) -> (r: &[L])
        ensures
            r@ == self.layers@,
    {
        self.layers.as_slice()
    }
}

/// The trees of a list of layers.
pub open spec fn layer_trees<L: Layer>(ls: Seq<L>) -> Seq<Tree> {
    Seq::new(ls.len(), |i: int| ls[i].tree_spec())
}

impl<L: Layer> Layer for Sequential<L> {
    open spec fn tree_spec(&self) -> Tree {
        Tree { own: Seq::empty(), children: layer_trees(self.layers@) }
    }

    fn own_params(&self) -> (r: Vec<Parameter>) {
        Vec::new()
    }

    fn sublayers(&self) -> (r: Vec<ParamTree>) {
        let n: usize = self.layers.len();
        let mut r: Vec<ParamTree> = Vec::new();
        let mut i: usize = 0;
        while i < n
            invariant
                n == self.layers@.len(),
                i <= n,
                trees(r@) == layer_trees(self.layers@.take(i as int)),
                r@.len() == i,
            decreases n - i,
        {
            let ghost was = r@;
            r.push(self.layers[i].tree());
            proof {
                lemma_trees_push(was, r@[i as int]);
                assert(layer_trees(self.layers@.take(i + 1)) =~= layer_trees(
                    self.layers@.take(i as int),
                ).push(self.layers@[i as int].tree_spec()));
            }
            i = i + 1;
        }
        assert(self.layers@.take(n as int) =~= self.layers@);
        r
    }
}

/// The shape behind the first `k` layers of a pipeline.
pub open spec fn chain_shape<T: Scalar, O: Op<T>, L: Model<T, O>>(
    ls: Seq<L>,
    g: Graph<T, O>,
    s: Seq<usize>,
    k: int,
) -> Seq<usize>
    decreases k,
{
    if k <= 0 {
        s
    } else {
        ls[k - 1].gives(g, chain_shape(ls, g, s, k - 1))
    }
}

/// Whether the first `k` layers of a pipeline can be run one after the other.
pub open spec fn chain_takes<T: Scalar, O: Op<T>, L: Model<T, O>>(
    ls: Seq<L>,
    g: Graph<T, O>,
    s: Seq<usize>,
    k: int,
) -> bool {
    forall|i: int| 0 <= i < k ==> (#[trigger] ls[i]).takes(g, chain_shape(ls, g, s, i))
}

/// The steps of the first `k` layers of a pipeline.
pub open spec fn chain_steps<T: Scalar, O: Op<T>, L: Model<T, O>>(
    ls: Seq<L>,
    n: nat,
    x: Variable,
    k: int,
) -> Seq<Step<O::Rule>>
    decreases k,
{
    if k <= 0 {
        Seq::empty()
    } else {
        let before = chain_steps::<T, O, L>(ls, n, x, k - 1);
        before + ls[k - 1].steps(n + before.len(), passed(n, before.len() as int, x))
    }
}

/// What has come out of a pipeline after so many steps.
pub open spec fn passed(n: nat, steps: int, x: Variable) -> Variable {
    if steps == 0 {
        x
    } else {
        nth(n, steps - 1)
    }
}

proof fn lemma_chain_unmoved<T: Scalar, O: Op<T>, L: Model<T, O>>(
    ls: Seq<L>,
    before: Graph<T, O>,
    after: Graph<T, O>,
    s: Seq<usize>,
    k: int,
)
    requires
        0 <= k <= ls.len(),
        chain_takes(ls, before, s, k),
        after.extends(before),
    ensures
        chain_takes(ls, after, s, k),
        chain_shape(ls, after, s, k) == chain_shape(ls, before, s, k),
    decreases k,
{
    if k > 0 {
        lemma_chain_unmoved(ls, before, after, s, k - 1);
        assert(ls[k - 1].takes(before, chain_shape(ls, before, s, k - 1)));
        ls[k - 1].unmoved(before, after, chain_shape(ls, before, s, k - 1));
    }
}

impl<T: Scalar, O: Op<T>, L: Model<T, O>> Model<T, O> for Sequential<L> {
    open spec fn takes(&self, g: Graph<T, O>, s: Seq<usize>) -> bool {
        chain_takes(self.layers@, g, s, self.layers@.len() as int)
    }

    open spec fn gives(&self, g: Graph<T, O>, s: Seq<usize>) -> Seq<usize> {
        chain_shape(self.layers@, g, s, self.layers@.len() as int)
    }

    open spec fn steps(&self, n: nat, x: Variable) -> Seq<Step<O::Rule>> {
        chain_steps::<T, O, L>(self.layers@, n, x, self.layers@.len() as int)
    }

    proof fn unmoved(&self, before: Graph<T, O>, after: Graph<T, O>, s: Seq<usize>) {
        lemma_chain_unmoved(self.layers@, before, after, s, self.layers@.len() as int);
    }

    fn forward(&mut self, g: &mut Graph<T, O>, x: &Variable) -> (y: Variable)
        ensures
            is_pipeline(*old(g), *final(g), old(self).layers@, *x, y),
    {
        let ghost before = *g;
        let ghost ls = self.layers@;
        let ghost s = held(*g, *x).shape;
        let ghost n = g.nodes@.len();
        let count: usize = self.layers.len();
        let mut value: Variable = *x;
        let mut i: usize = 0;
        proof {
            lemma_no_steps(before);
        }
        while i < count
            invariant
                i <= count,
                count == ls.len(),
                n == before.nodes@.len(),
                chain_takes(ls, before, s, count as int),
                self.layers@.len() == count,
                forall|j: int| i <= j < count ==> #[trigger] self.layers@[j] == ls[j],
                forall|j: int|
                    0 <= j < i ==> (#[trigger] self.layers@[j]).tree_spec() == ls[j].tree_spec(),
                g.wf(),
                runs(before, *g, chain_steps::<T, O, L>(ls, n, *x, i as int)),
                value == result_of(
                    before,
                    chain_steps::<T, O, L>(ls, n, *x, i as int).len() as int,
                    *x,
                ),
                holds(*g, value),
                held(*g, value).shape == chain_shape(ls, before, s, i as int),
            decreases count - i,
        {
            let ghost mid = *g;
            let ghost done = chain_steps::<T, O, L>(ls, n, *x, i as int);
            proof {
                a_run_only_adds(before, mid, done);
                assert(ls[i as int].takes(before, chain_shape(ls, before, s, i as int)));
                ls[i as int].unmoved(before, mid, chain_shape(ls, before, s, i as int));
                assert(self.layers@[i as int] == ls[i as int]);
            }
            let ghost from = value;
            value = self.layers[i].forward(g, &value);
            proof {
                let more = ls[i as int].steps(mid.nodes@.len(), from);
                lemma_runs_chain(before, mid, *g, done, more);
                a_run_only_adds(mid, *g, more);
                assert(chain_steps::<T, O, L>(ls, n, *x, i + 1) =~= done + more);
            }
            i = i + 1;
        }
        proof {
            assert(layer_trees(self.layers@) =~= layer_trees(ls));
            a_pipeline_runs_its_layers_in_order(before, *g, *old(self), *x, value);
        }
        value
    }
}

/// A perceptron: fully connected layers with an activation between them, and none
/// behind the last.
pub struct Mlp<A> {
    pub layers: Vec<Linear>,
    pub activation: A,
}

impl<A> Mlp<A> {
    /// A perceptron with layers of the sizes given, each sized by its first input.
    #[must_use]
    pub fn with_activation<T: Scalar, O>(
        g: &mut Graph<T, O>,
        fc_output_sizes: &[usize],
        activation: A,
    ) -> (r: Mlp<A>)
        requires
            old(g).wf(),
            fc_output_sizes@.len() > 0,
        ensures
            final(g).wf(),
            built(*old(g), *final(g), r.layers@, fc_output_sizes@),
            forall|k: int| 0 <= k < r.layers@.len() ==> (#[trigger] r.layers@[k]).bias is Some,
            r.activation == activation,
    {
        let layers = build_layers(g, fc_output_sizes);
        Mlp { layers, activation }
    }

    /// The layers, in their order.
    #[must_use]
    pub fn layers(&self) -> (r: &[Linear])
        ensures
            r@ == self.layers@,
    {
        self.layers.as_slice()
    }

    /// The width that layer `k` is handed: that of the input, or what the layer
    /// before gives.
    pub open spec fn width_before<T, O>(self, g: Graph<T, O>, in_size: usize, k: int) -> usize {
        if k == 0 {
            in_size
        } else {
            let l = self.layers@[k - 1];
            match g.array(l.weight.variable) {
                Some(w) => w.shape[1],
                None => l.out_size,
            }
        }
    }

    /// For each layer, how many inputs its weight has to be made for before a run on
    /// an input of width `in_size`; nothing where it is there already.
    #[must_use]
    pub fn wanted<T, O>(&self, g: &Graph<T, O>, in_size: usize) -> (r: Vec<Option<usize>>)
        requires
            forall|k: int|
                0 <= k < self.layers@.len() ==> {
                    &&& (#[trigger] self.layers@[k]).wf(*g)
                    &&& g.array(self.layers@[k].weight.variable) matches Some(w) ==> w.shape.len()
                        == 2
                },
        ensures
            r@ == Seq::new(
                self.layers@.len(),
                |k: int|
                    if g.node(self.layers@[k].weight.variable).data is None {
                        Some(self.width_before(*g, in_size, k))
                    } else {
                        None
                    },
            ),
    {
        let n: usize = self.layers.len();
        let mut r: Vec<Option<usize>> = Vec::new();
        let mut width: usize = in_size;
        let mut i: usize = 0;
        while i < n
            invariant
                i <= n,
                n == self.layers@.len(),
                forall|k: int|
                    0 <= k < self.layers@.len() ==> {
                        &&& (#[trigger] self.layers@[k]).wf(*g)
                        &&& g.array(self.layers@[k].weight.variable) matches Some(w)
                            ==> w.shape.len() == 2
                    },
                width == self.width_before(*g, in_size, i as int),
                r@.len() == i,
                forall|k: int|
                    0 <= k < i ==> #[trigger] r@[k] == if g.node(
                        self.layers@[k].weight.variable,
                    ).data is None {
                        Some(self.width_before(*g, in_size, k))
                    } else {
                        None
                    },
            decreases n - i,
        {
            let l: Linear = self.layers[i];
            assert(self.layers@[i as int].wf(*g));
            match l.weight.variable.data(g) {
                Some(w) => {
                    r.push(None);
                    width = w.shape[1];
                },
                None => {
                    r.push(Some(width));
                    width = l.out_size;
                },
            }
            i = i + 1;
        }
        r
    }
}

impl<A> Layer for Mlp<A> {
    open spec fn tree_spec(&self) -> Tree {
        Tree { own: Seq::empty(), children: linear_trees(self.layers@) }
    }

    fn own_params(&self) -> (r: Vec<Parameter>) {
        Vec::new()
    }

    fn sublayers(&self) -> (r: Vec<ParamTree>) {
        list_trees(self.layers.as_slice())
    }
}

/// What layer `k` of a perceptron is run on.
pub open spec fn mlp_input(n: nat, x: Variable, k: int) -> Variable {
    if k == 0 {
        x
    } else {
        nth(n, 2 * k - 1)
    }
}

/// The first `k` steps of a perceptron: layers and activations in turn.
pub open spec fn mlp_steps<T: Scalar, O: Op<T>>(
    ls: Seq<Linear>,
    n: nat,
    x: Variable,
    activation: O::Rule,
    k: nat,
) -> Seq<Step<O::Rule>> {
    Seq::new(
        k,
        |j: int|
            if j % 2 == 0 {
                linear_step::<T, O>(ls[j / 2], mlp_input(n, x, j / 2))
            } else {
                Step { rule: activation, inputs: seq![nth(n, j - 1)] }
            },
    )
}

impl<T: Scalar, O: Op<T>, A: Fn() -> O> Model<T, O> for Mlp<A> {
    open spec fn takes(&self, g: Graph<T, O>, s: Seq<usize>) -> bool {
        &&& self.layers@.len() > 0
        &&& chain_takes(self.layers@, g, s, self.layers@.len() as int)
        &&& activates::<T, O, A>(self.activation)
    }

    open spec fn gives(&self, g: Graph<T, O>, s: Seq<usize>) -> Seq<usize> {
        chain_shape(self.layers@, g, s, self.layers@.len() as int)
    }

    open spec fn steps(&self, n: nat, x: Variable) -> Seq<Step<O::Rule>> {
        mlp_steps::<T, O>(
            self.layers@,
            n,
            x,
            made::<T, O, A>(self.activation),
            (2 * self.layers@.len() - 1) as nat,
        )
    }

    proof fn unmoved(&self, before: Graph<T, O>, after: Graph<T, O>, s: Seq<usize>) {
        lemma_chain_unmoved(self.layers@, before, after, s, self.layers@.len() as int);
    }

    fn forward(&mut self, g: &mut Graph<T, O>, x: &Variable) -> (y: Variable)
        ensures
            *final(self) == *old(self),
            is_perceptron::<T, O>(
                *old(g),
                old(self).layers@,
                made::<T, O, A>(old(self).activation),
                held(*old(g), *x),
                held(*final(g), y),
            ),
    {
        let ghost before = *g;
        let ghost ls = self.layers@;
        let ghost s = held(*g, *x).shape;
        let ghost n = g.nodes@.len();
        let ghost rule = made::<T, O, A>(self.activation);
        let last: usize = self.layers.len() - 1;
        let mut value: Variable = *x;
        let mut i: usize = 0;
        proof {
            lemma_no_steps(before);
            assert(mlp_steps::<T, O>(ls, n, *x, rule, 0) =~= Seq::empty());
        }
        while i < last
            invariant
                i <= last,
                last == ls.len() - 1,
                *self == *old(self),
                ls == self.layers@,
                n == before.nodes@.len(),
                rule == made::<T, O, A>(self.activation),
                activates::<T, O, A>(self.activation),
                chain_takes(ls, before, s, ls.len() as int),
                g.wf(),
                runs(before, *g, mlp_steps::<T, O>(ls, n, *x, rule, (2 * i) as nat)),
                value == mlp_input(n, *x, i as int),
                holds(*g, value),
                held(*g, value).shape == chain_shape(ls, before, s, i as int),
            decreases last - i,
        {
            let ghost mid = *g;
            let ghost done = mlp_steps::<T, O>(ls, n, *x, rule, (2 * i) as nat);
            proof {
                a_run_only_adds(before, mid, done);
                assert(ls[i as int].takes(before, chain_shape(ls, before, s, i as int)));
                Model::<T, O>::unmoved(
                    &ls[i as int],
                    before,
                    mid,
                    chain_shape(ls, before, s, i as int),
                );
            }
            let mut layer: Linear = self.layers[i];
            let ghost from = value;
            let affine = Model::<T, O>::forward(&mut layer, g, &value);
            let ghost late = *g;
            let ghost one = seq![linear_step::<T, O>(ls[i as int], from)];
            proof {
                lemma_runs_chain(before, mid, late, done, one);
                a_run_only_adds(mid, late, one);
                assert(affine == nth(n, 2 * i));
            }
            value = activate(g, &self.activation, &affine);
            proof {
                lemma_apply(before, late, *g, done + one, rule, seq![affine], value);
                assert((done + one).push(Step { rule, inputs: seq![affine] }) =~= mlp_steps::<
                    T,
                    O,
                >(ls, n, *x, rule, (2 * (i + 1)) as nat));
            }
            i = i + 1;
        }
        let ghost mid = *g;
        let ghost done = mlp_steps::<T, O>(ls, n, *x, rule, (2 * i) as nat);
        proof {
            a_run_only_adds(before, mid, done);
            assert(ls[i as int].takes(before, chain_shape(ls, before, s, i as int)));
            Model::<T, O>::unmoved(&ls[i as int], before, mid, chain_shape(ls, before, s, i as int));
        }
        let mut layer: Linear = self.layers[last];
        let ghost from = value;
        let y = Model::<T, O>::forward(&mut layer, g, &value);
        proof {
            let one = seq![linear_step::<T, O>(ls[i as int], from)];
            lemma_runs_chain(before, mid, *g, done, one);
            assert(done + one =~= mlp_steps::<T, O>(
                ls,
                n,
                *x,
                rule,
                (2 * ls.len() - 1) as nat,
            ));
            a_perceptron_activates_between_its_layers(before, *g, *self, *x, y);
        }
        y
    }
}

} // verus!
