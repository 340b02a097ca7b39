//! Fully connected layers.

use vstd::prelude::*;

use crate::engine::builtin::{held, holds, operands};
use crate::engine::elementwise::lemma_joint_absorbs;
use crate::engine::function::Op;
use crate::engine::graph::{only_node, Graph, Node, Variable};
use crate::engine::parameter::{name_of, Parameter};
use crate::engine::rule::Rule;
use crate::engine::trace::{lemma_no_steps, lemma_one_step_more, Step};
use crate::functions::matmul::{linear, linear_fits, linear_spec, matmul_spec};
use crate::laws::elements::is_affine;
use crate::laws::layers::{a_layer_is_affine, bias_of, weight_of};
use crate::layers::{Layer, ParamTree, Tree};
use crate::models::Model;
use crate::scalar::Scalar;
use crate::tensor::{copy_of, full_spec, Array, Tensor};

verus! {

/// A fully connected layer: its input times a weight, plus a bias.
#[derive(Debug, Clone, Copy, PartialEq, Eq)]
pub struct Linear {
    pub weight: Parameter,
    pub bias: Option<Parameter>,
    pub in_size: Option<usize>,
    pub out_size: usize,
}

/// The spread of initial weights where `fan_in` inputs feed each output: the root of one
/// over their number.
pub fn weight_scale<T: Scalar, F: Fn(T) -> T>(fan_in: usize, root: &F) -> (r: T)
    requires
        fan_in > 0,
        call_requires(*root, (T::one_spec().over(T::count_spec(fan_in)),)),
    ensures
        call_ensures(*root, (T::one_spec().over(T::count_spec(fan_in)),), r),
{
    root(T::one().div(T::from_count(fan_in)))
}

/// Every element times `scale`.
pub open spec fn scaled_spec<T: Scalar>(x: Array<T>, scale: T) -> Array<T> {
    Array { shape: x.shape, data: Seq::new(x.data.len(), |i: int| x.data[i].times(scale)) }
}

/// Every element times `scale`.
pub fn scaled<T: Scalar>(x: &Tensor<T>, scale: T) -> (r: Tensor<T>)
    requires
        x.wf(),
    ensures
        r@ == scaled_spec(x@, scale),
        r.wf(),
{
    let n: usize = x.data.len();
    let mut data: Vec<T> = Vec::new();
    let mut i: usize = 0;
    while i < n
        invariant
            n == x.data@.len(),
            i <= n,
            data@.len() == i,
            forall|j: int| 0 <= j < i ==> #[trigger] data@[j] == x.data@[j].times(scale),
        decreases n - i,
    {
        data.push(x.data[i].mul(scale));
        i = i + 1;
    }
    let r = Tensor { shape: copy_of(x.shape.as_slice()), data };
    assert(r@ =~= scaled_spec(x@, scale));
    r
}

/// Whether `after` differs from `before` only in that `v` holds `t`.
pub open spec fn filled<T, O>(
    before: Graph<T, O>,
    after: Graph<T, O>,
    v: Variable,
    t: Tensor<T>,
) -> bool {
    only_node(before, after, v, Node { data: Some(t), ..before.node(v) })
}

/// Whether `after` differs from `before` only in that `v` holds `a`.
pub open spec fn only_data<T, O>(
    before: Graph<T, O>,
    after: Graph<T, O>,
    v: Variable,
    a: Array<T>,
) -> bool {
    exists|t: Tensor<T>| t@ == a && #[trigger] filled(before, after, v, t)
}

/// Whether `after` is `before` with two more parameters: an empty weight and a bias
/// of nought.
pub open spec fn weight_and_bias<T: Scalar, O>(
    before: Graph<T, O>,
    after: Graph<T, O>,
    weight: Parameter,
    bias: Parameter,
    out_size: usize,
) -> bool {
    let w = after.node(weight.variable);
    let b = after.node(bias.variable);
    &&& after.wf()
    &&& after.extends(before)
    &&& after.calls@.len() == before.calls@.len()
    &&& after.nodes@.len() == before.nodes@.len() + 2
    &&& weight.variable.id == before.nodes@.len()
    &&& bias.variable.id == before.nodes@.len() + 1
    &&& w.data is None
    &&& name_of(after, weight.variable) == Some("W"@)
    &&& after.array(bias.variable) == Some(full_spec(seq![out_size], T::zero_spec()))
    &&& name_of(after, bias.variable) == Some("b"@)
    &&& w.grad is None && w.creator is None && w.generation == 0 && w.alive
    &&& b.grad is None && b.creator is None && b.generation == 0 && b.alive
}

/// Makes an empty weight and a bias of nought.
pub fn make_weight_and_bias<T: Scalar, O>(g: &mut Graph<T, O>, out_size: usize) -> (r: (
    Parameter,
    Parameter,
))
    requires
        old(g).wf(),
    ensures
        weight_and_bias(*old(g), *final(g), r.0, r.1, out_size),
{
    let weight = Parameter::named(g, None, "W");
    let ghost mid = *g;
    let shape: [usize; 1] = [out_size];
    proof {
        crate::utils::array::lemma_volume1(out_size);
        assert(shape@ =~= seq![out_size]);
    }
    let zeros: Tensor<T> = Tensor::full(shape.as_slice(), T::zero());
    let bias = Parameter::named(g, Some(zeros), "b");
    proof {
        crate::engine::trace::lemma_extends(*old(g), mid, *g);
        assert(g.nodes@[weight.variable.id as int] == mid.nodes@[weight.variable.id as int]);
    }
    (weight, bias)
}

/// A weight and an optional bias as a list.
pub open spec fn weights(weight: Parameter, bias: Option<Parameter>) -> Seq<Parameter> {
    match bias {
        Some(b) => seq![weight, b],
        None => seq![weight],
    }
}

/// A weight and an optional bias as a list.
pub fn list_weights(weight: &Parameter, bias: &Option<Parameter>) -> (r: Vec<Parameter>)
    ensures
        r@ == weights(*weight, *bias),
{
    let mut r: Vec<Parameter> = Vec::new();
    r.push(*weight);
    match bias {
        Some(b) => {
            r.push(*b);
        },
        None => {},
    }
    assert(r@ =~= weights(*weight, *bias));
    r
}

/// A weight and an optional bias as operands beside an input.
pub open spec fn with_input(x: Variable, weight: Parameter, bias: Option<Parameter>) -> Seq<
    Variable,
> {
    match bias {
        Some(b) => seq![x, weight.variable, b.variable],
        None => seq![x, weight.variable],
    }
}

/// The shape of the bias, where there is one.
pub open spec fn bias_shape<T, O>(g: Graph<T, O>, bias: Option<Parameter>) -> Option<Seq<usize>> {
    match bias {
        Some(b) => Some(held(g, b.variable).shape),
        None => None,
    }
}

/// The weight and the bias hold data.
pub open spec fn weights_hold<T, O>(
    g: Graph<T, O>,
    weight: Parameter,
    bias: Option<Parameter>,
) -> bool {
    &&& holds(g, weight.variable)
    &&& bias matches Some(b) ==> holds(g, b.variable)
}

impl Linear {
    /// The parameters belong to the graph, and are two.
    pub open spec fn wf<T, O>(self, g: Graph<T, O>) -> bool {
        &&& g.has(self.weight.variable)
        &&& self.bias matches Some(b) ==> g.has(b.variable)
        &&& self.bias matches Some(b) ==> b != self.weight
    }

    /// A layer whose weight is sized by its first input.
    #[must_use]
    pub fn new<T: Scalar, O>(g: &mut Graph<T, O>, out_size: usize) -> (r: Linear)
        requires
            old(g).wf(),
        ensures
            r.bias is Some,
            weight_and_bias(*old(g), *final(g), r.weight, r.bias->0, out_size),
            r.in_size is None,
            r.out_size == out_size,
            r.wf(*final(g)),
    {
        let (weight, bias) = make_weight_and_bias(g, out_size);
        Linear { weight, bias: Some(bias), in_size: None, out_size }
    }

    /// The same layer without its bias.
    #[must_use]
    pub fn without_bias(self) -> (r: Linear)
        ensures
            r == (Linear { bias: None, ..self }),
    {
        Linear { weight: self.weight, bias: None, in_size: self.in_size, out_size: self.out_size }
    }

    /// The weight.
    #[must_use]
    pub fn weight(&self) -> (r: &Parameter)
        ensures
            *r == self.weight,
    {
        &self.weight
    }

    /// The bias, where there is one.
    #[must_use]
    pub fn bias(&self) -> (r: Option<&Parameter>)
        ensures
            r is Some <==> self.bias is Some,
            r matches Some(b) ==> self.bias == Some(*b),
    {
        self.bias.as_ref()
    }

    /// The number of inputs, once the weight has been sized.
    #[must_use]
    pub fn in_size(&self) -> (r: Option<usize>)
        ensures
            r == self.in_size,
    {
        self.in_size
    }

    /// The number of outputs.
    #[must_use]
    pub fn out_size(&self) -> (r: usize)
        ensures
            r == self.out_size,
    {
        self.out_size
    }

    /// How many inputs the weight has to be made for before the layer can be run on an
    /// input of width `in_size`; nothing where it is there already.
    #[must_use]
    pub fn wanted<T, O>(&self, g: &Graph<T, O>, in_size: usize) -> (r: Option<usize>)
        requires
            self.wf(*g),
        ensures
            r == if g.node(self.weight.variable).data is None {
                Some(in_size)
            } else {
                None
            },
    {
        if self.weight.variable.data(g).is_some() {
            None
        } else {
            Some(in_size)
        }
    }

    /// Fills in the weight: `draws` scaled, so that the spread of the outputs does
    /// not depend on the number of inputs.
    pub fn init_weight<T: Scalar, O>(
        &mut self,
        g: &mut Graph<T, O>,
        in_size: usize,
        draws: &Tensor<T>,
        scale: T,
    )
        requires
            old(g).wf(),
            old(self).wf(*old(g)),
            in_size > 0,
            draws.wf(),
            draws@.shape == seq![in_size, old(self).out_size],
        ensures
            final(g).wf(),
            only_data(*old(g), *final(g), old(self).weight.variable, scaled_spec(draws@, scale)),
            *final(self) == (Linear { in_size: Some(in_size), ..*old(self) }),
            final(self).wf(*final(g)),
    {
        let w = scaled(draws, scale);
        let ghost t = w;
        self.weight.variable.set_data(g, w);
        proof {
            assert(filled(*old(g), *g, self.weight.variable, t));
        }
        self.in_size = Some(in_size);
    }

    /// A layer whose weight is there at once.
    #[must_use]
    pub fn with_in_size<T: Scalar, O>(
        g: &mut Graph<T, O>,
        in_size: usize,
        out_size: usize,
        draws: &Tensor<T>,
        scale: T,
    ) -> (r: Linear)
        requires
            old(g).wf(),
            in_size > 0,
            draws.wf(),
            draws@.shape == seq![in_size, out_size],
        ensures
            final(g).wf(),
            r.wf(*final(g)),
            r.bias is Some,
            r.in_size == Some(in_size),
            r.out_size == out_size,
            exists|mid: Graph<T, O>|
                weight_and_bias(*old(g), mid, r.weight, r.bias->0, out_size) && #[trigger] only_data(
                    mid,
                    *final(g),
                    r.weight.variable,
                    scaled_spec(draws@, scale),
                ),
    {
        let mut r = Linear::new(g, out_size);
        let ghost mid = *g;
        r.init_weight(g, in_size, draws, scale);
        proof {
            assert(weight_and_bias(*old(g), mid, r.weight, r.bias->0, out_size));
        }
        r
    }
}

impl Layer for Linear {
    open spec fn tree_spec(&self) -> Tree {
        Tree { own: weights(self.weight, self.bias), children: Seq::empty() }
    }

    fn own_params(&self) -> (r: Vec<Parameter>) {
        list_weights(&self.weight, &self.bias)
    }

    fn sublayers(&self) -> (r: Vec<ParamTree>) {
        Vec::new()
    }
}

proof fn lemma_linear_shape<T: Scalar>(x: Array<T>, w: Array<T>, b: Option<Array<T>>)
    requires
        linear_fits(
            x.shape,
            w.shape,
            match b {
                Some(b) => Some(b.shape),
                None => None,
            },
        ),
    ensures
        linear_spec(x, w, b).shape == seq![x.shape[0], w.shape[1]],
{
    assert(matmul_spec(x, w).shape =~= seq![x.shape[0], w.shape[1]]);
    if let Some(b) = b {
        lemma_joint_absorbs(matmul_spec(x, w).shape, b.shape);
    }
}

impl<T: Scalar, O: Op<T>> Model<T, O> for Linear {
    open spec fn takes(&self, g: Graph<T, O>, s: Seq<usize>) -> bool {
        &&& weights_hold(g, self.weight, self.bias)
        &&& linear_fits(s, held(g, self.weight.variable).shape, bias_shape(g, self.bias))
    }

    open spec fn gives(&self, g: Graph<T, O>, s: Seq<usize>) -> Seq<usize> {
        seq![s[0], held(g, self.weight.variable).shape[1]]
    }

    open spec fn steps(&self, n: nat, x: Variable) -> Seq<Step<O::Rule>> {
        seq![Step { rule: O::embed(Rule::Linear), inputs: with_input(x, self.weight, self.bias) }]
    }

    proof fn unmoved(&self, before: Graph<T, O>, after: Graph<T, O>, s: Seq<usize>) {
        assert(after.nodes@[self.weight.variable.id as int]
            == before.nodes@[self.weight.variable.id as int]);
        if let Some(b) = self.bias {
            assert(after.nodes@[b.variable.id as int] == before.nodes@[b.variable.id as int]);
        }
    }

    fn forward(&mut self, g: &mut Graph<T, O>, x: &Variable) -> (y: Variable)
        ensures
            *final(self) == *old(self),
            is_affine(
                held(*final(g), y),
                held(*old(g), *x),
                weight_of(*old(g), *old(self)),
                bias_of(*old(g), *old(self)),
            ),
    {
        let ghost before = *g;
        let w: Variable = self.weight.variable;
        let y = match self.bias {
            Some(b) => {
                let b: Variable = b.variable;
                linear(g, x, &w, Some(&b))
            },
            None => linear(g, x, &w, None),
        };
        proof {
            lemma_linear_shape(
                held(before, *x),
                held(before, w),
                match self.bias {
                    Some(b) => Some(held(before, b.variable)),
                    None => None,
                },
            );
            let step = Step {
                rule: O::embed(Rule::Linear),
                inputs: with_input(*x, self.weight, self.bias),
            };
            lemma_no_steps(before);
            assert(before.all_hold(step.inputs));
            assert(seq![y][0] == y);
            assert(seq![crate::engine::trace::outcome_of(before, 0)] =~= seq![y]);
            lemma_one_step_more(before, before, *g, Seq::empty(), step);
            assert(Seq::<Step<O::Rule>>::empty().push(step) =~= seq![step]);
            a_layer_is_affine(before, *g, *self, *x, y);
        }
        y
    }
}

/// Whether `after` is `before` with the parameters of a new layer, which may have
/// dropped its bias since.
pub open spec fn built_one<T: Scalar, O>(
    before: Graph<T, O>,
    after: Graph<T, O>,
    l: Linear,
    out_size: usize,
) -> bool {
    let b = Parameter { variable: Variable { id: (before.nodes@.len() + 1) as usize } };
    &&& weight_and_bias(before, after, l.weight, b, out_size)
    &&& l.bias is None || l.bias == Some(b)
    &&& l.in_size is None
    &&& l.out_size == out_size
}

/// Whether `after` is `before` with the parameters of new layers, one after the
/// other.
pub open spec fn built<T: Scalar, O>(
    before: Graph<T, O>,
    after: Graph<T, O>,
    ls: Seq<Linear>,
    sizes: Seq<usize>,
) -> bool
    decreases ls.len(),
{
    if ls.len() == 0 {
        after == before && sizes.len() == 0
    } else {
        &&& sizes.len() == ls.len()
        &&& exists|mid: Graph<T, O>|
            built(before, mid, ls.drop_last(), sizes.drop_last()) && #[trigger] built_one(
                mid,
                after,
                ls.last(),
                sizes.last(),
            )
    }
}

/// New layers have parameters of their own, and their weights are empty.
pub proof fn lemma_built<T: Scalar, O>(
    before: Graph<T, O>,
    after: Graph<T, O>,
    ls: Seq<Linear>,
    sizes: Seq<usize>,
)
    requires
        before.wf(),
        built(before, after, ls, sizes),
    ensures
        after.wf(),
        after.extends(before),
        after.nodes@.len() == before.nodes@.len() + 2 * ls.len(),
        forall|k: int|
            0 <= k < ls.len() ==> {
                &&& (#[trigger] ls[k]).wf(after)
                &&& ls[k].weight.variable.id == before.nodes@.len() + 2 * k
                &&& after.node(ls[k].weight.variable).data is None
            },
    decreases ls.len(),
{
    if ls.len() > 0 {
        let mid = choose|mid: Graph<T, O>|
            built(before, mid, ls.drop_last(), sizes.drop_last()) && #[trigger] built_one(
                mid,
                after,
                ls.last(),
                sizes.last(),
            );
        lemma_built(before, mid, ls.drop_last(), sizes.drop_last());
        crate::engine::trace::lemma_extends(before, mid, after);
        assert forall|k: int| 0 <= k < ls.len() implies {
            &&& (#[trigger] ls[k]).wf(after)
            &&& ls[k].weight.variable.id == before.nodes@.len() + 2 * k
            &&& after.node(ls[k].weight.variable).data is None
        } by {
            if k < ls.len() - 1 {
                assert(ls.drop_last()[k] == ls[k]);
                let id = ls[k].weight.variable.id as int;
                assert(after.nodes@[id] == mid.nodes@[id]);
            } else {
                assert(ls[k] == ls.last());
            }
        }
    }
}

/// New layers have the sizes asked for, and share no weights.
pub proof fn lemma_built_sizes<T: Scalar, O>(
    before: Graph<T, O>,
    after: Graph<T, O>,
    ls: Seq<Linear>,
    sizes: Seq<usize>,
)
    requires
        before.wf(),
        built(before, after, ls, sizes),
    ensures
        ls.len() == sizes.len(),
        forall|k: int| 0 <= k < ls.len() ==> (#[trigger] ls[k]).out_size == sizes[k],
        apart(ls),
    decreases ls.len(),
{
    lemma_built(before, after, ls, sizes);
    if ls.len() > 0 {
        let mid = choose|mid: Graph<T, O>|
            built(before, mid, ls.drop_last(), sizes.drop_last()) && #[trigger] built_one(
                mid,
                after,
                ls.last(),
                sizes.last(),
            );
        lemma_built_sizes(before, mid, ls.drop_last(), sizes.drop_last());
        assert forall|k: int| 0 <= k < ls.len() implies (#[trigger] ls[k]).out_size
            == sizes[k] by {
            if k < ls.len() - 1 {
                assert(ls.drop_last()[k] == ls[k]);
                assert(sizes.drop_last()[k] == sizes[k]);
            }
        }
    }
}

/// One more new layer.
pub proof fn lemma_built_push<T: Scalar, O>(
    before: Graph<T, O>,
    mid: Graph<T, O>,
    after: Graph<T, O>,
    ls: Seq<Linear>,
    sizes: Seq<usize>,
    l: Linear,
    size: usize,
)
    requires
        built(before, mid, ls, sizes),
        built_one(mid, after, l, size),
    ensures
        built(before, after, ls.push(l), sizes.push(size)),
{
    assert(ls.push(l).drop_last() =~= ls);
    assert(sizes.push(size).drop_last() =~= sizes);
    if ls.len() == 0 {
        assert(sizes.len() == 0);
    }
    assert(built_one(mid, after, ls.push(l).last(), sizes.push(size).last()));
}

/// A new layer may drop its bias.
pub proof fn lemma_drop_bias<T: Scalar, O>(
    before: Graph<T, O>,
    after: Graph<T, O>,
    ls: Seq<Linear>,
    sizes: Seq<usize>,
    k: int,
)
    requires
        built(before, after, ls, sizes),
        0 <= k < ls.len(),
    ensures
        built(before, after, ls.update(k, Linear { bias: None, ..ls[k] }), sizes),
    decreases ls.len(),
{
    let without = Linear { bias: None, ..ls[k] };
    let changed = ls.update(k, without);
    let mid = choose|mid: Graph<T, O>|
        built(before, mid, ls.drop_last(), sizes.drop_last()) && #[trigger] built_one(
            mid,
            after,
            ls.last(),
            sizes.last(),
        );
    if k < ls.len() - 1 {
        lemma_drop_bias(before, mid, ls.drop_last(), sizes.drop_last(), k);
        assert(changed.drop_last() =~= ls.drop_last().update(k, without));
        assert(changed.last() == ls.last());
    } else {
        assert(changed.drop_last() =~= ls.drop_last());
        assert(changed.last() == without);
    }
    assert(built_one(mid, after, changed.last(), sizes.last()));
}

/// Makes layers of the sizes given, each sized by its first input.
pub fn build_layers<T: Scalar, O>(g: &mut Graph<T, O>, sizes: &[usize]) -> (r: Vec<Linear>)
    requires
        old(g).wf(),
    ensures
        final(g).wf(),
        built(*old(g), *final(g), r@, sizes@),
        forall|k: int| 0 <= k < r@.len() ==> (#[trigger] r@[k]).bias is Some,
{
    let ghost before = *g;
    let n: usize = sizes.len();
    let mut r: Vec<Linear> = Vec::new();
    let mut i: usize = 0;
    assert(r@ =~= Seq::<Linear>::empty());
    assert(sizes@.take(0) =~= Seq::<usize>::empty());
    while i < n
        invariant
            n == sizes@.len(),
            i <= n,
            r@.len() == i,
            g.wf(),
            built(before, *g, r@, sizes@.take(i as int)),
            forall|k: int| 0 <= k < r@.len() ==> (#[trigger] r@[k]).bias is Some,
        decreases n - i,
    {
        let ghost mid = *g;
        let ghost was = r@;
        let l = Linear::new(g, sizes[i]);
        proof {
            assert(l.bias->0 == (Parameter {
                variable: Variable { id: (mid.nodes@.len() + 1) as usize },
            }));
            lemma_built_push(before, mid, *g, was, sizes@.take(i as int), l, sizes@[i as int]);
            assert(sizes@.take(i as int).push(sizes@[i as int]) =~= sizes@.take(i + 1));
        }
        r.push(l);
        i = i + 1;
    }
    assert(sizes@.take(n as int) =~= sizes@);
    r
}

/// No two layers share a weight.
pub open spec fn apart(ls: Seq<Linear>) -> bool {
    forall|i: int, j: int|
        0 <= i < j < ls.len() ==> #[trigger] ls[i].weight != #[trigger] ls[j].weight
}

/// Whether `after` differs from `before` only in that the weight of each layer holds
/// its draws, scaled.
pub open spec fn weights_filled<T: Scalar, O>(
    before: Graph<T, O>,
    after: Graph<T, O>,
    ls: Seq<Linear>,
    draws: Seq<Tensor<T>>,
    scales: Seq<T>,
) -> bool {
    &&& after.nodes@.len() == before.nodes@.len()
    &&& after.calls == before.calls
    &&& after.config == before.config
    &&& forall|k: int|
        0 <= k < ls.len() ==> {
            let v = (#[trigger] ls[k]).weight.variable;
            &&& after.array(v) == Some(scaled_spec(draws[k]@, scales[k]))
            &&& after.node(v) == Node { data: after.node(v).data, ..before.node(v) }
        }
    &&& forall|i: int|
        0 <= i < before.nodes@.len() && (forall|k: int|
            0 <= k < ls.len() ==> (#[trigger] ls[k]).weight.variable.id != i)
            ==> #[trigger] after.nodes@[i] == before.nodes@[i]
}

/// The layers once their weights have been sized.
pub open spec fn sized(ls: Seq<Linear>, in_sizes: Seq<usize>) -> Seq<Linear> {
    Seq::new(ls.len(), |k: int| Linear { in_size: Some(in_sizes[k]), ..ls[k] })
}

/// Fills in the weights of several layers.
pub fn init_layers<T: Scalar, O>(
    g: &mut Graph<T, O>,
    ls: &[Linear],
    in_sizes: &[usize],
    draws: &[Tensor<T>],
    scales: &[T],
) -> (r: Vec<Linear>)
    requires
        old(g).wf(),
        apart(ls@),
        in_sizes@.len() == ls@.len(),
        draws@.len() == ls@.len(),
        scales@.len() == ls@.len(),
        forall|k: int|
            0 <= k < ls@.len() ==> {
                &&& (#[trigger] ls@[k]).wf(*old(g))
                &&& in_sizes@[k] > 0
                &&& draws@[k].wf()
                &&& draws@[k]@.shape == seq![in_sizes@[k], ls@[k].out_size]
            },
    ensures
        final(g).wf(),
        weights_filled(*old(g), *final(g), ls@, draws@, scales@),
        r@ == sized(ls@, in_sizes@),
{
    let ghost before = *g;
    let n: usize = ls.len();
    let mut r: Vec<Linear> = Vec::new();
    let mut i: usize = 0;
    while i < n
        invariant
            i <= n,
            n == ls@.len(),
            in_sizes@.len() == n,
            draws@.len() == n,
            scales@.len() == n,
            apart(ls@),
            g.wf(),
            forall|k: int|
                0 <= k < n ==> {
                    &&& (#[trigger] ls@[k]).wf(before)
                    &&& in_sizes@[k] > 0
                    &&& draws@[k].wf()
                    &&& draws@[k]@.shape == seq![in_sizes@[k], ls@[k].out_size]
                },
            weights_filled(before, *g, ls@.take(i as int), draws@, scales@),
            r@ == sized(ls@.take(i as int), in_sizes@),
        decreases n - i,
    {
        let mut l: Linear = ls[i];
        let ghost mid = *g;
        let ghost v = ls@[i as int].weight.variable;
        assert(ls@[i as int].wf(before));
        l.init_weight(g, in_sizes[i], &draws[i], scales[i]);
        r.push(l);
        proof {
            let t = choose|t: Tensor<T>|
                t@ == scaled_spec(draws@[i as int]@, scales@[i as int]) && #[trigger] filled(
                    mid,
                    *g,
                    v,
                    t,
                );
            let was = ls@.take(i as int);
            let now = ls@.take(i + 1);
            assert forall|k: int| 0 <= k < now.len() implies {
                let w = (#[trigger] now[k]).weight.variable;
                &&& g.array(w) == Some(scaled_spec(draws@[k]@, scales@[k]))
                &&& g.node(w) == Node { data: g.node(w).data, ..before.node(w) }
            } by {
                if k < i {
                    assert(was[k] == now[k]);
                    assert(ls@[k].weight != ls@[i as int].weight);
                } else {
                    assert(forall|j: int|
                        0 <= j < was.len() ==> (#[trigger] was[j]).weight.variable.id != v.id) by {
                        assert forall|j: int| 0 <= j < was.len() implies (
                        #[trigger] was[j]).weight.variable.id != v.id by {
                            assert(ls@[j].weight != ls@[i as int].weight);
                        }
                    }
                    assert(mid.nodes@[v.id as int] == before.nodes@[v.id as int]);
                }
            }
            assert forall|j: int|
                0 <= j < before.nodes@.len() && (forall|k: int|
                    0 <= k < now.len() ==> (#[trigger] now[k]).weight.variable.id != j)
                implies #[trigger] g.nodes@[j] == before.nodes@[j] by {
                assert(now[i as int].weight.variable.id != j);
                assert forall|k: int| 0 <= k < was.len() implies (
                #[trigger] was[k]).weight.variable.id != j by {
                    assert(now[k].weight.variable.id != j);
                }
                assert(mid.nodes@[j] == before.nodes@[j]);
            }
            assert(r@ =~= sized(now, in_sizes@));
        }
        i = i + 1;
    }
    assert(ls@.take(n as int) =~= ls@);
    r
}

} // verus!
