//! The sixteen-layer image classifier.

use vstd::prelude::*;

use crate::engine::builtin::{held, holds};
use crate::engine::elementwise::lemma_joint_with_itself;
use crate::engine::function::Op;
use crate::engine::graph::{Graph, Variable};
use crate::engine::parameter::Parameter;
use crate::engine::rule::Rule;
use crate::engine::trace::{
    a_run_only_adds, lemma_apply, lemma_extends, lemma_no_steps, lemma_runs_chain, outcome_of, runs,
    Step,
};
use crate::functions::activation::{
    dropout, mask_spec, masked, relu, scaled_mask_spec, valid_ratio,
};
use crate::functions::conv::{apply_pooling, pooled_shape, pooling_fits, Pooling};
use crate::functions::shape::reshape;
use crate::index::{checked_volume, volume};
use crate::laws::classifier::{a_classifier_goes_stage_by_stage, is_classification};
use crate::layers::conv::Conv2dLayer;
use crate::layers::linear::{
    build_layers, built, lemma_built_sizes, weight_and_bias, with_input, Linear,
};
use crate::layers::rnn::{linear_step, nth};
use crate::layers::{lemma_trees_push, trees, Layer, ParamTree, Tree};
use crate::models::mlp::passed;
use crate::models::Model;
use crate::scalar::Scalar;
use crate::tensor::{Array, Tensor};
use crate::utils::conv::{
    a_number_spells_both_sides, conv_outsize, lemma_volume2, patches_spec,
};

verus! {

/// The output channels of each convolution.
pub open spec fn channels() -> Seq<usize> {
    seq![64, 64, 128, 128, 256, 256, 256, 512, 512, 512, 512, 512, 512]
}

/// Whether a convolution is the last of its block, behind which images are halved.
pub open spec fn ends_block(k: int) -> bool {
    k == 1 || k == 3 || k == 6 || k == 9 || k == 12
}

/// The share of elements that dropout drops.
pub open spec fn half<T: Scalar>() -> T {
    T::one_spec().over(T::count_spec(2))
}

/// Thirteen convolutions in five blocks, then three fully connected layers.
#[derive(Debug)]
pub struct Vgg16<T> {
    pub conv: Vec<Conv2dLayer>,
    pub fc6: Linear,
    pub fc7: Linear,
    pub fc8: Linear,
    pub dropout_ratio: T,
}

/// Whether `after` is `before` with the parameters of a new convolution of three by
/// three.
pub open spec fn conv_built<T: Scalar, O>(
    before: Graph<T, O>,
    after: Graph<T, O>,
    c: Conv2dLayer,
    out_channels: usize,
) -> bool {
    &&& c.bias is Some
    &&& weight_and_bias(before, after, c.weight, c.bias->0, out_channels)
    &&& c.in_channels is None
    &&& c.out_channels == out_channels
    &&& c.kernel == (3usize, 3usize)
    &&& c.stride == (1usize, 1usize)
    &&& c.pad == (1usize, 1usize)
}

/// Whether `after` is `before` with the parameters of new convolutions, one after the
/// other.
pub open spec fn convs_built<T: Scalar, O>(
    before: Graph<T, O>,
    after: Graph<T, O>,
    cs: Seq<Conv2dLayer>,
) -> bool
    decreases cs.len(),
{
    if cs.len() == 0 {
        after == before
    } else {
        exists|mid: Graph<T, O>|
            convs_built(before, mid, cs.drop_last()) && #[trigger] conv_built(
                mid,
                after,
                cs.last(),
                channels()[cs.len() - 1],
            )
    }
}

fn channels_of(k: usize) -> (r: usize)
    requires
        k < 13,
    ensures
        r == channels()[k as int],
{
    if k < 2 {
        64
    } else if k < 4 {
        128
    } else if k < 7 {
        256
    } else {
        512
    }
}

impl<T: Scalar> Vgg16<T> {
    /// The fully connected layers.
    pub open spec fn dense(self) -> Seq<Linear> {
        seq![self.fc6, self.fc7, self.fc8]
    }

    /// A network that tells a thousand classes apart.
    #[must_use]
    pub fn new<O>(g: &mut Graph<T, O>) -> (r: Vgg16<T>)
        requires
            old(g).wf(),
        ensures
            final(g).wf(),
            exists|mid: Graph<T, O>|
                #[trigger] convs_built(*old(g), mid, r.conv@) && built(
                    mid,
                    *final(g),
                    r.dense(),
                    seq![4096, 4096, 1000],
                ),
            r.conv@.len() == 13,
            r.fc6.bias is Some && r.fc7.bias is Some && r.fc8.bias is Some,
            r.dropout_ratio == half::<T>(),
    {
        Vgg16::with_classes(g, 1000)
    }

    /// A network that tells so many classes apart. The number of input channels is
    /// settled by the first input.
    #[must_use]
    pub fn with_classes<O>(g: &mut Graph<T, O>, classes: usize) -> (r: Vgg16<T>)
        requires
            old(g).wf(),
        ensures
            final(g).wf(),
            exists|mid: Graph<T, O>|
                #[trigger] convs_built(*old(g), mid, r.conv@) && built(
                    mid,
                    *final(g),
                    r.dense(),
                    seq![4096, 4096, classes],
                ),
            r.conv@.len() == 13,
            r.fc6.bias is Some && r.fc7.bias is Some && r.fc8.bias is Some,
            r.dropout_ratio == half::<T>(),
    {
        let ghost before = *g;
        let mut conv: Vec<Conv2dLayer> = Vec::new();
        let mut k: usize = 0;
        assert(conv@ =~= Seq::<Conv2dLayer>::empty());
        while k < 13
            invariant
                k <= 13,
                conv@.len() == k,
                g.wf(),
                convs_built(before, *g, conv@),
            decreases 13 - k,
        {
            let ghost mid = *g;
            let ghost was = conv@;
            let c = Conv2dLayer::new(g, channels_of(k), 3usize, 1usize, 1usize);
            proof {
                a_number_spells_both_sides(3, c.kernel);
                a_number_spells_both_sides(1, c.stride);
                a_number_spells_both_sides(1, c.pad);
            }
            conv.push(c);
            proof {
                assert(conv@.drop_last() =~= was);
                assert(conv_built(mid, *g, conv@.last(), channels()[conv@.len() - 1]));
            }
            k = k + 1;
        }
        let ghost mid = *g;
        let sizes: [usize; 3] = [4096, 4096, classes];
        let dense = build_layers(g, sizes.as_slice());
        proof {
            assert(sizes@ =~= seq![4096, 4096, classes]);
            lemma_built_sizes(mid, *g, dense@, sizes@);
        }
        let ratio: T = T::one().div(T::from_count(2));
        let r = Vgg16 { conv, fc6: dense[0], fc7: dense[1], fc8: dense[2], dropout_ratio: ratio };
        proof {
            assert(dense@ =~= r.dense());
            assert(convs_built(before, mid, r.conv@));
        }
        r
    }

    /// The convolutions, in their order.
    #[must_use]
    pub fn convolutions(&self) -> (r: &[Conv2dLayer])
        ensures
            r@ == self.conv@,
    {
        self.conv.as_slice()
    }

    /// The fully connected layers, in their order.
    #[must_use]
    pub fn classifier(&self) -> (r: [&Linear; 3])
        ensures
            *r[0] == self.fc6,
            *r[1] == self.fc7,
            *r[2] == self.fc8,
    {
        [&self.fc6, &self.fc7, &self.fc8]
    }
}

/// The trees of the convolutions and of the fully connected layers.
pub open spec fn vgg_trees(cs: Seq<Conv2dLayer>, ls: Seq<Linear>) -> Seq<Tree> {
    Seq::new(cs.len(), |i: int| cs[i].tree_spec()) + Seq::new(ls.len(), |i: int| ls[i].tree_spec())
}

impl<T: Scalar> Layer for Vgg16<T> {
    open spec fn tree_spec(&self) -> Tree {
        Tree { own: Seq::empty(), children: vgg_trees(self.conv@, self.dense()) }
    }

    fn own_params(&self) -> (r: Vec<Parameter>) {
        Vec::new()
    }

    fn sublayers(&self) -> (r: Vec<ParamTree>) {
        let n: usize = self.conv.len();
        let mut r: Vec<ParamTree> = Vec::new();
        let mut i: usize = 0;
        let ghost all = vgg_trees(self.conv@, self.dense());
        while i < n
            invariant
                n == self.conv@.len(),
                i <= n,
                all == vgg_trees(self.conv@, self.dense()),
                r@.len() == i,
                trees(r@) == all.take(i as int),
            decreases n - i,
        {
            let ghost was = r@;
            r.push(self.conv[i].tree());
            proof {
                lemma_trees_push(was, r@[i as int]);
                assert(all.take(i + 1) =~= all.take(i as int).push(all[i as int]));
            }
            i = i + 1;
        }
        let ghost was = r@;
        r.push(self.fc6.tree());
        proof {
            lemma_trees_push(was, r@[n as int]);
        }
        let ghost was = r@;
        r.push(self.fc7.tree());
        proof {
            lemma_trees_push(was, r@[n + 1]);
        }
        let ghost was = r@;
        r.push(self.fc8.tree());
        proof {
            lemma_trees_push(was, r@[n + 2]);
            assert(trees(r@) =~= all);
        }
        r
    }
}

/// The step that runs a convolution.
pub open spec fn conv_step<T: Scalar, O: Op<T>>(c: Conv2dLayer, x: Variable) -> Step<O::Rule> {
    Step {
        rule: O::embed(Rule::Conv2d { stride: c.stride, pad: c.pad }),
        inputs: with_input(x, c.weight, c.bias),
    }
}

/// The step that rectifies.
pub open spec fn relu_step<T: Scalar, O: Op<T>>(x: Variable) -> Step<O::Rule> {
    Step { rule: O::embed(Rule::ReLU), inputs: seq![x] }
}

/// The step that halves images.
pub open spec fn pool_step<T: Scalar, O: Op<T>>(x: Variable) -> Step<O::Rule> {
    Step {
        rule: O::embed(
            Rule::Pooling {
                kernel: (2usize, 2usize),
                stride: (2usize, 2usize),
                pad: (0usize, 0usize),
                winners: Seq::empty(),
            },
        ),
        inputs: seq![x],
    }
}

/// The steps of one convolution, rectified, and halved at the end of a block.
pub open spec fn stage_steps<T: Scalar, O: Op<T>>(
    c: Conv2dLayer,
    halves: bool,
    n: nat,
    x: Variable,
) -> Seq<Step<O::Rule>> {
    let two = seq![conv_step::<T, O>(c, x), relu_step::<T, O>(nth(n, 0))];
    if halves {
        two.push(pool_step::<T, O>(nth(n, 1)))
    } else {
        two
    }
}

/// The shape of images halved.
#[verifier::opaque]
pub open spec fn halved(s: Seq<usize>) -> Seq<usize> {
    pooled_shape(patches_spec(s, (2usize, 2usize), (2usize, 2usize), (0usize, 0usize)))
}

/// The shape behind one convolution, halved at the end of a block.
#[verifier::opaque]
pub open spec fn stage_shape<T: Scalar, O: Op<T>>(
    c: Conv2dLayer,
    halves: bool,
    g: Graph<T, O>,
    s: Seq<usize>,
) -> Seq<usize> {
    if halves {
        halved(Model::<T, O>::gives(&c, g, s))
    } else {
        Model::<T, O>::gives(&c, g, s)
    }
}

/// Whether one convolution can be run, and halved at the end of a block.
#[verifier::opaque]
pub open spec fn stage_takes<T: Scalar, O: Op<T>>(
    c: Conv2dLayer,
    halves: bool,
    g: Graph<T, O>,
    s: Seq<usize>,
) -> bool {
    &&& Model::<T, O>::takes(&c, g, s)
    &&& halves ==> pooling_fits(
        Model::<T, O>::gives(&c, g, s),
        (2usize, 2usize),
        (2usize, 2usize),
        (0usize, 0usize),
    )
}

/// The shape behind the first `k` convolutions.
pub open spec fn feature_shape<T: Scalar, O: Op<T>>(
    cs: Seq<Conv2dLayer>,
    g: Graph<T, O>,
    s: Seq<usize>,
    k: int,
) -> Seq<usize>
    decreases k,
{
    if k <= 0 {
        s
    } else {
        stage_shape(cs[k - 1], ends_block(k - 1), g, feature_shape(cs, g, s, k - 1))
    }
}

/// Whether the first `k` convolutions can be run one after the other.
pub open spec fn features_take<T: Scalar, O: Op<T>>(
    cs: Seq<Conv2dLayer>,
    g: Graph<T, O>,
    s: Seq<usize>,
    k: int,
) -> bool {
    forall|i: int|
        0 <= i < k ==> stage_takes(#[trigger] cs[i], ends_block(i), g, feature_shape(cs, g, s, i))
}

/// The steps of the first `k` convolutions.
pub open spec fn feature_steps<T: Scalar, O: Op<T>>(
    cs: Seq<Conv2dLayer>,
    n: nat,
    x: Variable,
    k: int,
) -> Seq<Step<O::Rule>>
    decreases k,
{
    if k <= 0 {
        Seq::empty()
    } else {
        let before = feature_steps::<T, O>(cs, n, x, k - 1);
        before + stage_steps::<T, O>(
            cs[k - 1],
            ends_block(k - 1),
            n + before.len(),
            passed(n, before.len() as int, x),
        )
    }
}

/// A graph that only grows changes nothing of a stage.
pub proof fn lemma_stage_unmoved<T: Scalar, O: Op<T>>(
    c: Conv2dLayer,
    halves: bool,
    before: Graph<T, O>,
    after: Graph<T, O>,
    s: Seq<usize>,
)
    requires
        stage_takes(c, halves, before, s),
        after.extends(before),
    ensures
        stage_takes(c, halves, after, s),
        stage_shape(c, halves, after, s) == stage_shape(c, halves, before, s),
{
    reveal(stage_takes);
    reveal(stage_shape);
    Model::<T, O>::unmoved(&c, before, after, s);
}

proof fn lemma_features_unmoved<T: Scalar, O: Op<T>>(
    cs: Seq<Conv2dLayer>,
    before: Graph<T, O>,
    after: Graph<T, O>,
    s: Seq<usize>,
    k: int,
)
    requires
        0 <= k <= cs.len(),
        features_take(cs, before, s, k),
        after.extends(before),
    ensures
        features_take(cs, after, s, k),
        feature_shape(cs, after, s, k) == feature_shape(cs, before, s, k),
    decreases k,
{
    if k > 0 {
        lemma_features_unmoved(cs, before, after, s, k - 1);
        let shape = feature_shape(cs, before, s, k - 1);
        assert(stage_takes(cs[k - 1], ends_block(k - 1), before, shape));
        lemma_stage_unmoved(cs[k - 1], ends_block(k - 1), before, after, shape);
        assert(stage_takes(cs[k - 1], ends_block(k - 1), after, feature_shape(cs, after, s, k - 1)));
    }
}

/// Runs one convolution, rectified, and halved at the end of a block.
fn stage<T: Scalar, O: Op<T>>(
    g: &mut Graph<T, O>,
    c: &Conv2dLayer,
    halves: bool,
    x: &Variable,
) -> (y: Variable)
    requires
        old(g).wf(),
        holds(*old(g), *x),
        stage_takes(*c, halves, *old(g), held(*old(g), *x).shape),
    ensures
        final(g).wf(),
        runs(*old(g), *final(g), stage_steps::<T, O>(*c, halves, old(g).nodes@.len(), *x)),
        y == outcome_of(
            *old(g),
            if halves {
                2
            } else {
                1
            },
        ),
        holds(*final(g), y),
        held(*final(g), y).shape == stage_shape(*c, halves, *old(g), held(*old(g), *x).shape),
{
    let ghost before = *g;
    let ghost n = g.nodes@.len();
    proof {
        reveal(stage_takes);
        reveal(stage_shape);
    }
    let mut layer: Conv2dLayer = *c;
    let a = Model::<T, O>::forward(&mut layer, g, x);
    let ghost g1 = *g;
    let ghost one = seq![conv_step::<T, O>(*c, *x)];
    proof {
        a_run_only_adds(before, g1, one);
        assert(a == nth(n, 0));
    }
    let b = relu(g, &a);
    let ghost g2 = *g;
    let ghost two = one.push(relu_step::<T, O>(a));
    proof {
        lemma_apply(before, g1, g2, one, O::embed(Rule::ReLU), seq![a], b);
        assert(two =~= stage_steps::<T, O>(*c, false, n, *x));
    }
    if halves {
        let op = Pooling { kernel: (2, 2), stride: (2, 2), pad: (0, 0), winners: Vec::new() };
        assert(op.winners@ =~= Seq::<usize>::empty());
        let y = apply_pooling(g, op, &b);
        proof {
            let step = pool_step::<T, O>(b);
            reveal(halved);
            lemma_apply(before, g2, *g, two, step.rule, seq![b], y);
            assert(two.push(step) =~= stage_steps::<T, O>(*c, true, n, *x));
        }
        y
    } else {
        b
    }
}

/// Whether `after` is what dropout makes of `before`: nothing outside training.
pub open spec fn dropped<T: Scalar, O: Op<T>>(
    before: Graph<T, O>,
    after: Graph<T, O>,
    x: Variable,
    ratio: T,
    draws: Array<T>,
    r: Variable,
) -> bool {
    if before.config.train {
        masked(before, after, x, scaled_mask_spec(mask_spec(draws, ratio), ratio), r)
    } else {
        r == x && after == before
    }
}

/// The number of elements of a shape behind its first axis.
pub open spec fn flat_size(s: Seq<usize>) -> nat {
    volume(s.skip(1))
}

impl<T: Scalar> Vgg16<T> {
    /// The shape behind the convolutions.
    pub open spec fn features<O: Op<T>>(self, g: Graph<T, O>, s: Seq<usize>) -> Seq<usize> {
        feature_shape(self.conv@, g, s, self.conv@.len() as int)
    }

    /// Whether the network can be run on images of this shape.
    pub open spec fn takes<O: Op<T>>(self, g: Graph<T, O>, s: Seq<usize>) -> bool {
        let f = self.features(g, s);
        let flat = seq![s[0], flat_size(f) as usize];
        let hidden = Model::<T, O>::gives(&self.fc6, g, flat);
        let second = Model::<T, O>::gives(&self.fc7, g, hidden);
        &&& self.conv@.len() > 0
        &&& s.len() == 4
        &&& features_take(self.conv@, g, s, self.conv@.len() as int)
        &&& flat_size(f) <= usize::MAX
        &&& Model::<T, O>::takes(&self.fc6, g, flat)
        &&& Model::<T, O>::takes(&self.fc7, g, hidden)
        &&& Model::<T, O>::takes(&self.fc8, g, second)
    }

    /// The steps up to the first dropout.
    pub open spec fn first_steps<O: Op<T>>(
        self,
        g: Graph<T, O>,
        x: Variable,
    ) -> Seq<Step<O::Rule>> {
        let n = g.nodes@.len();
        let s = held(g, x).shape;
        let features = feature_steps::<T, O>(self.conv@, n, x, self.conv@.len() as int);
        let m = n + features.len();
        let flat = seq![s[0], flat_size(self.features(g, s)) as usize];
        features + seq![
            Step {
                rule: O::embed(Rule::Reshape { shape: flat }),
                inputs: seq![passed(n, features.len() as int, x)],
            },
            linear_step::<T, O>(self.fc6, nth(m, 0)),
            relu_step::<T, O>(nth(m, 1)),
        ]
    }

    /// The steps between the two dropouts.
    pub open spec fn second_steps<O: Op<T>>(self, n: nat, x: Variable) -> Seq<Step<O::Rule>> {
        seq![linear_step::<T, O>(self.fc7, x), relu_step::<T, O>(nth(n, 0))]
    }

    /// Whether `after` is `before` with the rest of the network run behind the first
    /// dropout.
    pub open spec fn rest_ran<O: Op<T>>(
        self,
        before: Graph<T, O>,
        after: Graph<T, O>,
        x: Variable,
        draws: Array<T>,
        y: Variable,
    ) -> bool {
        exists|m1: Graph<T, O>, m2: Graph<T, O>, d: Variable|
            {
                &&& runs(before, m1, self.second_steps::<O>(before.nodes@.len(), x))
                &&& #[trigger] dropped(
                    m1,
                    m2,
                    outcome_of(before, 1),
                    self.dropout_ratio,
                    draws,
                    d,
                )
                &&& runs(m2, after, seq![linear_step::<T, O>(self.fc8, d)])
                &&& y == outcome_of(m2, 0)
            }
    }

    /// Whether `after` is `before` with the network run on `x`.
    pub open spec fn ran<O: Op<T>>(
        self,
        before: Graph<T, O>,
        after: Graph<T, O>,
        x: Variable,
        draws6: Array<T>,
        draws7: Array<T>,
        y: Variable,
    ) -> bool {
        let first = self.first_steps(before, x);
        exists|m1: Graph<T, O>, m2: Graph<T, O>, d: Variable|
            {
                &&& runs(before, m1, first)
                &&& #[trigger] dropped(
                    m1,
                    m2,
                    outcome_of(before, first.len() - 1),
                    self.dropout_ratio,
                    draws6,
                    d,
                )
                &&& self.rest_ran(m2, after, d, draws7, y)
            }
    }
}

proof fn lemma_stage_batch<T: Scalar, O: Op<T>>(
    c: Conv2dLayer,
    halves: bool,
    g: Graph<T, O>,
    s: Seq<usize>,
)
    requires
        stage_takes(c, halves, g, s),
    ensures
        stage_shape(c, halves, g, s).len() == 4,
        stage_shape(c, halves, g, s)[0] == s[0],
{
    reveal(stage_takes);
    reveal(stage_shape);
    reveal(halved);
}

pub proof fn lemma_feature_batch<T: Scalar, O: Op<T>>(
    cs: Seq<Conv2dLayer>,
    g: Graph<T, O>,
    s: Seq<usize>,
    k: int,
)
    requires
        0 <= k <= cs.len(),
        s.len() == 4,
        features_take(cs, g, s, k),
    ensures
        feature_shape(cs, g, s, k).len() == 4,
        feature_shape(cs, g, s, k)[0] == s[0],
    decreases k,
{
    if k > 0 {
        lemma_feature_batch(cs, g, s, k - 1);
        let shape = feature_shape(cs, g, s, k - 1);
        assert(stage_takes(cs[k - 1], ends_block(k - 1), g, shape));
        lemma_stage_batch(cs[k - 1], ends_block(k - 1), g, shape);
    }
}

/// The number of elements of a variable behind its first axis.
fn flat_of<T, O>(g: &Graph<T, O>, x: &Variable) -> (r: usize)
    requires
        holds(*g, *x),
        held(*g, *x).shape.len() > 0,
        flat_size(held(*g, *x).shape) <= usize::MAX,
    ensures
        r == flat_size(held(*g, *x).shape),
{
    let mut rest: Vec<usize> = Vec::new();
    match x.shape(g) {
        Some(shape) => {
            let n: usize = shape.len();
            let mut i: usize = 1;
            while i < n
                invariant
                    n == shape@.len(),
                    1 <= i <= n,
                    rest@ == shape@.subrange(1, i as int),
                decreases n - i,
            {
                rest.push(shape[i]);
                assert(rest@ =~= shape@.subrange(1, i + 1));
                i = i + 1;
            }
            assert(rest@ =~= shape@.skip(1));
        },
        None => {},
    }
    match checked_volume(rest.as_slice()) {
        Some(v) => v,
        None => 0,
    }
}

impl<T: Scalar> Vgg16<T> {
    /// Runs the convolutions.
    fn run_features<O: Op<T>>(&self, g: &mut Graph<T, O>, x: &Variable) -> (y: Variable)
        requires
            old(g).wf(),
            holds(*old(g), *x),
            self.conv@.len() > 0,
            features_take(
                self.conv@,
                *old(g),
                held(*old(g), *x).shape,
                self.conv@.len() as int,
            ),
        ensures
            final(g).wf(),
            ({
                let steps = feature_steps::<T, O>(
                    self.conv@,
                    old(g).nodes@.len(),
                    *x,
                    self.conv@.len() as int,
                );
                &&& runs(*old(g), *final(g), steps)
                &&& y == passed(old(g).nodes@.len(), steps.len() as int, *x)
            }),
            holds(*final(g), y),
            held(*final(g), y).shape == self.features(*old(g), held(*old(g), *x).shape),
    {
        let ghost before = *g;
        let ghost cs = self.conv@;
        let ghost s = held(*g, *x).shape;
        let ghost n = g.nodes@.len();
        let count: usize = self.conv.len();
        let mut value: Variable = *x;
        let mut i: usize = 0;
        proof {
            lemma_no_steps(before);
        }
        while i < count
            invariant
                i <= count,
                count == cs.len(),
                cs == self.conv@,
                n == before.nodes@.len(),
                features_take(cs, before, s, count as int),
                g.wf(),
                runs(before, *g, feature_steps::<T, O>(cs, n, *x, i as int)),
                value == passed(n, feature_steps::<T, O>(cs, n, *x, i as int).len() as int, *x),
                holds(*g, value),
                held(*g, value).shape == feature_shape(cs, before, s, i as int),
            decreases count - i,
        {
            let ghost mid = *g;
            let ghost done = feature_steps::<T, O>(cs, n, *x, i as int);
            let ghost shape = feature_shape(cs, before, s, i as int);
            let halves: bool = i == 1 || i == 3 || i == 6 || i == 9 || i == 12;
            proof {
                a_run_only_adds(before, mid, done);
                assert(stage_takes(cs[i as int], ends_block(i as int), before, shape));
                lemma_stage_unmoved(cs[i as int], halves, before, mid, shape);
            }
            let ghost from = value;
            value = stage(g, &self.conv[i], halves, &value);
            proof {
                let more = stage_steps::<T, O>(cs[i as int], halves, mid.nodes@.len(), from);
                lemma_runs_chain(before, mid, *g, done, more);
                assert(feature_steps::<T, O>(cs, n, *x, i + 1) == done + more);
            }
            i = i + 1;
        }
        value
    }

    /// Runs a fully connected layer and rectifies what it gives.
    fn run_dense<O: Op<T>>(g: &mut Graph<T, O>, layer: &Linear, x: &Variable) -> (y: Variable)
        requires
            old(g).wf(),
            holds(*old(g), *x),
            Model::<T, O>::takes(layer, *old(g), held(*old(g), *x).shape),
        ensures
            final(g).wf(),
            runs(
                *old(g),
                *final(g),
                seq![
                    linear_step::<T, O>(*layer, *x),
                    relu_step::<T, O>(nth(old(g).nodes@.len(), 0)),
                ],
            ),
            y == outcome_of(*old(g), 1),
            holds(*final(g), y),
            held(*final(g), y).shape == Model::<T, O>::gives(
                layer,
                *old(g),
                held(*old(g), *x).shape,
            ),
    {
        let ghost before = *g;
        let mut l: Linear = *layer;
        let a = Model::<T, O>::forward(&mut l, g, x);
        let ghost g1 = *g;
        let ghost one = seq![linear_step::<T, O>(*layer, *x)];
        let y = relu(g, &a);
        proof {
            lemma_apply(before, g1, *g, one, O::embed(Rule::ReLU), seq![a], y);
            assert(one.push(relu_step::<T, O>(a)) =~= seq![
                linear_step::<T, O>(*layer, *x),
                relu_step::<T, O>(nth(before.nodes@.len(), 0)),
            ]);
        }
        y
    }

    /// Runs what comes behind the first dropout.
    fn run_rest<O: Op<T>>(&self, g: &mut Graph<T, O>, x: &Variable, draws: &Tensor<T>) -> (y:
        Variable)
        requires
            old(g).wf(),
            holds(*old(g), *x),
            Model::<T, O>::takes(&self.fc7, *old(g), held(*old(g), *x).shape),
            Model::<T, O>::takes(
                &self.fc8,
                *old(g),
                Model::<T, O>::gives(&self.fc7, *old(g), held(*old(g), *x).shape),
            ),
            old(g).config.train ==> {
                &&& valid_ratio(self.dropout_ratio)
                &&& draws.wf()
                &&& draws@.shape == Model::<T, O>::gives(
                    &self.fc7,
                    *old(g),
                    held(*old(g), *x).shape,
                )
            },
        ensures
            final(g).wf(),
            self.rest_ran(*old(g), *final(g), *x, draws@, y),
            holds(*final(g), y),
            held(*final(g), y).shape == seq![
                held(*old(g), *x).shape[0],
                held(*old(g), self.fc8.weight.variable).shape[1],
            ],
    {
        let ghost g0 = *g;
        let ghost n = g.nodes@.len();
        let ghost hidden = Model::<T, O>::gives(&self.fc7, g0, held(g0, *x).shape);
        let a = Vgg16::run_dense(g, &self.fc7, x);
        let ghost g1 = *g;
        proof {
            a_run_only_adds(g0, g1, self.second_steps::<O>(n, *x));
            Model::<T, O>::unmoved(&self.fc8, g0, g1, hidden);
            lemma_joint_with_itself(hidden);
        }
        let d = dropout(g, &a, self.dropout_ratio, draws);
        let ghost g2 = *g;
        proof {
            assert(g2.extends(g1));
            assert(held(g2, d).shape =~= hidden);
            Model::<T, O>::unmoved(&self.fc8, g1, g2, hidden);
            lemma_extends(g0, g1, g2);
            assert(g2.nodes@[self.fc8.weight.variable.id as int]
                == g0.nodes@[self.fc8.weight.variable.id as int]);
        }
        let mut last: Linear = self.fc8;
        let y = Model::<T, O>::forward(&mut last, g, &d);
        proof {
            assert(dropped(g1, g2, outcome_of(g0, 1), self.dropout_ratio, draws@, d));
        }
        y
    }

    /// Runs the network on images, with uniform draws for the two dropouts.
    pub fn forward<O: Op<T>>(
        &self,
        g: &mut Graph<T, O>,
        x: &Variable,
        draws6: &Tensor<T>,
        draws7: &Tensor<T>,
    ) -> (y: Variable)
        requires
            old(g).wf(),
            holds(*old(g), *x),
            self.takes(*old(g), held(*old(g), *x).shape),
            old(g).config.train ==> {
                let s = held(*old(g), *x).shape;
                let flat = seq![s[0], flat_size(self.features(*old(g), s)) as usize];
                let hidden = Model::<T, O>::gives(&self.fc6, *old(g), flat);
                &&& valid_ratio(self.dropout_ratio)
                &&& draws6.wf() && draws6@.shape == hidden
                &&& draws7.wf() && draws7@.shape == Model::<T, O>::gives(
                    &self.fc7,
                    *old(g),
                    hidden,
                )
            },
        ensures
            final(g).wf(),
            self.ran(*old(g), *final(g), *x, draws6@, draws7@, y),
            holds(*final(g), y),
            held(*final(g), y).shape == seq![
                held(*old(g), *x).shape[0],
                held(*old(g), self.fc8.weight.variable).shape[1],
            ],
            is_classification(
                *old(g),
                *self,
                held(*old(g), *x),
                held(*final(g), y),
                draws6@,
                draws7@,
            ),
    {
        let ghost g0 = *g;
        let ghost s = held(g0, *x).shape;
        let ghost n = g.nodes@.len();
        let ghost f = self.features(g0, s);
        let ghost features = feature_steps::<T, O>(self.conv@, n, *x, self.conv@.len() as int);
        let batch: usize = match x.shape(g) {
            Some(shape) => shape[0],
            None => 0,
        };
        let h = self.run_features(g, x);
        let ghost g1 = *g;
        proof {
            a_run_only_adds(g0, g1, features);
            lemma_feature_batch(self.conv@, g0, s, self.conv@.len() as int);
            assert(g1.node_ok(h.id as int));
        }
        let flat: usize = flat_of(g, &h);
        let shape: [usize; 2] = [batch, flat];
        let ghost flat_shape = seq![s[0], flat_size(f) as usize];
        proof {
            assert(shape@ =~= flat_shape);
            assert(f =~= seq![f[0]] + f.skip(1));
            crate::data::lemma_leading_axis(f[0], f.skip(1));
            lemma_volume2(batch, flat);
        }
        let rows = reshape(g, &h, shape.as_slice());
        let ghost g2 = *g;
        let ghost steps2 = features.push(
            Step { rule: O::embed(Rule::Reshape { shape: flat_shape }), inputs: seq![h] },
        );
        proof {
            assert(flat_shape.len() != f.len());
            lemma_apply(
                g0,
                g1,
                g2,
                features,
                O::embed(Rule::Reshape { shape: flat_shape }),
                seq![h],
                rows,
            );
            Model::<T, O>::unmoved(&self.fc6, g0, g2, flat_shape);
        }
        let a = Vgg16::run_dense(g, &self.fc6, &rows);
        let ghost g3 = *g;
        let ghost first = self.first_steps(g0, *x);
        proof {
            let dense = seq![
                linear_step::<T, O>(self.fc6, rows),
                relu_step::<T, O>(nth(g2.nodes@.len(), 0)),
            ];
            lemma_runs_chain(g0, g2, g3, steps2, dense);
            a_run_only_adds(g0, g2, steps2);
            a_run_only_adds(g2, g3, dense);
            lemma_extends(g0, g2, g3);
            assert(steps2 + dense =~= first);
        }
        let ghost hidden = Model::<T, O>::gives(&self.fc6, g0, flat_shape);
        proof {
            lemma_joint_with_itself(hidden);
        }
        let d = dropout(g, &a, self.dropout_ratio, draws6);
        let ghost g4 = *g;
        proof {
            assert(g4.extends(g3));
            lemma_extends(g0, g3, g4);
            assert(held(g4, d).shape =~= hidden);
            Model::<T, O>::unmoved(&self.fc7, g0, g4, hidden);
            let second = Model::<T, O>::gives(&self.fc7, g0, hidden);
            Model::<T, O>::unmoved(&self.fc8, g0, g4, second);
            assert(g4.nodes@[self.fc8.weight.variable.id as int]
                == g0.nodes@[self.fc8.weight.variable.id as int]);
            assert(dropped(
                g3,
                g4,
                outcome_of(g0, first.len() - 1),
                self.dropout_ratio,
                draws6@,
                d,
            ));
        }
        let y = self.run_rest(g, &d, draws7);
        proof {
            a_classifier_goes_stage_by_stage(g0, *g, *self, *x, draws6@, draws7@, y);
        }
        y
    }
}

/// What a network has to be given before a run on images of one size: for each layer
/// the number of inputs that its weight has to be made for, or nothing where it is
/// there already.
pub struct Wanted {
    pub conv: Vec<Option<usize>>,
    pub dense: Vec<Option<usize>>,
}

impl<T: Scalar> Vgg16<T> {
    /// The number of channels that convolution `k` is handed.
    pub open spec fn channels_before(self, in_channels: usize, k: int) -> usize {
        if k == 0 {
            in_channels
        } else {
            self.conv@[k - 1].out_channels
        }
    }

    /// The number of inputs of fully connected layer `k`, for images of this size:
    /// five halvings are left of it behind the convolutions.
    pub open spec fn width_before(self, height: usize, width: usize, k: int) -> int {
        if k == 0 {
            self.conv@.last().out_channels * (height / 32) * (width / 32)
        } else {
            self.dense()[k - 1].out_size as int
        }
    }

    /// Tells which weights are wanting before a run on images of this size.
    #[must_use]
    pub fn wanted<O>(
        &self,
        g: &Graph<T, O>,
        in_channels: usize,
        height: usize,
        width: usize,
    ) -> (r: Wanted)
        requires
            self.conv@.len() > 0,
            forall|k: int| 0 <= k < self.conv@.len() ==> (#[trigger] self.conv@[k]).wf(*g),
            self.fc6.wf(*g) && self.fc7.wf(*g) && self.fc8.wf(*g),
            self.conv@.last().out_channels * (height / 32) <= usize::MAX,
            self.width_before(height, width, 0) <= usize::MAX,
        ensures
            r.conv@ == Seq::new(
                self.conv@.len(),
                |k: int|
                    if g.node(self.conv@[k].weight.variable).data is None {
                        Some(self.channels_before(in_channels, k))
                    } else {
                        None
                    },
            ),
            r.dense@ == Seq::new(
                3,
                |k: int|
                    if g.node(self.dense()[k].weight.variable).data is None {
                        Some(self.width_before(height, width, k) as usize)
                    } else {
                        None
                    },
            ),
    {
        let n: usize = self.conv.len();
        let mut conv: Vec<Option<usize>> = Vec::new();
        let mut channels: usize = in_channels;
        let mut i: usize = 0;
        while i < n
            invariant
                i <= n,
                n == self.conv@.len(),
                forall|k: int| 0 <= k < self.conv@.len() ==> (#[trigger] self.conv@[k]).wf(*g),
                channels == self.channels_before(in_channels, i as int),
                conv@.len() == i,
                forall|k: int|
                    0 <= k < i ==> #[trigger] conv@[k] == if g.node(
                        self.conv@[k].weight.variable,
                    ).data is None {
                        Some(self.channels_before(in_channels, k))
                    } else {
                        None
                    },
            decreases n - i,
        {
            let c: Conv2dLayer = self.conv[i];
            assert(self.conv@[i as int].wf(*g));
            if c.weight.variable.data(g).is_some() {
                conv.push(None);
            } else {
                conv.push(Some(channels));
            }
            channels = c.out_channels;
            i = i + 1;
        }
        let mut dense: Vec<Option<usize>> = Vec::new();
        let flat: usize = channels * (height / 32) * (width / 32);
        if self.fc6.weight.variable.data(g).is_some() {
            dense.push(None);
        } else {
            dense.push(Some(flat));
        }
        if self.fc7.weight.variable.data(g).is_some() {
            dense.push(None);
        } else {
            dense.push(Some(self.fc6.out_size));
        }
        if self.fc8.weight.variable.data(g).is_some() {
            dense.push(None);
        } else {
            dense.push(Some(self.fc7.out_size));
        }
        Wanted { conv, dense }
    }
}

/// Whether every convolution of a network keeps the size of its images, and their
/// number of channels follows on.
pub open spec fn standard<T: Scalar, O>(v: Vgg16<T>, g: Graph<T, O>, in_channels: usize) -> bool {
    &&& v.conv@.len() == 13
    &&& forall|k: int|
        0 <= k < 13 ==> {
            let c = #[trigger] v.conv@[k];
            &&& c.stride == (1usize, 1usize)
            &&& c.pad == (1usize, 1usize)
            &&& c.out_channels == channels()[k]
            &&& held(g, c.weight.variable).shape == seq![
                channels()[k],
                v.channels_before(in_channels, k),
                3,
                3,
            ]
        }
}

/// The size that is left of images of one size behind `k` convolutions.
pub open spec fn size_behind(k: int, size: usize) -> int {
    if k < 2 {
        size as int
    } else if k < 4 {
        size as int / 2
    } else if k < 7 {
        size as int / 4
    } else if k < 10 {
        size as int / 8
    } else if k < 13 {
        size as int / 16
    } else {
        size as int / 32
    }
}

proof fn lemma_keeps_size<T: Scalar, O: Op<T>>(
    c: Conv2dLayer,
    g: Graph<T, O>,
    s: Seq<usize>,
    out_channels: usize,
)
    requires
        s.len() == 4,
        s[2] > 0,
        s[3] > 0,
        c.stride == (1usize, 1usize),
        c.pad == (1usize, 1usize),
        held(g, c.weight.variable).shape == seq![out_channels, s[1], 3, 3],
    ensures
        Model::<T, O>::gives(&c, g, s) == seq![s[0], out_channels, s[2], s[3]],
{
    assert(conv_outsize(s[2] as int, 3, 1, 1) == s[2]);
    assert(conv_outsize(s[3] as int, 3, 1, 1) == s[3]);
    assert(Model::<T, O>::gives(&c, g, s) =~= seq![s[0], out_channels, s[2], s[3]]);
}

proof fn lemma_halves_size(s: Seq<usize>)
    requires
        s.len() == 4,
        s[2] >= 2,
        s[3] >= 2,
    ensures
        halved(s) == seq![s[0], s[1], (s[2] as int / 2) as usize, (s[3] as int / 2) as usize],
{
    reveal(halved);
    assert(conv_outsize(s[2] as int, 2, 2, 0) == s[2] as int / 2);
    assert(conv_outsize(s[3] as int, 2, 2, 0) == s[3] as int / 2);
    assert(halved(s) =~= seq![
        s[0],
        s[1],
        (s[2] as int / 2) as usize,
        (s[3] as int / 2) as usize,
    ]);
}

proof fn lemma_stage_size<T: Scalar, O: Op<T>>(
    c: Conv2dLayer,
    halves: bool,
    g: Graph<T, O>,
    s: Seq<usize>,
    out_channels: usize,
)
    requires
        s.len() == 4,
        s[2] >= 2,
        s[3] >= 2,
        c.stride == (1usize, 1usize),
        c.pad == (1usize, 1usize),
        held(g, c.weight.variable).shape == seq![out_channels, s[1], 3, 3],
    ensures
        stage_shape(c, halves, g, s) == if halves {
            seq![s[0], out_channels, (s[2] as int / 2) as usize, (s[3] as int / 2) as usize]
        } else {
            seq![s[0], out_channels, s[2], s[3]]
        },
{
    reveal(stage_shape);
    lemma_keeps_size(c, g, s, out_channels);
    if halves {
        lemma_halves_size(seq![s[0], out_channels, s[2], s[3]]);
    }
}

proof fn lemma_size_behind(k: int, size: usize)
    requires
        1 <= k <= 13,
        size >= 32,
    ensures
        size_behind(k - 1, size) >= 2,
        size_behind(k, size) == if ends_block(k - 1) {
            size_behind(k - 1, size) / 2
        } else {
            size_behind(k - 1, size)
        },
{
}

proof fn lemma_standard_shape<T: Scalar, O: Op<T>>(
    v: Vgg16<T>,
    g: Graph<T, O>,
    s: Seq<usize>,
    k: int,
)
    requires
        s.len() == 4,
        s[2] >= 32,
        s[3] >= 32,
        standard(v, g, s[1]),
        0 <= k <= 13,
    ensures
        feature_shape(v.conv@, g, s, k) == seq![
            s[0],
            v.channels_before(s[1], k),
            size_behind(k, s[2]) as usize,
            size_behind(k, s[3]) as usize,
        ],
    decreases k,
{
    if k == 0 {
        assert(s =~= seq![s[0], s[1], s[2], s[3]]);
    } else {
        lemma_standard_shape(v, g, s, k - 1);
        let before = feature_shape(v.conv@, g, s, k - 1);
        let c = v.conv@[k - 1];
        lemma_size_behind(k, s[2]);
        lemma_size_behind(k, s[3]);
        lemma_stage_size(c, ends_block(k - 1), g, before, channels()[k - 1]);
        assert(v.channels_before(s[1], k) == channels()[k - 1]);
    }
}

/// Behind the convolutions of a network as it is made, images are halved five times:
/// what the first fully connected layer is handed is as wide as its weight was asked
/// to be.
pub proof fn five_halvings_are_left<T: Scalar, O: Op<T>>(
    v: Vgg16<T>,
    g: Graph<T, O>,
    s: Seq<usize>,
)
    requires
        s.len() == 4,
        s[2] >= 32,
        s[3] >= 32,
        standard(v, g, s[1]),
    ensures
        v.features(g, s) == seq![
            s[0],
            512usize,
            (s[2] as int / 32) as usize,
            (s[3] as int / 32) as usize,
        ],
        flat_size(v.features(g, s)) == v.width_before(s[2], s[3], 0),
{
    lemma_standard_shape(v, g, s, 13);
    let f = v.features(g, s);
    let (c, h, w) = (f[1], f[2], f[3]);
    assert(f.skip(1) =~= seq![c] + seq![h, w]);
    crate::data::lemma_leading_axis(c, seq![h, w]);
    lemma_volume2(h, w);
    assert(v.conv@[12].out_channels == channels()[12]);
    assert(v.conv@.last() == v.conv@[12]);
    assert(c * (h * w) == c * h * w) by (nonlinear_arith);
}

} // verus!
