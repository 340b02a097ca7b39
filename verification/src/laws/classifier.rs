//! The image classifier, stage by stage.
use crate::engine::builtin::{held, holds};
use crate::engine::function::Op;
use crate::engine::graph::{Graph, Variable};
use crate::engine::rule::Rule;
use crate::engine::trace::{a_run_only_adds, lemma_extends, outcome_of, runs, Step};
use crate::laws::dropout::{is_dropped_out, lemma_masked};
use crate::laws::elements::{is_affine, is_matrix, is_rectified, rectifying_keeps_what_is_positive};
use crate::laws::images::{is_convolved, is_pooled, pooling_picks_the_greatest};
use crate::laws::layers::{
    bias_of, conv_bias_of, lemma_conv_step, lemma_linear_step, lemma_step_value, lemma_still_held,
    lemma_whole, weight_of, whole,
};
use crate::laws::networks::lemma_cut;
use crate::layers::conv::Conv2dLayer;
use crate::layers::linear::Linear;
use crate::layers::rnn::{linear_step, nth};
use crate::models::mlp::passed;
use crate::models::vgg::{
    conv_step, dropped, ends_block, feature_shape, feature_steps, features_take, flat_size, halved,
    lemma_feature_batch, lemma_stage_unmoved, pool_step, relu_step, stage_shape, stage_steps,
    stage_takes, Vgg16,
};
use crate::models::Model;
use crate::scalar::Scalar;
use crate::tensor::Array;
use vstd::prelude::*;

verus! {

// ---------------------------------------------------------------------------
// words
// ---------------------------------------------------------------------------
/// Whether `y` is what a stage makes of `x`: the convolution, rectified, and, where images
/// are halved, the greatest of every two by two.
pub open spec fn is_stage<T: Scalar, O>(
    g: Graph<T, O>,
    y: Array<T>,
    x: Array<T>,
    c: Conv2dLayer,
    halves: bool,
) -> bool {
    exists|a: Array<T>, r: Array<T>|
        {
            &&& is_convolved(
                a,
                x,
                held(g, c.weight.variable),
                conv_bias_of(g, c),
                c.stride,
                c.pad,
            )
            &&& #[trigger] is_rectified(r, a)
            &&& if halves {
                is_pooled(y, r, (2usize, 2usize), (2usize, 2usize), (0usize, 0usize))
            } else {
                y == r
            }
        }
}

/// Whether each of `vs` but the first is what a stage makes of the one before. Images are
/// halved behind the second, fourth, seventh, tenth and thirteenth convolution.
pub open spec fn are_stages<T: Scalar, O>(
    g: Graph<T, O>,
    cs: Seq<Conv2dLayer>,
    vs: Seq<Array<T>>,
) -> bool {
    &&& vs.len() == cs.len() + 1
    &&& forall|k: int|
        0 <= k < cs.len() ==> is_stage(
            g,
            vs[k + 1],
            vs[k],
            #[trigger] cs[k],
            k == 1 || k == 3 || k == 6 || k == 9 || k == 12,
        )
}

/// Whether `y` is the affine map of `x`, rectified.
pub open spec fn is_dense<T: Scalar, O>(
    g: Graph<T, O>,
    y: Array<T>,
    x: Array<T>,
    l: Linear,
) -> bool {
    exists|a: Array<T>|
        is_affine(a, x, weight_of(g, l), bias_of(g, l)) && #[trigger] is_rectified(y, a)
}

/// Whether `y` is `x` after dropout while training, and `x` itself otherwise.
pub open spec fn is_dropped_in_training<T: Scalar>(
    train: bool,
    y: Array<T>,
    x: Array<T>,
    draws: Array<T>,
    ratio: T,
) -> bool {
    if train {
        is_dropped_out(y, x, draws, ratio)
    } else {
        y == x
    }
}

/// Whether `y` is what a classifier makes of images whose features are `f`: they are laid
/// out in a row each, and go through three fully connected layers, the first two rectified
/// and followed by dropout.
pub open spec fn is_classified<T: Scalar, O>(
    g: Graph<T, O>,
    net: Vgg16<T>,
    y: Array<T>,
    f: Array<T>,
    draws6: Array<T>,
    draws7: Array<T>,
    flat: Array<T>,
    h6: Array<T>,
    d6: Array<T>,
    h7: Array<T>,
    d7: Array<T>,
) -> bool {
    &&& flat.data == f.data
    &&& is_matrix(flat, f.shape[0] as int, flat.shape[1] as int)
    &&& is_dense(g, h6, flat, net.fc6)
    &&& is_dropped_in_training(g.config.train, d6, h6, draws6, net.dropout_ratio)
    &&& is_dense(g, h7, d6, net.fc7)
    &&& is_dropped_in_training(g.config.train, d7, h7, draws7, net.dropout_ratio)
    &&& is_affine(y, d7, weight_of(g, net.fc8), bias_of(g, net.fc8))
}

/// Whether `y` is what a classifier makes of the images `x`: stage by stage, and then through
/// its fully connected layers.
pub open spec fn is_classification<T: Scalar, O>(
    g: Graph<T, O>,
    net: Vgg16<T>,
    x: Array<T>,
    y: Array<T>,
    draws6: Array<T>,
    draws7: Array<T>,
) -> bool {
    exists|
        vs: Seq<Array<T>>,
        flat: Array<T>,
        h6: Array<T>,
        d6: Array<T>,
        h7: Array<T>,
        d7: Array<T>,
    |
        {
            &&& #[trigger] are_stages(g, net.conv@, vs)
            &&& vs[0] == x
            &&& #[trigger] is_classified(
                g,
                net,
                y,
                vs[net.conv@.len() as int],
                draws6,
                draws7,
                flat,
                h6,
                d6,
                h7,
                d7,
            )
        }
}

// ---------------------------------------------------------------------------
// laws
// ---------------------------------------------------------------------------
/// The weights of a layer are the same in a graph that grew.
proof fn lemma_same_weights<T, O>(before: Graph<T, O>, after: Graph<T, O>, l: Linear)
    requires
        after.extends(before),
        holds(before, l.weight.variable),
        l.bias matches Some(b) ==> holds(before, b.variable),
    ensures
        weight_of(after, l) == weight_of(before, l),
        bias_of(after, l) == bias_of(before, l),
{
    lemma_still_held(before, after, l.weight.variable);
    if let Some(b) = l.bias {
        lemma_still_held(before, after, b.variable);
    }
}

/// The last variable that a stage adds holds what a stage makes of its input.
#[verifier::spinoff_prover]
#[verifier::rlimit(40)]
proof fn lemma_stage<T: Scalar, O: Op<T>>(
    before: Graph<T, O>,
    after: Graph<T, O>,
    c: Conv2dLayer,
    halves: bool,
    x: Variable,
)
    requires
        whole(after),
        holds(before, x),
        stage_takes(c, halves, before, held(before, x).shape),
        runs(before, after, stage_steps::<T, O>(c, halves, before.nodes@.len(), x)),
    ensures
        ({
            let steps = stage_steps::<T, O>(c, halves, before.nodes@.len(), x);
            let y = outcome_of(before, steps.len() - 1);
            &&& holds(after, y)
            &&& held(after, y).shape == stage_shape(c, halves, before, held(before, x).shape)
            &&& is_stage(before, held(after, y), held(before, x), c, halves)
        }),
{
    reveal(stage_takes);
    reveal(stage_shape);
    reveal(halved);
    let n = before.nodes@.len();
    let steps = stage_steps::<T, O>(c, halves, n, x);
    a_run_only_adds(before, after, steps);
    lemma_whole(before, after);
    assert(after.nodes.len() == after.nodes@.len());
    assert(steps[0] == conv_step::<T, O>(c, x));
    lemma_conv_step(before, after, steps, 0, c, x);
    let va = outcome_of(before, 0);
    let a = held(after, va);
    assert(va == nth(n, 0));
    assert(steps[1] == relu_step::<T, O>(va));
    lemma_step_value(before, after, steps, 1, Rule::ReLU, seq![va]);
    assert(after.arrays(seq![va]) =~= seq![a]);
    let vr = outcome_of(before, 1);
    let r = held(after, vr);
    rectifying_keeps_what_is_positive(a);
    assert(is_rectified(r, a));
    if halves {
        assert(vr == nth(n, 1));
        assert(steps[2] == pool_step::<T, O>(vr));
        let pool = Rule::Pooling {
            kernel: (2usize, 2usize),
            stride: (2usize, 2usize),
            pad: (0usize, 0usize),
            winners: Seq::empty(),
        };
        lemma_step_value(before, after, steps, 2, pool, seq![vr]);
        assert(after.arrays(seq![vr]) =~= seq![r]);
        pooling_picks_the_greatest(r, (2usize, 2usize), (2usize, 2usize), (0usize, 0usize));
    }
}

/// What the first `k` stages make of an image.
proof fn lemma_stages<T: Scalar, O: Op<T>>(
    before: Graph<T, O>,
    after: Graph<T, O>,
    cs: Seq<Conv2dLayer>,
    x: Variable,
    k: int,
) -> (vs: Seq<Array<T>>)
    requires
        whole(after),
        holds(before, x),
        0 <= k <= cs.len(),
        features_take(cs, before, held(before, x).shape, k),
        runs(before, after, feature_steps::<T, O>(cs, before.nodes@.len(), x, k)),
    ensures
        are_stages(before, cs.take(k), vs),
        vs[0] == held(before, x),
        ({
            let n = before.nodes@.len();
            let last = passed(n, feature_steps::<T, O>(cs, n, x, k).len() as int, x);
            &&& holds(after, last)
            &&& vs[k] == held(after, last)
            &&& vs[k].shape == feature_shape(cs, before, held(before, x).shape, k)
        }),
    decreases k,
{
    let n = before.nodes@.len();
    let s = held(before, x).shape;
    if k == 0 {
        seq![held(before, x)]
    } else {
        let done = feature_steps::<T, O>(cs, n, x, k - 1);
        let from = passed(n, done.len() as int, x);
        let (c, halves) = (cs[k - 1], ends_block(k - 1));
        let more = stage_steps::<T, O>(c, halves, n + done.len(), from);
        let mid = lemma_cut(before, after, done, more);
        a_run_only_adds(before, mid, done);
        a_run_only_adds(mid, after, more);
        a_run_only_adds(before, after, done + more);
        lemma_whole(mid, after);
        let vs = lemma_stages(before, mid, cs, x, k - 1);
        let shape = feature_shape(cs, before, s, k - 1);
        assert(stage_takes(c, halves, before, shape));
        lemma_stage_unmoved(c, halves, before, mid, shape);
        lemma_stage(mid, after, c, halves, from);
        assert(after.nodes.len() == after.nodes@.len());
        let last = outcome_of(mid, more.len() - 1);
        assert(last == passed(n, (done + more).len() as int, x));
        let ws = vs.push(held(after, last));
        reveal(stage_takes);
        lemma_still_held(before, mid, c.weight.variable);
        if let Some(b) = c.bias {
            lemma_still_held(before, mid, b.variable);
        }
        assert(is_stage(before, held(after, last), held(mid, from), c, halves));
        let all = cs.take(k);
        assert forall|j: int| 0 <= j < all.len() implies is_stage(
            before,
            ws[j + 1],
            ws[j],
            #[trigger] all[j],
            j == 1 || j == 3 || j == 6 || j == 9 || j == 12,
        ) by {
            if j < k - 1 {
                assert(cs.take(k - 1)[j] == all[j]);
            }
        }
        ws
    }
}

/// What a rectified fully connected layer makes of its input.
proof fn lemma_dense<T: Scalar, O: Op<T>>(
    before: Graph<T, O>,
    after: Graph<T, O>,
    l: Linear,
    x: Variable,
)
    requires
        whole(after),
        holds(before, x),
        Model::<T, O>::takes(&l, before, held(before, x).shape),
        runs(
            before,
            after,
            seq![linear_step::<T, O>(l, x), relu_step::<T, O>(nth(before.nodes@.len(), 0))],
        ),
    ensures
        holds(after, outcome_of(before, 1)),
        is_dense(before, held(after, outcome_of(before, 1)), held(before, x), l),
        held(after, outcome_of(before, 1)).shape == Model::<T, O>::gives(
            &l,
            before,
            held(before, x).shape,
        ),
{
    let n = before.nodes@.len();
    let steps = seq![linear_step::<T, O>(l, x), relu_step::<T, O>(nth(n, 0))];
    a_run_only_adds(before, after, steps);
    assert(after.nodes.len() == after.nodes@.len());
    lemma_still_held(before, after, x);
    lemma_linear_step(before, after, steps, 0, l, x);
    let va = outcome_of(before, 0);
    let a = held(after, va);
    assert(va == nth(n, 0));
    lemma_step_value(before, after, steps, 1, Rule::ReLU, seq![va]);
    assert(after.arrays(seq![va]) =~= seq![a]);
    rectifying_keeps_what_is_positive(a);
    assert(is_rectified(held(after, outcome_of(before, 1)), a));
}

/// What dropout makes of its input in a network.
proof fn lemma_dropped<T: Scalar, O: Op<T>>(
    before: Graph<T, O>,
    after: Graph<T, O>,
    x: Variable,
    ratio: T,
    draws: Array<T>,
    r: Variable,
)
    requires
        holds(before, x),
        held(before, x).wf(),
        before.config.train ==> draws.wf() && draws.shape == held(before, x).shape,
        dropped(before, after, x, ratio, draws, r),
    ensures
        after.extends(before),
        holds(after, r),
        held(after, r).shape == held(before, x).shape,
        is_dropped_in_training(
            before.config.train,
            held(after, r),
            held(before, x),
            draws,
            ratio,
        ),
{
    if before.config.train {
        lemma_masked(before, after, x, ratio, draws, r);
    }
}

/// A classifier convolves, rectifies and halves its images stage by stage, and then hands
/// them through its fully connected layers.
#[verifier::spinoff_prover]
#[verifier::rlimit(60)]
pub proof fn a_classifier_goes_stage_by_stage<T: Scalar, O: Op<T>>(
    before: Graph<T, O>,
    after: Graph<T, O>,
    net: Vgg16<T>,
    x: Variable,
    draws6: Array<T>,
    draws7: Array<T>,
    y: Variable,
)
    requires
        before.wf(),
        after.wf(),
        holds(before, x),
        net.takes(before, held(before, x).shape),
        before.config.train ==> {
            let s = held(before, x).shape;
            let flat = seq![s[0], flat_size(net.features(before, s)) as usize];
            let hidden = Model::<T, O>::gives(&net.fc6, before, flat);
            &&& draws6.wf() && draws6.shape == hidden
            &&& draws7.wf() && draws7.shape == Model::<T, O>::gives(&net.fc7, before, hidden)
        },
        net.ran(before, after, x, draws6, draws7, y),
    ensures
        holds(after, y),
        is_classification(before, net, held(before, x), held(after, y), draws6, draws7),
{
    let n = before.nodes@.len();
    let s = held(before, x).shape;
    let cs = net.conv@;
    let count = cs.len() as int;
    let first = net.first_steps(before, x);
    let (m1, m2, d) = choose|m1: Graph<T, O>, m2: Graph<T, O>, d: Variable|
        {
            &&& runs(before, m1, first)
            &&& #[trigger] dropped(
                m1,
                m2,
                outcome_of(before, first.len() - 1),
                net.dropout_ratio,
                draws6,
                d,
            )
            &&& net.rest_ran(m2, after, d, draws7, y)
        };
    let (m3, m4, e) = choose|m3: Graph<T, O>, m4: Graph<T, O>, e: Variable|
        {
            &&& runs(m2, m3, net.second_steps::<O>(m2.nodes@.len(), d))
            &&& #[trigger] dropped(m3, m4, outcome_of(m2, 1), net.dropout_ratio, draws7, e)
            &&& runs(m4, after, seq![linear_step::<T, O>(net.fc8, e)])
            &&& y == outcome_of(m4, 0)
        };
    // the graphs grow one out of the other
    let last = seq![linear_step::<T, O>(net.fc8, e)];
    let second = net.second_steps::<O>(m2.nodes@.len(), d);
    a_run_only_adds(before, m1, first);
    a_run_only_adds(m2, m3, second);
    a_run_only_adds(m4, after, last);
    lemma_dropped_extends(m1, m2, outcome_of(before, first.len() - 1), net.dropout_ratio, draws6, d);
    lemma_dropped_extends(m3, m4, outcome_of(m2, 1), net.dropout_ratio, draws7, e);
    lemma_extends(m3, m4, after);
    lemma_extends(m2, m3, after);
    lemma_extends(m1, m2, after);
    lemma_extends(before, m1, m2);
    lemma_extends(before, m2, m3);
    lemma_extends(before, m3, m4);
    lemma_whole(m4, after);
    lemma_whole(m3, after);
    lemma_whole(m2, after);
    lemma_whole(m1, after);
    // the convolutions
    let features = feature_steps::<T, O>(cs, n, x, count);
    let m = n + features.len();
    let flat_shape = seq![s[0], flat_size(net.features(before, s)) as usize];
    let h = passed(n, features.len() as int, x);
    let tail = seq![
        Step { rule: O::embed(Rule::Reshape { shape: flat_shape }), inputs: seq![h] },
        linear_step::<T, O>(net.fc6, nth(m, 0)),
        relu_step::<T, O>(nth(m, 1)),
    ];
    assert(first =~= features + tail);
    let mf = lemma_cut(before, m1, features, tail);
    a_run_only_adds(before, mf, features);
    a_run_only_adds(mf, m1, tail);
    lemma_whole(mf, m1);
    let vs = lemma_stages(before, mf, cs, x, count);
    assert(cs.take(count) =~= cs);
    lemma_feature_batch(cs, before, s, count);
    let f = vs[count];
    // the row of each image, and the first fully connected layer
    let (lay, dense) = (tail.take(1), tail.skip(1));
    assert(lay + dense =~= tail);
    let mr = lemma_cut(mf, m1, lay, dense);
    a_run_only_adds(mf, mr, lay);
    a_run_only_adds(mr, m1, dense);
    assert(m1.nodes.len() == m1.nodes@.len());
    lemma_whole(mr, m1);
    lemma_extends(before, mf, mr);
    lemma_step_value(mf, mr, lay, 0, Rule::Reshape { shape: flat_shape }, seq![h]);
    lemma_still_held(mf, mr, h);
    assert(mr.arrays(seq![h]) =~= seq![f]);
    let vf = outcome_of(mf, 0);
    let flat = held(mr, vf);
    assert(flat.shape == flat_shape && flat.data == f.data);
    assert(flat.wf());
    crate::utils::conv::lemma_volume2(flat_shape[0], flat_shape[1]);
    assert(vf == nth(m, 0));
    assert(dense =~= seq![
        linear_step::<T, O>(net.fc6, vf),
        relu_step::<T, O>(nth(mr.nodes@.len(), 0)),
    ]);
    Model::<T, O>::unmoved(&net.fc6, before, mr, flat_shape);
    lemma_dense(mr, m1, net.fc6, vf);
    lemma_same_weights(before, mr, net.fc6);
    let v6 = outcome_of(mr, 1);
    assert(v6 == outcome_of(before, first.len() - 1));
    let h6 = held(m1, v6);
    let hidden = Model::<T, O>::gives(&net.fc6, before, flat_shape);
    assert(h6.shape == hidden);
    lemma_dropped(m1, m2, v6, net.dropout_ratio, draws6, d);
    let d6 = held(m2, d);
    // the second one
    Model::<T, O>::unmoved(&net.fc7, before, m2, hidden);
    assert(second =~= seq![
        linear_step::<T, O>(net.fc7, d),
        relu_step::<T, O>(nth(m2.nodes@.len(), 0)),
    ]);
    lemma_dense(m2, m3, net.fc7, d);
    lemma_same_weights(before, m2, net.fc7);
    let v7 = outcome_of(m2, 1);
    let h7 = held(m3, v7);
    let next = Model::<T, O>::gives(&net.fc7, before, hidden);
    assert(h7.shape == next);
    lemma_dropped(m3, m4, v7, net.dropout_ratio, draws7, e);
    let d7 = held(m4, e);
    // the last one
    Model::<T, O>::unmoved(&net.fc8, before, m4, next);
    lemma_still_held(m4, after, e);
    lemma_linear_step(m4, after, last, 0, net.fc8, e);
    lemma_same_weights(before, m4, net.fc8);
    assert(is_classified(
        before,
        net,
        held(after, y),
        vs[count],
        draws6,
        draws7,
        flat,
        h6,
        d6,
        h7,
        d7,
    ));
    assert(are_stages(before, cs, vs));
}

/// Dropout only adds to a graph.
proof fn lemma_dropped_extends<T: Scalar, O: Op<T>>(
    before: Graph<T, O>,
    after: Graph<T, O>,
    x: Variable,
    ratio: T,
    draws: Array<T>,
    r: Variable,
)
    requires
        dropped(before, after, x, ratio, draws, r),
    ensures
        after.extends(before),
{
    if before.config.train {
        let scaled = crate::functions::activation::scaled_mask_spec(
            crate::functions::activation::mask_spec(draws, ratio),
            ratio,
        );
        let m = Variable { id: before.nodes@.len() as usize };
        let mid = choose|mid: Graph<T, O>|
            {
                &&& #[trigger] crate::engine::graph::one_more(before, mid, m)
                &&& mid.array(m) == Some(scaled)
                &&& crate::engine::function::applied(
                    mid,
                    after,
                    O::embed(Rule::Mul),
                    seq![x, m],
                    seq![r],
                )
            };
        lemma_extends(before, mid, after);
    }
}

} // verus!
