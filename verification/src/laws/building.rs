//! What new layers and networks hold before anything is learnt.
use crate::engine::builtin::{held, holds};
use crate::engine::function::Op;
use crate::engine::graph::{Graph, Variable};
use crate::engine::parameter::Parameter;
use crate::layers::conv::Conv2dLayer;
use crate::layers::linear::{
    built, lemma_built_sizes, only_data, scaled_spec, weight_and_bias, Linear,
};
use crate::models::mlp::{chain_shape, Mlp};
use crate::models::vgg::{
    conv_built, convs_built, feature_shape, features_take, half, halved, stage_shape, Vgg16,
};
use crate::models::Model;
use crate::scalar::Scalar;
use crate::tensor::Array;
use crate::utils::array::lemma_volume1;
use vstd::prelude::*;

verus! {

/// A new layer has no weight yet, and a bias with a nought for every output.
pub proof fn a_new_bias_is_nought<T: Scalar, O>(
    before: Graph<T, O>,
    after: Graph<T, O>,
    weight: Parameter,
    bias: Parameter,
    out_size: usize,
)
    requires
        weight_and_bias(before, after, weight, bias, out_size),
    ensures
        weight != bias,
        after.has(weight.variable) && !before.has(weight.variable),
        after.has(bias.variable) && !before.has(bias.variable),
        after.node(weight.variable).data is None,
        holds(after, bias.variable),
        held(after, bias.variable).shape == seq![out_size],
        held(after, bias.variable).data.len() == out_size,
        forall|k: int|
            0 <= k < out_size ==> #[trigger] held(after, bias.variable).data[k] == T::zero_spec(),
{
    assert(after.nodes.len() == after.nodes@.len());
    lemma_volume1(out_size);
}

/// Filling in a weight makes every element the draw for it times the scale, and changes no
/// other variable.
pub proof fn initial_weights_are_draws_times_the_scale<T: Scalar, O>(
    before: Graph<T, O>,
    after: Graph<T, O>,
    v: Variable,
    draws: Array<T>,
    scale: T,
)
    requires
        before.has(v),
        only_data(before, after, v, scaled_spec(draws, scale)),
    ensures
        holds(after, v),
        held(after, v).shape == draws.shape,
        held(after, v).data.len() == draws.data.len(),
        forall|k: int|
            0 <= k < draws.data.len() ==> #[trigger] held(after, v).data[k] == draws.data[k].times(
                scale,
            ),
        after.nodes@.len() == before.nodes@.len(),
        forall|i: int|
            0 <= i < before.nodes@.len() && i != v.id ==> #[trigger] after.nodes@[i]
                == before.nodes@[i],
{
}

/// Filters of a layer are as high and as wide as its kernel says, so that the images that it
/// gives are as large as the windows that fit into the padded input are many.
pub proof fn filters_are_as_large_as_the_kernel<T: Scalar, O: Op<T>>(
    g: Graph<T, O>,
    c: Conv2dLayer,
    s: Seq<usize>,
)
    requires
        held(g, c.weight.variable).shape == c.filter_shape(s[1]),
        Model::<T, O>::takes(&c, g, s),
    ensures
        Model::<T, O>::gives(&c, g, s) == seq![
            s[0],
            c.out_channels,
            ((s[2] + 2 * c.pad.0 - c.kernel.0) / (c.stride.0 as int) + 1) as usize,
            ((s[3] + 2 * c.pad.1 - c.kernel.1) / (c.stride.1 as int) + 1) as usize,
        ],
{
}

/// Whether a convolution sees three by three at every place, with one place of nought
/// around the image, so that images keep their size.
pub open spec fn keeps_the_size(c: Conv2dLayer) -> bool {
    &&& c.kernel == (3usize, 3usize)
    &&& c.stride == (1usize, 1usize)
    &&& c.pad == (1usize, 1usize)
}

proof fn lemma_convolutions<T: Scalar, O>(
    before: Graph<T, O>,
    after: Graph<T, O>,
    cs: Seq<Conv2dLayer>,
    k: int,
)
    requires
        0 <= k < cs.len() <= 13,
        convs_built(before, after, cs),
    ensures
        after.wf(),
        keeps_the_size(cs[k]),
        cs[k].bias is Some,
        cs[k].out_channels == if k < 2 {
            64
        } else if k < 4 {
            128
        } else if k < 7 {
            256
        } else {
            512usize
        },
    decreases cs.len(),
{
    let mid = choose|mid: Graph<T, O>|
        convs_built(before, mid, cs.drop_last()) && #[trigger] conv_built(
            mid,
            after,
            cs.last(),
            crate::models::vgg::channels()[cs.len() - 1],
        );
    if k < cs.len() - 1 {
        lemma_convolutions(before, mid, cs.drop_last(), k);
    }
}

/// The image classifier has thirteen convolutions, each of which keeps the size of its
/// images: two of 64 channels, two of 128, three of 256 and six of 512. Behind them come
/// layers of 4096, 4096 and as many outputs as there are classes. The ratio of what is
/// dropped is one over two.
pub proof fn a_classifier_is_laid_out<T: Scalar, O>(
    before: Graph<T, O>,
    mid: Graph<T, O>,
    after: Graph<T, O>,
    net: Vgg16<T>,
    classes: usize,
    k: int,
)
    requires
        net.conv@.len() == 13,
        convs_built(before, mid, net.conv@),
        built(mid, after, net.dense(), seq![4096, 4096, classes]),
        net.dropout_ratio == half::<T>(),
        0 <= k < 13,
    ensures
        keeps_the_size(net.conv@[k]),
        net.conv@[k].bias is Some,
        net.conv@[k].out_channels == if k < 2 {
            64
        } else if k < 4 {
            128
        } else if k < 7 {
            256
        } else {
            512usize
        },
        net.fc6.out_size == 4096,
        net.fc7.out_size == 4096,
        net.fc8.out_size == classes,
        net.dropout_ratio == T::one_spec().over(T::count_spec(2)),
{
    lemma_convolutions(before, mid, net.conv@, k);
    lemma_built_sizes(mid, after, net.dense(), seq![4096, 4096, classes]);
    let ls: Seq<Linear> = net.dense();
    assert(ls[0].out_size == 4096 && ls[1].out_size == 4096 && ls[2].out_size == classes);
}

/// A perceptron wants for each layer a weight as wide as what reaches the layer in a run. `g`
/// is the graph in which it is asked, and `h` one in which the weights are there: those that
/// it had, and those that were wanting, each with the outputs of its layer.
pub proof fn layers_want_the_width_that_reaches_them<T: Scalar, O: Op<T>, A: Fn() -> O>(
    g: Graph<T, O>,
    h: Graph<T, O>,
    net: Mlp<A>,
    batch: usize,
    in_size: usize,
    k: int,
)
    requires
        0 <= k <= net.layers@.len(),
        forall|j: int|
            0 <= j < net.layers@.len() ==> held(
                h,
                (#[trigger] net.layers@[j]).weight.variable,
            ).shape[1] == match g.array(net.layers@[j].weight.variable) {
                Some(w) => w.shape[1],
                None => net.layers@[j].out_size,
            },
    ensures
        chain_shape(net.layers@, h, seq![batch, in_size], k) == seq![
            batch,
            net.width_before(g, in_size, k),
        ],
    decreases k,
{
    if k > 0 {
        layers_want_the_width_that_reaches_them(g, h, net, batch, in_size, k - 1);
        assert(held(h, net.layers@[k - 1].weight.variable).shape[1] == net.width_before(
            g,
            in_size,
            k,
        ));
    }
}

/// The image classifier wants for each convolution filters for as many channels as the
/// images have that reach it.
pub proof fn convolutions_want_the_channels_that_reach_them<T: Scalar, O: Op<T>>(
    g: Graph<T, O>,
    net: Vgg16<T>,
    s: Seq<usize>,
    k: int,
)
    requires
        0 <= k <= net.conv@.len(),
        s.len() == 4,
        features_take(net.conv@, g, s, k),
        forall|j: int|
            0 <= j < net.conv@.len() ==> held(
                g,
                (#[trigger] net.conv@[j]).weight.variable,
            ).shape[0] == net.conv@[j].out_channels,
    ensures
        feature_shape(net.conv@, g, s, k)[1] == net.channels_before(s[1], k),
{
    reveal(stage_shape);
    reveal(halved);
    if k > 0 {
        assert(held(g, net.conv@[k - 1].weight.variable).shape[0]
            == net.conv@[k - 1].out_channels);
    }
}

} // verus!
