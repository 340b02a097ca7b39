//! Convolution layers.

use vstd::prelude::*;

use crate::engine::builtin::held;
use crate::engine::function::Op;
use crate::engine::graph::{Graph, Variable};
use crate::engine::parameter::Parameter;
use crate::engine::rule::Rule;
use crate::engine::trace::{lemma_no_steps, lemma_one_step_more, outcome_of, Step};
use crate::functions::conv::{
    apply_conv, conv2d_fits, conv2d_shape, conv2d_spec, conv_patches, Conv2d,
};
use crate::laws::images::is_convolved;
use crate::laws::layers::{a_convolution_layer_weighs_windows, conv_bias_of};
use crate::layers::linear::{
    bias_shape, filled, list_weights, make_weight_and_bias, only_data, scaled, scaled_spec,
    weight_and_bias, weights, weights_hold, with_input,
};
use crate::layers::{Layer, ParamTree, Tree};
use crate::models::Model;
use crate::scalar::Scalar;
use crate::tensor::{permuted, Array, Tensor};
use crate::utils::conv::{channels_first, pair, spells, Pair};

verus! {

/// A convolution layer: its input convolved with filters, plus a bias.
#[derive(Debug, Clone, Copy, PartialEq, Eq)]
pub struct Conv2dLayer {
    pub weight: Parameter,
    pub bias: Option<Parameter>,
    pub in_channels: Option<usize>,
    pub out_channels: usize,
    pub kernel: (usize, usize),
    pub stride: (usize, usize),
    pub pad: (usize, usize),
}

impl Conv2dLayer {
    /// The parameters belong to the graph, and are two.
    pub open spec fn wf<T, O>(self, g: Graph<T, O>) -> bool {
        &&& g.has(self.weight.variable)
        &&& self.bias matches Some(b) ==> g.has(b.variable)
        &&& self.bias matches Some(b) ==> b != self.weight
    }

    /// A layer whose filters are sized by its first input.
    #[must_use]
    pub fn new<T: Scalar, O, K: Into<Pair>, S: Into<Pair>, P: Into<Pair>>(
        g: &mut Graph<T, O>,
        out_channels: usize,
        kernel: K,
        stride: S,
        pad: P,
    ) -> (r: Conv2dLayer)
        requires
            old(g).wf(),
        ensures
            r.bias is Some,
            weight_and_bias(*old(g), *final(g), r.weight, r.bias->0, out_channels),
            r.in_channels is None,
            r.out_channels == out_channels,
            spells(kernel, r.kernel),
            spells(stride, r.stride),
            spells(pad, r.pad),
            r.wf(*final(g)),
    {
        let (weight, bias) = make_weight_and_bias(g, out_channels);
        Conv2dLayer {
            weight,
            bias: Some(bias),
            in_channels: None,
            out_channels,
            kernel: pair(kernel),
            stride: pair(stride),
            pad: pair(pad),
        }
    }

    /// The same layer without its bias.
    #[must_use]
    pub fn without_bias(self) -> (r: Conv2dLayer)
        ensures
            r == (Conv2dLayer { bias: None, ..self }),
    {
        Conv2dLayer {
            weight: self.weight,
            bias: None,
            in_channels: self.in_channels,
            out_channels: self.out_channels,
            kernel: self.kernel,
            stride: self.stride,
            pad: self.pad,
        }
    }

    /// The filters.
    #[must_use]
    pub fn weight(&self) -> (r: &Parameter)
        ensures
            *r == self.weight,
    {
        &self.weight
    }

    /// The bias, where there is one.
    #[must_use]
    pub fn bias(&self) -> (r: Option<&Parameter>)
        ensures
            r is Some <==> self.bias is Some,
            r matches Some(b) ==> self.bias == Some(*b),
    {
        self.bias.as_ref()
    }

    /// The number of input channels, once the filters have been sized.
    #[must_use]
    pub fn in_channels(&self) -> (r: Option<usize>)
        ensures
            r == self.in_channels,
    {
        self.in_channels
    }

    /// The number of output channels.
    #[must_use]
    pub fn out_channels(&self) -> (r: usize)
        ensures
            r == self.out_channels,
    {
        self.out_channels
    }

    /// The shape of filters for so many input channels.
    pub open spec fn filter_shape(self, in_channels: usize) -> Seq<usize> {
        seq![self.out_channels, in_channels, self.kernel.0, self.kernel.1]
    }

    /// How many inputs feed each output: the receptive field over all the input channels.
    #[must_use]
    pub fn fan_in(&self, in_channels: usize) -> (r: usize)
        requires
            in_channels * self.kernel.0 * self.kernel.1 <= usize::MAX,
        ensures
            r == in_channels * self.kernel.0 * self.kernel.1,
    {
        let (height, width) = self.kernel;
        if in_channels == 0 || height == 0 || width == 0 {
            assert(in_channels * height * width == 0) by (nonlinear_arith)
                requires
                    in_channels == 0 || height == 0 || width == 0,
            ;
            return 0;
        }
        assert(in_channels * height <= in_channels * height * width) by (nonlinear_arith)
            requires
                width > 0,
                in_channels * height >= 0,
        ;
        in_channels * height * width
    }

    /// How many input channels the filters have to be made for before the layer can
    /// be run on images of `in_channels`; nothing where they are there already.
    #[must_use]
    pub fn wanted<T, O>(&self, g: &Graph<T, O>, in_channels: usize) -> (r: Option<usize>)
        requires
            self.wf(*g),
        ensures
            r == if g.node(self.weight.variable).data is None {
                Some(in_channels)
            } else {
                None
            },
    {
        if self.weight.variable.data(g).is_some() {
            None
        } else {
            Some(in_channels)
        }
    }

    /// Fills in the filters: `draws` scaled, so that the spread of the outputs does
    /// not depend on the size of the receptive field.
    pub fn init_weight<T: Scalar, O>(
        &mut self,
        g: &mut Graph<T, O>,
        in_channels: usize,
        draws: &Tensor<T>,
        scale: T,
    )
        requires
            old(g).wf(),
            old(self).wf(*old(g)),
            in_channels > 0,
            draws.wf(),
            draws@.shape == old(self).filter_shape(in_channels),
        ensures
            final(g).wf(),
            only_data(*old(g), *final(g), old(self).weight.variable, scaled_spec(draws@, scale)),
            *final(self) == (Conv2dLayer { in_channels: Some(in_channels), ..*old(self) }),
            final(self).wf(*final(g)),
    {
        let w = scaled(draws, scale);
        let ghost t = w;
        self.weight.variable.set_data(g, w);
        assert(filled(*old(g), *g, self.weight.variable, t));
        self.in_channels = Some(in_channels);
    }

    /// A layer whose filters are there at once.
    #[must_use]
    pub fn with_in_channels<T: Scalar, O, K: Into<Pair>, S: Into<Pair>, P: Into<Pair>>(
        g: &mut Graph<T, O>,
        in_channels: usize,
        out_channels: usize,
        kernel: K,
        stride: S,
        pad: P,
        draws: &Tensor<T>,
        scale: T,
    ) -> (r: Conv2dLayer)
        requires
            old(g).wf(),
            in_channels > 0,
            draws.wf(),
            forall|k: (usize, usize)| #[trigger]
                spells(kernel, k) ==> draws@.shape == seq![out_channels, in_channels, k.0, k.1],
        ensures
            final(g).wf(),
            r.wf(*final(g)),
            r.bias is Some,
            r.in_channels == Some(in_channels),
            r.out_channels == out_channels,
            spells(kernel, r.kernel),
            spells(stride, r.stride),
            spells(pad, r.pad),
            exists|mid: Graph<T, O>|
                weight_and_bias(*old(g), mid, r.weight, r.bias->0, out_channels)
                    && #[trigger] only_data(
                    mid,
                    *final(g),
                    r.weight.variable,
                    scaled_spec(draws@, scale),
                ),
    {
        let mut r = Conv2dLayer::new(g, out_channels, kernel, stride, pad);
        let ghost mid = *g;
        r.init_weight(g, in_channels, draws, scale);
        proof {
            assert(weight_and_bias(*old(g), mid, r.weight, r.bias->0, out_channels));
        }
        r
    }
}

impl Layer for Conv2dLayer {
    open spec fn tree_spec(&self) -> Tree {
        Tree { own: weights(self.weight, self.bias), children: Seq::empty() }
    }

    fn own_params(&self) -> (r: Vec<Parameter>) {
        list_weights(&self.weight, &self.bias)
    }

    fn sublayers(&self) -> (r: Vec<ParamTree>) {
        Vec::new()
    }
}

proof fn lemma_conv_shape<T: Scalar>(
    x: Array<T>,
    w: Array<T>,
    b: Option<Array<T>>,
    stride: (usize, usize),
    pad: (usize, usize),
)
    ensures
        conv2d_spec(x, w, b, stride, pad).shape == conv2d_shape(x.shape, w.shape, stride, pad),
{
    let p = conv_patches(x.shape, w.shape, stride, pad);
    assert(permuted(seq![p.batch, p.out_h, p.out_w, w.shape[0]], channels_first())
        =~= conv2d_shape(x.shape, w.shape, stride, pad));
}

impl<T: Scalar, O: Op<T>> Model<T, O> for Conv2dLayer {
    open spec fn takes(&self, g: Graph<T, O>, s: Seq<usize>) -> bool {
        &&& weights_hold(g, self.weight, self.bias)
        &&& conv2d_fits(
            s,
            held(g, self.weight.variable).shape,
            bias_shape(g, self.bias),
            self.stride,
            self.pad,
        )
    }

    open spec fn gives(&self, g: Graph<T, O>, s: Seq<usize>) -> Seq<usize> {
        conv2d_shape(s, held(g, self.weight.variable).shape, self.stride, self.pad)
    }

    open spec fn steps(&self, n: nat, x: Variable) -> Seq<Step<O::Rule>> {
        seq![
            Step {
                rule: O::embed(Rule::Conv2d { stride: self.stride, pad: self.pad }),
                inputs: with_input(x, self.weight, self.bias),
            },
        ]
    }

    proof fn unmoved(&self, before: Graph<T, O>, after: Graph<T, O>, s: Seq<usize>) {
        assert(after.nodes@[self.weight.variable.id as int]
            == before.nodes@[self.weight.variable.id as int]);
        if let Some(b) = self.bias {
            assert(after.nodes@[b.variable.id as int] == before.nodes@[b.variable.id as int]);
        }
    }

    fn forward(&mut self, g: &mut Graph<T, O>, x: &Variable) -> (y: Variable)
        ensures
            *final(self) == *old(self),
            is_convolved(
                held(*final(g), y),
                held(*old(g), *x),
                held(*old(g), old(self).weight.variable),
                conv_bias_of(*old(g), *old(self)),
                old(self).stride,
                old(self).pad,
            ),
    {
        let ghost before = *g;
        let w: Variable = self.weight.variable;
        let op = Conv2d { stride: self.stride, pad: self.pad };
        let y = match self.bias {
            Some(b) => {
                let b: Variable = b.variable;
                apply_conv(g, op, x, &w, Some(&b))
            },
            None => apply_conv(g, op, x, &w, None),
        };
        proof {
            let b = match self.bias {
                Some(b) => Some(held(before, b.variable)),
                None => None,
            };
            lemma_conv_shape(held(before, *x), held(before, w), b, self.stride, self.pad);
            let step = Step {
                rule: O::embed(Rule::Conv2d { stride: self.stride, pad: self.pad }),
                inputs: with_input(*x, self.weight, self.bias),
            };
            lemma_no_steps(before);
            assert(before.all_hold(step.inputs));
            assert(seq![y][0] == y);
            assert(seq![outcome_of(before, 0)] =~= seq![y]);
            lemma_one_step_more(before, before, *g, Seq::empty(), step);
            assert(Seq::<Step<O::Rule>>::empty().push(step) =~= seq![step]);
            a_convolution_layer_weighs_windows(before, *g, *self, *x, y);
        }
        y
    }
}

} // verus!
