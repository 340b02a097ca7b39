//! Networks: what can be run on a variable.

pub mod either;
pub mod mlp;
pub mod vgg;

use vstd::prelude::*;

use crate::engine::builtin::{held, holds};
use crate::engine::function::Op;
use crate::engine::graph::{Graph, Variable};
use crate::engine::trace::{outcome_of, runs, Step};
use crate::layers::Layer;
use crate::scalar::Scalar;

verus! {

/// What a run gives back: the variable of its last step, or what went in.
pub open spec fn result_of<T, O>(before: Graph<T, O>, steps: int, x: Variable) -> Variable {
    if steps == 0 {
        x
    } else {
        outcome_of(before, steps - 1)
    }
}

/// A layer that can be run on a variable.
///
/// Its parameters hold data by then: a layer that sizes itself by its first input
/// says beforehand which weights are wanting.
pub trait Model<T: Scalar, O: Op<T>>: Layer {
    /// Whether the layer can be run on an input of this shape.
    spec fn takes(&self, g: Graph<T, O>, s: Seq<usize>) -> bool;

    /// The shape that it makes of it.
    spec fn gives(&self, g: Graph<T, O>, s: Seq<usize>) -> Seq<usize>;

    /// The operations that a run consists of, in a graph of `n` variables.
    spec fn steps(&self, n: nat, x: Variable) -> Seq<Step<O::Rule>>;

    /// A graph that only grows changes nothing of it.
    proof fn unmoved(&self, before: Graph<T, O>, after: Graph<T, O>, s: Seq<usize>)
        requires
            self.takes(before, s),
            after.extends(before),
        ensures
            self.takes(after, s),
            self.gives(after, s) == self.gives(before, s),
    ;

    /// Runs the layer.
    fn forward(&mut self, g: &mut Graph<T, O>, x: &Variable) -> (y: Variable)
        requires
            old(g).wf(),
            holds(*old(g), *x),
            old(self).takes(*old(g), held(*old(g), *x).shape),
        ensures
            final(g).wf(),
            runs(*old(g), *final(g), old(self).steps(old(g).nodes@.len(), *x)),
            y == result_of(*old(g), old(self).steps(old(g).nodes@.len(), *x).len() as int, *x),
            holds(*final(g), y),
            held(*final(g), y).shape == old(self).gives(*old(g), held(*old(g), *x).shape),
            final(self).tree_spec() == old(self).tree_spec(),
    ;
}

} // verus!
