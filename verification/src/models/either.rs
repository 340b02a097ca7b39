//! Pipelines of more than one kind of layer.

use vstd::prelude::*;

use crate::engine::function::Op;
use crate::engine::graph::{Graph, Variable};
use crate::engine::parameter::Parameter;
use crate::engine::trace::Step;
use crate::layers::{Layer, ParamTree, Tree};
use crate::models::Model;
use crate::scalar::Scalar;

verus! {

/// A layer of one kind or of another, so that one pipeline can hold both.
pub enum Either<L, R> {
    Left(L),
    Right(R),
}

impl<L: Layer, R: Layer> Layer for Either<L, R> {
    open spec fn tree_spec(&self) -> Tree {
        match self {
            Either::Left(l) => l.tree_spec(),
            Either::Right(r) => r.tree_spec(),
        }
    }

    fn own_params(&self) -> (r: Vec<Parameter>) {
        match self {
            Either::Left(l) => l.own_params(),
            Either::Right(r) => r.own_params(),
        }
    }

    fn sublayers(&self) -> (r: Vec<ParamTree>) {
        match self {
            Either::Left(l) => l.sublayers(),
            Either::Right(r) => r.sublayers(),
        }
    }
}

impl<T: Scalar, O: Op<T>, L: Model<T, O>, R: Model<T, O>> Model<T, O> for Either<L, R> {
    open spec fn takes(&self, g: Graph<T, O>, s: Seq<usize>) -> bool {
        match self {
            Either::Left(l) => l.takes(g, s),
            Either::Right(r) => r.takes(g, s),
        }
    }

    open spec fn gives(&self, g: Graph<T, O>, s: Seq<usize>) -> Seq<usize> {
        match self {
            Either::Left(l) => l.gives(g, s),
            Either::Right(r) => r.gives(g, s),
        }
    }

    open spec fn steps(&self, n: nat, x: Variable) -> Seq<Step<O::Rule>> {
        match self {
            Either::Left(l) => l.steps(n, x),
            Either::Right(r) => r.steps(n, x),
        }
    }

    proof fn unmoved(&self, before: Graph<T, O>, after: Graph<T, O>, s: Seq<usize>) {
        match self {
            Either::Left(l) => l.unmoved(before, after, s),
            Either::Right(r) => r.unmoved(before, after, s),
        }
    }

    fn forward(&mut self, g: &mut Graph<T, O>, x: &Variable) -> (y: Variable) {
        match self {
            Either::Left(l) => l.forward(g, x),
            Either::Right(r) => r.forward(g, x),
        }
    }
}

} // verus!
