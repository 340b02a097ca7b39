//! Operations that move elements without changing them.
use crate::engine::builtin::{apply_unary, derives, held, holds, Builtin};
use crate::engine::function::{applied, Op};
use crate::engine::graph::{Graph, Variable};
use crate::engine::rule::Rule;
use crate::index::volume;
use crate::scalar::Scalar;
use crate::tensor::{copy_of, reshape_spec, same, transpose_spec};
use vstd::prelude::*;

verus! {

/// Reshaping as an operation.
#[derive(Debug)]
pub struct Reshape {
    pub shape: Vec<usize>,
}

impl Reshape {
    pub fn new(shape: &[usize]) -> (r: Reshape)
        ensures
            r.shape@ == shape@,
    {
        Reshape { shape: copy_of(shape) }
    }
}

/// Reversing the axes as an operation.
#[derive(Debug, Clone, Copy)]
pub struct Transpose;

/// Whether a variable holds an array of this shape.
pub fn has_shape<T, O>(g: &Graph<T, O>, x: &Variable, shape: &[usize]) -> (r: bool)
    requires
        g.has(*x),
    ensures
        r == (g.array(*x).is_some() && held(*g, *x).shape == shape@),
{
    match &g.nodes[x.id].data {
        Some(t) => same(t.shape.as_slice(), shape),
        None => false,
    }
}

/// The same elements under another shape; the variable itself where the shape is the
/// one it has.
pub fn reshape<T: Scalar, O: Op<T>>(g: &mut Graph<T, O>, x: &Variable, shape: &[usize]) -> (r:
    Variable)
    requires
        old(g).wf(),
        holds(*old(g), *x),
        volume(shape@) == volume(held(*old(g), *x).shape),
    ensures
        derives(*old(g), *final(g), r, reshape_spec(held(*old(g), *x), shape@)),
        held(*old(g), *x).shape == shape@ ==> r == *x && *final(g) == *old(g),
        held(*old(g), *x).shape != shape@ ==> applied(
            *old(g),
            *final(g),
            O::embed(Rule::Reshape { shape: shape@ }),
            seq![*x],
            seq![r],
        ),
{
    if has_shape(g, x, shape) {
        proof {
            assert(reshape_spec(held(*g, *x), shape@) =~= held(*g, *x));
        }
        return *x;
    }
    apply_unary(g, Builtin::Reshape(Reshape::new(shape)), x)
}

/// The axes in reverse order.
pub fn transpose<T: Scalar, O: Op<T>>(g: &mut Graph<T, O>, x: &Variable) -> (r: Variable)
    requires
        old(g).wf(),
        holds(*old(g), *x),
    ensures
        applied(*old(g), *final(g), O::embed(Rule::Transpose), seq![*x], seq![r]),
        derives(*old(g), *final(g), r, transpose_spec(held(*old(g), *x))),
{
    apply_unary(g, Builtin::Transpose(Transpose), x)
}

impl Variable {
    /// [`reshape`] as a method.
    pub fn reshape<T: Scalar, O: Op<T>>(&self, g: &mut Graph<T, O>, shape: &[usize]) -> (r:
        Variable)
        requires
            old(g).wf(),
            holds(*old(g), *self),
            volume(shape@) == volume(held(*old(g), *self).shape),
        ensures
            derives(*old(g), *final(g), r, reshape_spec(held(*old(g), *self), shape@)),
            held(*old(g), *self).shape == shape@ ==> r == *self && *final(g) == *old(g),
            held(*old(g), *self).shape != shape@ ==> applied(
                *old(g),
                *final(g),
                O::embed(Rule::Reshape { shape: shape@ }),
                seq![*self],
                seq![r],
            ),
    {
        reshape(g, self, shape)
    }

    /// [`transpose`] as a method.
    pub fn transpose<T: Scalar, O: Op<T>>(&self, g: &mut Graph<T, O>) -> (r: Variable)
        requires
            old(g).wf(),
            holds(*old(g), *self),
        ensures
            applied(*old(g), *final(g), O::embed(Rule::Transpose), seq![*self], seq![r]),
            derives(*old(g), *final(g), r, transpose_spec(held(*old(g), *self))),
    {
        transpose(g, self)
    }

    /// [`transpose`] under its short name.
    pub fn t<T: Scalar, O: Op<T>>(&self, g: &mut Graph<T, O>) -> (r: Variable)
        requires
            old(g).wf(),
            holds(*old(g), *self),
        ensures
            applied(*old(g), *final(g), O::embed(Rule::Transpose), seq![*self], seq![r]),
            derives(*old(g), *final(g), r, transpose_spec(held(*old(g), *self))),
    {
        transpose(g, self)
    }
}

} // verus!
