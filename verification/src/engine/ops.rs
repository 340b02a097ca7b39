//! Arithmetic on variables.
use crate::engine::builtin::{apply_binary, apply_unary, derives, held, holds, Builtin};
use crate::engine::elementwise::{neg_spec, zip_spec, zips, Arithmetic};
use crate::engine::function::{applied, Op};
use crate::engine::graph::{Graph, Variable};
use crate::engine::rule::Rule;
use crate::scalar::Scalar;
use vstd::prelude::*;

verus! {

/// Addition as an operation.
#[derive(Debug, Clone, Copy)]
pub struct Add;

/// The sum of two variables, broadcast together.
pub fn add<T: Scalar, O: Op<T>>(g: &mut Graph<T, O>, x0: &Variable, x1: &Variable) -> (r: Variable)
    requires
        old(g).wf(),
        holds(*old(g), *x0),
        holds(*old(g), *x1),
        zips(held(*old(g), *x0).shape, held(*old(g), *x1).shape),
    ensures
        applied(*old(g), *final(g), O::embed(Rule::Add), seq![*x0, *x1], seq![r]),
        derives(
            *old(g),
            *final(g),
            r,
            zip_spec(Arithmetic::Plus, held(*old(g), *x0), held(*old(g), *x1)),
        ),
{
    apply_binary(g, Builtin::Add(Add), x0, x1)
}

/// Subtraction as an operation.
#[derive(Debug, Clone, Copy)]
pub struct Sub;

/// The difference of two variables, broadcast together.
pub fn sub<T: Scalar, O: Op<T>>(g: &mut Graph<T, O>, x0: &Variable, x1: &Variable) -> (r: Variable)
    requires
        old(g).wf(),
        holds(*old(g), *x0),
        holds(*old(g), *x1),
        zips(held(*old(g), *x0).shape, held(*old(g), *x1).shape),
    ensures
        applied(*old(g), *final(g), O::embed(Rule::Sub), seq![*x0, *x1], seq![r]),
        derives(
            *old(g),
            *final(g),
            r,
            zip_spec(Arithmetic::Minus, held(*old(g), *x0), held(*old(g), *x1)),
        ),
{
    apply_binary(g, Builtin::Sub(Sub), x0, x1)
}

/// Multiplication as an operation.
#[derive(Debug, Clone, Copy)]
pub struct Mul;

/// The product of two variables, broadcast together.
pub fn mul<T: Scalar, O: Op<T>>(g: &mut Graph<T, O>, x0: &Variable, x1: &Variable) -> (r: Variable)
    requires
        old(g).wf(),
        holds(*old(g), *x0),
        holds(*old(g), *x1),
        zips(held(*old(g), *x0).shape, held(*old(g), *x1).shape),
    ensures
        applied(*old(g), *final(g), O::embed(Rule::Mul), seq![*x0, *x1], seq![r]),
        derives(
            *old(g),
            *final(g),
            r,
            zip_spec(Arithmetic::Times, held(*old(g), *x0), held(*old(g), *x1)),
        ),
{
    apply_binary(g, Builtin::Mul(Mul), x0, x1)
}

/// Division as an operation.
#[derive(Debug, Clone, Copy)]
pub struct Div;

/// The quotient of two variables, broadcast together.
pub fn div<T: Scalar, O: Op<T>>(g: &mut Graph<T, O>, x0: &Variable, x1: &Variable) -> (r: Variable)
    requires
        old(g).wf(),
        holds(*old(g), *x0),
        holds(*old(g), *x1),
        zips(held(*old(g), *x0).shape, held(*old(g), *x1).shape),
    ensures
        applied(*old(g), *final(g), O::embed(Rule::Div), seq![*x0, *x1], seq![r]),
        derives(
            *old(g),
            *final(g),
            r,
            zip_spec(Arithmetic::Over, held(*old(g), *x0), held(*old(g), *x1)),
        ),
{
    apply_binary(g, Builtin::Div(Div), x0, x1)
}

/// Negation as an operation.
#[derive(Debug, Clone, Copy)]
pub struct Neg;

/// A variable negated.
pub fn neg<T: Scalar, O: Op<T>>(g: &mut Graph<T, O>, x: &Variable) -> (r: Variable)
    requires
        old(g).wf(),
        holds(*old(g), *x),
    ensures
        applied(*old(g), *final(g), O::embed(Rule::Neg), seq![*x], seq![r]),
        derives(*old(g), *final(g), r, neg_spec(held(*old(g), *x))),
{
    apply_unary(g, Builtin::Neg(Neg), x)
}

/// A variable without axes that holds `value`.
pub fn scalar<T: Scalar, O>(g: &mut Graph<T, O>, value: T) -> (r: Variable)
    requires
        old(g).wf(),
    ensures
        derives(*old(g), *final(g), r, crate::tensor::scalar_spec(value)),
        final(g).node(r).creator is None,
        final(g).calls@.len() == old(g).calls@.len(),
{
    Variable::from_scalar(g, value)
}

} // verus!
