//! Elementwise functions of one variable.
use crate::engine::builtin::{apply_unary, derives, held, holds, Builtin};
use crate::engine::elementwise::{
    lemma_joint_absorbs, lemma_joint_with_itself, lemma_scalar_broadcasts, neg_spec, square_spec,
    zip_spec, zips, Arithmetic,
};
use crate::engine::function::{applied, Op};
use crate::engine::graph::{Graph, Variable};
use crate::engine::ops::{neg, scalar};
use crate::engine::rule::Rule;
use crate::engine::term::{binary, lemma_binary, lemma_constant, lemma_unary, means, unary, Term};
use crate::laws::gradients::{lemma_complement, lemma_zip, lemma_zip_single};
use crate::scalar::Scalar;
use crate::tensor::{copy_of, scalar_spec, Array, Tensor};
use crate::utils::shape::joint_shape;
use vstd::prelude::*;

verus! {

/// Squaring as an operation.
#[derive(Debug, Clone, Copy)]
pub struct Square;

/// Every element times itself.
pub fn square<T: Scalar, O: Op<T>>(g: &mut Graph<T, O>, x: &Variable) -> (r: Variable)
    requires
        old(g).wf(),
        holds(*old(g), *x),
    ensures
        applied(*old(g), *final(g), O::embed(Rule::Square), seq![*x], seq![r]),
        derives(*old(g), *final(g), r, square_spec(held(*old(g), *x))),
{
    apply_unary(g, Builtin::Square(Square), x)
}

/// The exponential as an operation.
#[derive(Debug, Clone, Copy)]
pub struct Exp;

/// The sine as an operation.
#[derive(Debug, Clone, Copy)]
pub struct Sin;

/// The cosine as an operation.
#[derive(Debug, Clone, Copy)]
pub struct Cos;

/// The hyperbolic tangent as an operation.
#[derive(Debug, Clone, Copy)]
pub struct Tanh;

/// Raising to a constant power as an operation.
#[derive(Debug)]
pub struct Pow<T> {
    pub exponent: T,
}

/// One minus every element.
pub open spec fn complement_spec<T: Scalar>(x: Array<T>) -> Array<T> {
    zip_spec(Arithmetic::Minus, scalar_spec(T::one_spec()), x)
}

/// Two variables of the same shape multiply without broadcasting.
pub proof fn lemma_same_shape<T, O>(g: Graph<T, O>, x: Variable, y: Variable)
    requires
        g.wf(),
        holds(g, x),
        holds(g, y),
        held(g, x).shape == held(g, y).shape,
    ensures
        zips(held(g, x).shape, held(g, y).shape),
        joint_shape(held(g, x).shape, held(g, y).shape) == held(g, x).shape,
        zips(Seq::empty(), held(g, x).shape),
        joint_shape(Seq::empty(), held(g, x).shape) == held(g, x).shape,
{
    assert(g.node_ok(x.id as int));
    lemma_joint_with_itself(held(g, x).shape);
    lemma_scalar_broadcasts(held(g, x).shape);
    lemma_joint_absorbs(held(g, x).shape, Seq::empty());
}

impl Exp {
    /// The gradient of the input, given the output `y`: `gy * y`.
    pub fn backward<T: Scalar, O: Op<T>>(
        &self,
        g: &mut Graph<T, O>,
        y: &Variable,
        gy: &Variable,
    ) -> (gx: Variable)
        requires
            old(g).wf(),
            holds(*old(g), *y),
            holds(*old(g), *gy),
            held(*old(g), *gy).shape == held(*old(g), *y).shape,
        ensures
            derives(
                *old(g),
                *final(g),
                gx,
                zip_spec(Arithmetic::Times, held(*old(g), *gy), held(*old(g), *y)),
            ),
            held(*final(g), gx).shape == held(*old(g), *y).shape,
            forall|k: int|
                0 <= k < held(*old(g), *y).data.len() ==> #[trigger] held(*final(g), gx).data[k]
                    == held(*old(g), *gy).data[k].times(held(*old(g), *y).data[k]),
            applied(*old(g), *final(g), O::embed(Rule::Mul), seq![*gy, *y], seq![gx]),
    {
        proof {
            assert(g.node_ok(y.id as int) && g.node_ok(gy.id as int));
            lemma_zip(Arithmetic::Times, held(*g, *gy), held(*g, *y));
            lemma_same_shape(*g, *gy, *y);
        }
        crate::engine::ops::mul(g, gy, y)
    }
}

impl Sin {
    /// The gradient of the input, given the cosine of the input: `gy * cos(x)`.
    pub fn backward<T: Scalar, O: Op<T>>(
        &self,
        g: &mut Graph<T, O>,
        cos_x: &Variable,
        gy: &Variable,
    ) -> (gx: Variable)
        requires
            old(g).wf(),
            holds(*old(g), *cos_x),
            holds(*old(g), *gy),
            held(*old(g), *gy).shape == held(*old(g), *cos_x).shape,
        ensures
            derives(
                *old(g),
                *final(g),
                gx,
                zip_spec(Arithmetic::Times, held(*old(g), *gy), held(*old(g), *cos_x)),
            ),
            held(*final(g), gx).shape == held(*old(g), *cos_x).shape,
            forall|k: int|
                0 <= k < held(*old(g), *cos_x).data.len() ==> #[trigger] held(*final(g), gx).data[k]
                    == held(*old(g), *gy).data[k].times(
                    held(*old(g), *cos_x).data[k],
                ),
            applied(*old(g), *final(g), O::embed(Rule::Mul), seq![*gy, *cos_x], seq![gx]),
    {
        proof {
            assert(g.node_ok(cos_x.id as int) && g.node_ok(gy.id as int));
            lemma_zip(Arithmetic::Times, held(*g, *gy), held(*g, *cos_x));
            lemma_same_shape(*g, *gy, *cos_x);
        }
        crate::engine::ops::mul(g, gy, cos_x)
    }
}

impl Cos {
    /// The gradient of the input, given the sine of the input: `gy * -sin(x)`.
    pub fn backward<T: Scalar, O: Op<T>>(
        &self,
        g: &mut Graph<T, O>,
        sin_x: &Variable,
        gy: &Variable,
    ) -> (gx: Variable)
        requires
            old(g).wf(),
            holds(*old(g), *sin_x),
            holds(*old(g), *gy),
            held(*old(g), *gy).shape == held(*old(g), *sin_x).shape,
        ensures
            derives(
                *old(g),
                *final(g),
                gx,
                zip_spec(Arithmetic::Times, held(*old(g), *gy), neg_spec(held(*old(g), *sin_x))),
            ),
            held(*final(g), gx).shape == held(*old(g), *sin_x).shape,
            forall|k: int|
                0 <= k < held(*old(g), *sin_x).data.len() ==> #[trigger] held(*final(g), gx).data[k]
                    == held(*old(g), *gy).data[k].times(
                    held(*old(g), *sin_x).data[k].negated(),
                ),
            old(g).config.enable_backprop ==> means(
                *final(g),
                gx,
                binary(Rule::Mul, Term::Given(*gy), unary(Rule::Neg, Term::Given(*sin_x))),
            ),
    {
        let ghost before = *g;
        proof {
            assert(g.node_ok(sin_x.id as int) && g.node_ok(gy.id as int));
            lemma_zip(Arithmetic::Times, held(*g, *gy), neg_spec(held(*g, *sin_x)));
        }
        let slope = neg(g, sin_x);
        let ghost mid = *g;
        proof {
            lemma_same_shape(*g, *gy, slope);
        }
        let gx = crate::engine::ops::mul(g, gy, &slope);
        proof {
            let (d, a) = (Term::Given(*gy), Term::Given(*sin_x));
            lemma_unary(before, mid, Rule::Neg, *sin_x, slope, a);
            lemma_binary(mid, *g, Rule::Mul, *gy, slope, gx, d, unary(Rule::Neg, a));
        }
        gx
    }
}

impl Tanh {
    /// The gradient of the input, given the output `y`: `gy * (1 - y * y)`.
    pub fn backward<T: Scalar, O: Op<T>>(
        &self,
        g: &mut Graph<T, O>,
        y: &Variable,
        gy: &Variable,
    ) -> (gx: Variable)
        requires
            old(g).wf(),
            holds(*old(g), *y),
            holds(*old(g), *gy),
            held(*old(g), *gy).shape == held(*old(g), *y).shape,
        ensures
            derives(
                *old(g),
                *final(g),
                gx,
                zip_spec(
                    Arithmetic::Times,
                    held(*old(g), *gy),
                    complement_spec(
                        zip_spec(Arithmetic::Times, held(*old(g), *y), held(*old(g), *y)),
                    ),
                ),
            ),
            held(*final(g), gx).shape == held(*old(g), *y).shape,
            forall|k: int|
                0 <= k < held(*old(g), *y).data.len() ==> #[trigger] held(*final(g), gx).data[k]
                    == held(*old(g), *gy).data[k].times(
                    T::one_spec().minus(
                        held(*old(g), *y).data[k].times(held(*old(g), *y).data[k]),
                    ),
                ),
            old(g).config.enable_backprop ==> means(
                *final(g),
                gx,
                binary(
                    Rule::Mul,
                    Term::Given(*gy),
                    binary(
                        Rule::Sub,
                        Term::Constant(scalar_spec(T::one_spec())),
                        binary(Rule::Mul, Term::Given(*y), Term::Given(*y)),
                    ),
                ),
            ),
    {
        let ghost g0 = *g;
        proof {
            let (ya, da) = (held(*g, *y), held(*g, *gy));
            assert(g.node_ok(y.id as int) && g.node_ok(gy.id as int));
            lemma_zip(Arithmetic::Times, ya, ya);
            let squares = zip_spec(Arithmetic::Times, ya, ya);
            lemma_complement(squares);
            lemma_zip(Arithmetic::Times, da, complement_spec(squares));
            lemma_same_shape(*g, *y, *y);
        }
        let squared = crate::engine::ops::mul(g, y, y);
        let ghost g1 = *g;
        let one = scalar(g, T::one());
        let ghost g2 = *g;
        proof {
            lemma_same_shape(*g, squared, squared);
        }
        let slope = crate::engine::ops::sub(g, &one, &squared);
        let ghost g3 = *g;
        proof {
            lemma_same_shape(*g, *gy, slope);
        }
        let gx = crate::engine::ops::mul(g, gy, &slope);
        proof {
            let (d, a) = (Term::Given(*gy), Term::Given(*y));
            let c = scalar_spec(T::one_spec());
            let ts = binary(Rule::Mul, a, a);
            let tn = binary(Rule::Sub, Term::Constant(c), ts);
            lemma_binary(g0, g1, Rule::Mul, *y, *y, squared, a, a);
            lemma_constant(g1, g2, one, c);
            lemma_binary(g2, g3, Rule::Sub, one, squared, slope, Term::Constant(c), ts);
            lemma_binary(g3, *g, Rule::Mul, *gy, slope, gx, d, tn);
        }
        gx
    }
}

impl<T: Scalar> Pow<T> {
    pub fn new(exponent: T) -> (r: Pow<T>)
        ensures
            r.exponent == exponent,
    {
        Pow { exponent }
    }

    /// The gradient of the input, given the input raised to one power less:
    /// `c * x^(c - 1) * gy`.
    pub fn backward<O: Op<T>>(&self, g: &mut Graph<T, O>, lower: &Variable, gy: &Variable) -> (gx:
        Variable)
        requires
            old(g).wf(),
            holds(*old(g), *lower),
            holds(*old(g), *gy),
            held(*old(g), *gy).shape == held(*old(g), *lower).shape,
        ensures
            derives(
                *old(g),
                *final(g),
                gx,
                zip_spec(
                    Arithmetic::Times,
                    zip_spec(
                        Arithmetic::Times,
                        scalar_spec(self.exponent),
                        held(*old(g), *lower),
                    ),
                    held(*old(g), *gy),
                ),
            ),
            held(*final(g), gx).shape == held(*old(g), *lower).shape,
            forall|k: int|
                0 <= k < held(*old(g), *lower).data.len() ==> #[trigger] held(*final(g), gx).data[k]
                    == self.exponent.times(held(*old(g), *lower).data[k]).times(
                    held(*old(g), *gy).data[k],
                ),
            old(g).config.enable_backprop ==> means(
                *final(g),
                gx,
                binary(
                    Rule::Mul,
                    binary(
                        Rule::Mul,
                        Term::Constant(scalar_spec(self.exponent)),
                        Term::Given(*lower),
                    ),
                    Term::Given(*gy),
                ),
            ),
    {
        let ghost g0 = *g;
        proof {
            let (la, da) = (held(*g, *lower), held(*g, *gy));
            assert(g.node_ok(lower.id as int) && g.node_ok(gy.id as int));
            lemma_zip_single(la, self.exponent);
            let scaled = zip_spec(Arithmetic::Times, scalar_spec(self.exponent), la);
            lemma_zip(Arithmetic::Times, scaled, da);
        }
        let c = scalar(g, self.exponent);
        let ghost g1 = *g;
        proof {
            lemma_same_shape(*g, *lower, *lower);
        }
        let slope = crate::engine::ops::mul(g, &c, lower);
        let ghost g2 = *g;
        proof {
            lemma_same_shape(*g, slope, *gy);
        }
        let gx = crate::engine::ops::mul(g, &slope, gy);
        proof {
            let (d, a) = (Term::Given(*gy), Term::Given(*lower));
            let e = Term::Constant(scalar_spec(self.exponent));
            lemma_constant(g0, g1, c, scalar_spec(self.exponent));
            lemma_binary(g1, g2, Rule::Mul, c, *lower, slope, e, a);
            lemma_binary(g2, *g, Rule::Mul, slope, *gy, gx, binary(Rule::Mul, e, a), d);
        }
        gx
    }
}

// ---------------------------------------------------------------------------
// functions given by the caller
// ---------------------------------------------------------------------------
/// What a function of one element makes of it.
pub open spec fn image<T, F: Fn(T) -> T>(f: F, x: T) -> T {
    choose|y: T| #[trigger] call_ensures(f, (x,), y)
}

/// Whether what `f` gives depends on its argument alone, and it takes any.
pub open spec fn is_function<T, F: Fn(T) -> T>(f: F) -> bool {
    &&& forall|x: T| #[trigger] call_requires(f, (x,))
    &&& forall|x: T, y: T| #[trigger] call_ensures(f, (x,), y) ==> y == image(f, x)
}

/// Every element put through `f`.
pub open spec fn map_spec<T, F: Fn(T) -> T>(x: Array<T>, f: F) -> Array<T> {
    Array { shape: x.shape, data: Seq::new(x.data.len(), |i: int| image(f, x.data[i])) }
}

/// Puts every element through `f`: the exponential, the sine, the cosine and the
/// hyperbolic tangent of an array, and its powers.
pub fn map_array<T: Scalar, F: Fn(T) -> T>(x: &Tensor<T>, f: &F) -> (r: Tensor<T>)
    requires
        x.wf(),
        is_function(*f),
    ensures
        r.wf(),
        r@ == map_spec(x@, *f),
{
    let n: usize = x.data.len();
    let mut data: Vec<T> = Vec::new();
    let mut i: usize = 0;
    while i < n
        invariant
            n == x.data@.len(),
            is_function(*f),
            i <= n,
            data@.len() == i,
            forall|j: int| 0 <= j < i ==> #[trigger] data@[j] == image(*f, x.data@[j]),
        decreases n - i,
    {
        let a: T = x.data[i];
        assert(call_requires(*f, (a,)));
        let y: T = f(a);
        assert(call_ensures(*f, (a,), y));
        data.push(y);
        i = i + 1;
    }
    let r = Tensor { shape: copy_of(x.shape.as_slice()), data };
    assert(r@ =~= map_spec(x@, *f));
    r
}

} // verus!
