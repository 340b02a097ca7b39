//! Plain gradient descent.

use vstd::prelude::*;

use crate::engine::graph::Graph;
use crate::engine::parameter::Parameter;
use crate::laws::training::{a_step_goes_against_the_gradient, differs_only_at, is_against};
use crate::optim::{
    data_and_grad, lemma_set_array, same_shapes, snapshot, Hook, Optimizer, Snapshot,
};
use crate::scalar::Scalar;
use crate::tensor::{copy_of, Array, Tensor};

verus! {

/// Gradient descent: each parameter moves against its gradient.
#[derive(Debug)]
pub struct Sgd<T, H> {
    pub params: Vec<Parameter>,
    pub hooks: Vec<H>,
    pub learning_rate: T,
}

/// A parameter moved against its gradient.
pub open spec fn descended<T: Scalar>(data: Array<T>, grad: Array<T>, rate: T) -> Array<T> {
    Array {
        shape: data.shape,
        data: Seq::new(
            data.data.len(),
            |i: int| data.data[i].minus(grad.data[i].times(rate)),
        ),
    }
}

/// What a step of one parameter makes of the arrays: nothing where it has no data, or
/// no gradient that has.
pub open spec fn descent<T: Scalar>(s: Snapshot<T>, p: Parameter, rate: T) -> Snapshot<T> {
    if s.data(p) is Some && s.grad(p) is Some {
        s.with_array(p.variable, descended(s.data(p)->0, s.grad(p)->0, rate))
    } else {
        s
    }
}

fn descended_tensor<T: Scalar>(data: &Tensor<T>, grad: &Tensor<T>, rate: T) -> (r: Tensor<T>)
    requires
        grad.wf(),
        data.wf(),
        grad@.shape == data@.shape,
    ensures
        r.wf(),
        r@ == descended(data@, grad@, rate),
{
    let n: usize = data.data.len();
    let mut out: Vec<T> = Vec::new();
    let mut i: usize = 0;
    while i < n
        invariant
            n == grad.data@.len(),
            n == data.data@.len(),
            i <= n,
            out@.len() == i,
            forall|j: int|
                0 <= j < i ==> #[trigger] out@[j] == data.data@[j].minus(grad.data@[j].times(rate)),
        decreases n - i,
    {
        out.push(data.data[i].sub(grad.data[i].mul(rate)));
        i = i + 1;
    }
    let r = Tensor { shape: copy_of(data.shape.as_slice()), data: out };
    assert(r@ =~= descended(data@, grad@, rate));
    r
}

impl<T: Scalar, H> Sgd<T, H> {
    /// A descent that is responsible for nothing yet.
    #[must_use]
    pub fn new(learning_rate: T) -> (r: Sgd<T, H>)
        ensures
            r.params@.len() == 0,
            r.hooks@.len() == 0,
            r.learning_rate == learning_rate,
    {
        Sgd { params: Vec::new(), hooks: Vec::new(), learning_rate }
    }

    /// How far a step goes.
    #[must_use]
    pub fn learning_rate(&self) -> (r: T)
        ensures
            r == self.learning_rate,
    {
        self.learning_rate
    }

    /// Changes how far a step goes.
    pub fn set_learning_rate(&mut self, learning_rate: T)
        ensures
            *final(self) == (Sgd { learning_rate, ..*old(self) }),
    {
        self.learning_rate = learning_rate;
    }
}

/// A step keeps every array's shape, and every parameter's fit to its gradient.
pub proof fn lemma_step_shapes<T>(s: Snapshot<T>, p: Parameter, x: Array<T>, q: Parameter)
    requires
        p.variable.id < s.arrays.len(),
        s.data(p) matches Some(was) && was.shape == x.shape,
        s.fits(q),
        q.variable.id < s.arrays.len(),
        s.grads[q.variable.id as int] matches Some(w) ==> w.id < s.arrays.len(),
    ensures
        same_shapes(s, s.with_array(p.variable, x)),
        s.with_array(p.variable, x).fits(q),
{
}

impl<T: Scalar, O, H: Hook<T, O>> Optimizer<T, O, H> for Sgd<T, H> {
    open spec fn registered(&self) -> Seq<Parameter> {
        self.params@
    }

    open spec fn hook_list(&self) -> Seq<H> {
        self.hooks@
    }

    open spec fn can_step(&self, s: Snapshot<T>, p: Parameter) -> bool {
        s.fits(p)
    }

    open spec fn stepped(
        &self,
        after: Self,
        before: Snapshot<T>,
        now: Snapshot<T>,
        p: Parameter,
    ) -> bool {
        after == *self && now == descent(before, p, self.learning_rate)
    }

    proof fn shapes_decide(&self, a: Snapshot<T>, b: Snapshot<T>, p: Parameter) {
    }

    fn params(&self) -> (r: &[Parameter]) {
        self.params.as_slice()
    }

    fn set_params(&mut self, params: Vec<Parameter>) {
        self.params = params;
    }

    fn hooks(&self) -> (r: &[H]) {
        self.hooks.as_slice()
    }

    fn add_hook(&mut self, hook: H) {
        self.hooks.push(hook);
    }

    fn clear_hooks(&mut self) {
        self.hooks = Vec::new();
    }

    fn update_one(&mut self, g: &mut Graph<T, O>, param: &Parameter)
        ensures
            *final(self) == *old(self),
            match (snapshot(*old(g)).data(*param), snapshot(*old(g)).grad(*param)) {
                (Some(x), Some(d)) => {
                    &&& differs_only_at(snapshot(*old(g)), snapshot(*final(g)), seq![*param])
                    &&& snapshot(*final(g)).data(*param) is Some
                    &&& is_against(
                        snapshot(*final(g)).data(*param)->0,
                        x,
                        d,
                        old(self).learning_rate,
                    )
                },
                _ => snapshot(*final(g)) == snapshot(*old(g)),
            },
    {
        let ghost start = *g;
        let ghost s = snapshot(*g);
        let p: Parameter = *param;
        assert(g.nodes.len() == g.nodes@.len());
        let fresh: Option<Tensor<T>> = match data_and_grad(g, &p) {
            Some((data, grad, _)) => Some(descended_tensor(data, grad, self.learning_rate)),
            None => None,
        };
        if let Some(t) = fresh {
            let ghost tensor = t;
            p.variable.set_data(g, t);
            proof {
                lemma_set_array(start, *g, p.variable, tensor);
                assert forall|q: Parameter|
                    q.variable.id < start.nodes@.len() && #[trigger] Optimizer::<T, O, H>::can_step(
                        old(self),
                        s,
                        q,
                    ) implies Optimizer::<T, O, H>::can_step(self, snapshot(*g), q) by {
                    assert(start.node_ok(q.variable.id as int));
                    lemma_step_shapes(s, p, tensor@, q);
                }
                assert(start.node_ok(p.variable.id as int));
                lemma_step_shapes(s, p, tensor@, p);
            }
        }
        proof {
            if s.data(p) is Some && s.grad(p) is Some {
                a_step_goes_against_the_gradient::<T, O, H>(
                    *old(self),
                    *self,
                    s,
                    snapshot(*g),
                    p,
                    s.data(p)->0,
                    s.grad(p)->0,
                );
            }
        }
    }
}

/// What steps of the first `k` parameters make of the arrays.
pub open spec fn descents<T: Scalar>(
    s: Snapshot<T>,
    ps: Seq<Parameter>,
    rate: T,
    k: int,
) -> Snapshot<T>
    decreases k,
{
    if k <= 0 {
        s
    } else {
        descent(descents(s, ps, rate, k - 1), ps[k - 1], rate)
    }
}

/// What an update does is a function of what was there: without a hook, each parameter
/// with a gradient moves against it once, in the order of registration, and the
/// optimizer stays as it was.
pub proof fn a_descent_only_descends<T: Scalar, O, H: Hook<T, O>>(
    o: Sgd<T, H>,
    o_after: Sgd<T, H>,
    before: Snapshot<T>,
    after: Snapshot<T>,
    ps: Seq<Parameter>,
    k: int,
)
    requires
        crate::optim::all_stepped::<T, O, H, Sgd<T, H>>(o, o_after, before, after, ps, k),
    ensures
        o_after == o,
        after == descents(before, ps, o.learning_rate, k),
    decreases k,
{
    if k > 0 {
        let (o_mid, mid) = choose|o_mid: Sgd<T, H>, mid: Snapshot<T>|
            crate::optim::all_stepped::<T, O, H, Sgd<T, H>>(o, o_mid, before, mid, ps, k - 1)
                && #[trigger] Optimizer::<T, O, H>::stepped(
                &o_mid,
                o_after,
                mid,
                after,
                ps[k - 1],
            );
        a_descent_only_descends::<T, O, H>(o, o_mid, before, mid, ps, k - 1);
    }
}

/// A parameter that no step is taken for keeps its array.
pub proof fn others_stay_where_they_are<T: Scalar>(
    s: Snapshot<T>,
    ps: Seq<Parameter>,
    rate: T,
    k: int,
    q: Parameter,
)
    requires
        0 <= k <= ps.len(),
        q.variable.id < s.arrays.len(),
        forall|i: int| 0 <= i < ps.len() ==> (#[trigger] ps[i]).variable.id < s.arrays.len(),
        !ps.contains(q),
    ensures
        descents(s, ps, rate, k).data(q) == s.data(q),
        descents(s, ps, rate, k).arrays.len() == s.arrays.len(),
        descents(s, ps, rate, k).grads == s.grads,
    decreases k,
{
    if k > 0 {
        others_stay_where_they_are(s, ps, rate, k - 1, q);
        assert(ps.contains(ps[k - 1]));
    }
}

} // verus!
