//! Gradient descent with momentum.

use std::collections::HashMap;
use vstd::prelude::*;

use crate::engine::graph::Graph;
use crate::engine::parameter::Parameter;
use crate::laws::training::{
    a_velocity_is_kept_and_pushed, differs_only_at, is_carried, is_pushed,
};
use crate::optim::sgd::lemma_step_shapes;
use crate::optim::{data_and_grad, lemma_set_array, snapshot, Hook, Optimizer, Snapshot};
use crate::scalar::Scalar;
use crate::tensor::{copy_of, full_spec, Array, Tensor};

verus! {

broadcast use vstd::std_specs::hash::group_hash_axioms;

/// Gradient descent in which each parameter keeps a velocity: the gradient changes
/// the velocity, and the velocity moves the parameter.
pub struct MomentumSgd<T, H> {
    pub params: Vec<Parameter>,
    pub hooks: Vec<H>,
    pub learning_rate: T,
    pub momentum: T,
    pub velocities: HashMap<usize, Tensor<T>>,
}

/// A velocity that has lost some of itself and gained from a gradient.
pub open spec fn accelerated<T: Scalar>(
    velocity: Array<T>,
    grad: Array<T>,
    rate: T,
    momentum: T,
) -> Array<T> {
    Array {
        shape: velocity.shape,
        data: Seq::new(
            velocity.data.len(),
            |i: int| velocity.data[i].times(momentum).minus(grad.data[i].times(rate)),
        ),
    }
}

/// A parameter moved by a velocity.
pub open spec fn moved<T: Scalar>(data: Array<T>, velocity: Array<T>) -> Array<T> {
    Array {
        shape: data.shape,
        data: Seq::new(data.data.len(), |i: int| data.data[i].plus(velocity.data[i])),
    }
}

impl<T: Scalar, H> MomentumSgd<T, H> {
    /// The velocity of a parameter, once it has been stepped.
    pub open spec fn velocity_spec(self, p: Parameter) -> Option<Array<T>> {
        if self.velocities@.contains_key(p.variable.id) {
            Some(self.velocities@[p.variable.id]@)
        } else {
            None
        }
    }

    /// The velocity that a parameter with this array starts its next step from: rest
    /// before its first.
    pub open spec fn starting(self, p: Parameter, data: Array<T>) -> Array<T> {
        match self.velocity_spec(p) {
            Some(v) => v,
            None => full_spec(data.shape, T::zero_spec()),
        }
    }

    /// The velocity of a parameter after its next step.
    pub open spec fn next_velocity(self, p: Parameter, data: Array<T>, grad: Array<T>) -> Array<T> {
        accelerated(self.starting(p, data), grad, self.learning_rate, self.momentum)
    }

    /// A descent that is responsible for nothing yet.
    #[must_use]
    pub fn new(learning_rate: T, momentum: T) -> (r: MomentumSgd<T, H>)
        ensures
            r.params@.len() == 0,
            r.hooks@.len() == 0,
            r.learning_rate == learning_rate,
            r.momentum == momentum,
            forall|p: Parameter| #[trigger] r.velocity_spec(p) is None,
    {
        MomentumSgd {
            params: Vec::new(),
            hooks: Vec::new(),
            learning_rate,
            momentum,
            velocities: HashMap::new(),
        }
    }

    /// How far a gradient goes.
    #[must_use]
    pub fn learning_rate(&self) -> (r: T)
        ensures
            r == self.learning_rate,
    {
        self.learning_rate
    }

    /// How much of a velocity is kept.
    #[must_use]
    pub fn momentum(&self) -> (r: T)
        ensures
            r == self.momentum,
    {
        self.momentum
    }

    /// The velocity of a parameter, once it has been stepped.
    #[must_use]
    pub fn velocity(&self, param: &Parameter) -> (r: Option<&Tensor<T>>)
        ensures
            r is Some <==> self.velocity_spec(*param) is Some,
            r matches Some(t) ==> self.velocity_spec(*param) == Some(t@),
    {
        self.velocities.get(&param.variable.id)
    }

    /// Brings everything to rest.
    pub fn clear_velocities(&mut self)
        ensures
            forall|p: Parameter| #[trigger] final(self).velocity_spec(p) is None,
            final(self).params == old(self).params,
            final(self).hooks == old(self).hooks,
            final(self).learning_rate == old(self).learning_rate,
            final(self).momentum == old(self).momentum,
    {
        self.velocities = HashMap::new();
    }
}

fn accelerate<T: Scalar>(velocity: &Tensor<T>, grad: &Tensor<T>, rate: T, momentum: T) -> (r: Tensor<
    T,
>)
    requires
        velocity.wf(),
        grad.wf(),
        velocity@.shape == grad@.shape,
    ensures
        r.wf(),
        r@ == accelerated(velocity@, grad@, rate, momentum),
{
    let n: usize = velocity.data.len();
    let mut out: Vec<T> = Vec::new();
    let mut i: usize = 0;
    while i < n
        invariant
            n == velocity.data@.len(),
            n == grad.data@.len(),
            i <= n,
            out@.len() == i,
            forall|j: int|
                0 <= j < i ==> #[trigger] out@[j] == velocity.data@[j].times(momentum).minus(
                    grad.data@[j].times(rate),
                ),
        decreases n - i,
    {
        out.push(velocity.data[i].mul(momentum).sub(grad.data[i].mul(rate)));
        i = i + 1;
    }
    let r = Tensor { shape: copy_of(velocity.shape.as_slice()), data: out };
    assert(r@ =~= accelerated(velocity@, grad@, rate, momentum));
    r
}

fn shift<T: Scalar>(data: &Tensor<T>, velocity: &Tensor<T>) -> (r: Tensor<T>)
    requires
        data.wf(),
        velocity.wf(),
        data@.shape == velocity@.shape,
    ensures
        r.wf(),
        r@ == moved(data@, velocity@),
{
    let n: usize = data.data.len();
    let mut out: Vec<T> = Vec::new();
    let mut i: usize = 0;
    while i < n
        invariant
            n == velocity.data@.len(),
            n == data.data@.len(),
            i <= n,
            out@.len() == i,
            forall|j: int|
                0 <= j < i ==> #[trigger] out@[j] == data.data@[j].plus(velocity.data@[j]),
        decreases n - i,
    {
        out.push(data.data[i].add(velocity.data[i]));
        i = i + 1;
    }
    let r = Tensor { shape: copy_of(data.shape.as_slice()), data: out };
    assert(r@ =~= moved(data@, velocity@));
    r
}

impl<T: Scalar, O, H: Hook<T, O>> Optimizer<T, O, H> for MomentumSgd<T, H> {
    open spec fn registered(&self) -> Seq<Parameter> {
        self.params@
    }

    open spec fn hook_list(&self) -> Seq<H> {
        self.hooks@
    }

    /// A parameter fits its gradient, and its velocity.
    open spec fn can_step(&self, s: Snapshot<T>, p: Parameter) -> bool {
        &&& s.fits(p)
        &&& s.data(p) is Some ==> (self.velocity_spec(p) matches Some(v) ==> v.shape == s.data(
            p,
        )->0.shape && v.wf())
    }

    open spec fn stepped(
        &self,
        after: Self,
        before: Snapshot<T>,
        now: Snapshot<T>,
        p: Parameter,
    ) -> bool {
        &&& after.params == self.params
        &&& after.hooks == self.hooks
        &&& after.learning_rate == self.learning_rate
        &&& after.momentum == self.momentum
        &&& forall|q: Parameter| q != p ==> #[trigger] after.velocity_spec(q) == self.velocity_spec(q)
        &&& if before.data(p) is Some && before.grad(p) is Some {
            let velocity = self.next_velocity(p, before.data(p)->0, before.grad(p)->0);
            &&& after.velocity_spec(p) == Some(velocity)
            &&& now == before.with_array(p.variable, moved(before.data(p)->0, velocity))
        } else {
            &&& after.velocity_spec(p) == self.velocity_spec(p)
            &&& now == before
        }
    }

    proof fn shapes_decide(&self, a: Snapshot<T>, b: Snapshot<T>, p: Parameter) {
        let i = p.variable.id as int;
        assert(b.arrays[i] is Some <==> a.arrays[i] is Some);
    }

    fn params(&self) -> (r: &[Parameter]) {
        self.params.as_slice()
    }

    fn set_params(&mut self, params: Vec<Parameter>) {
        self.params = params;
    }

    fn hooks(&self) -> (r: &[H]) {
        self.hooks.as_slice()
    }

    fn add_hook(&mut self, hook: H) {
        self.hooks.push(hook);
    }

    fn clear_hooks(&mut self) {
        self.hooks = Vec::new();
    }

    fn update_one(&mut self, g: &mut Graph<T, O>, param: &Parameter)
        ensures
            match (snapshot(*old(g)).data(*param), snapshot(*old(g)).grad(*param)) {
                (Some(x), Some(d)) => {
                    &&& differs_only_at(snapshot(*old(g)), snapshot(*final(g)), seq![*param])
                    &&& snapshot(*final(g)).data(*param) is Some
                    &&& is_carried(
                        snapshot(*final(g)).data(*param)->0,
                        x,
                        final(self).velocity_spec(*param)->0,
                    )
                    &&& old(self).velocity_spec(*param) matches Some(was) ==> is_pushed(
                        final(self).velocity_spec(*param)->0,
                        was,
                        d,
                        old(self).learning_rate,
                        old(self).momentum,
                    )
                },
                _ => snapshot(*final(g)) == snapshot(*old(g)),
            },
    {
        let ghost start = *g;
        let ghost s = snapshot(*g);
        let ghost me = *self;
        let p: Parameter = *param;
        assert(g.nodes.len() == g.nodes@.len());
        let fresh: Option<(Tensor<T>, Tensor<T>)> = match data_and_grad(g, &p) {
            Some((data, grad, _)) => {
                let (rate, momentum): (T, T) = (self.learning_rate, self.momentum);
                let velocity: Tensor<T> = match self.velocities.get(&p.variable.id) {
                    Some(v) => accelerate(v, grad, rate, momentum),
                    None => {
                        let rest: Tensor<T> = Tensor::full(data.shape.as_slice(), T::zero());
                        accelerate(&rest, grad, rate, momentum)
                    },
                };
                let there = shift(data, &velocity);
                Some((there, velocity))
            },
            None => None,
        };
        if let Some((there, velocity)) = fresh {
            let ghost tensor = there;
            let ghost speed = velocity;
            p.variable.set_data(g, there);
            self.velocities.insert(p.variable.id, velocity);
            proof {
                lemma_set_array(start, *g, p.variable, tensor);
                assert forall|q: Parameter| q != p implies #[trigger] self.velocity_spec(q)
                    == me.velocity_spec(q) by {
                    assert(q.variable.id != p.variable.id);
                }
                assert forall|q: Parameter|
                    q.variable.id < start.nodes@.len() && #[trigger] Optimizer::<T, O, H>::can_step(
                        old(self),
                        s,
                        q,
                    ) implies Optimizer::<T, O, H>::can_step(self, snapshot(*g), q) by {
                    assert(start.node_ok(q.variable.id as int));
                    lemma_step_shapes(s, p, tensor@, q);
                    if q != p {
                        assert(self.velocity_spec(q) == me.velocity_spec(q));
                    }
                }
                assert(start.node_ok(p.variable.id as int));
                lemma_step_shapes(s, p, tensor@, p);
            }
        }
        proof {
            if s.data(p) is Some && s.grad(p) is Some {
                assert(start.node_ok(p.variable.id as int));
                a_velocity_is_kept_and_pushed::<T, O, H>(
                    me,
                    *self,
                    s,
                    snapshot(*g),
                    p,
                    s.data(p)->0,
                    s.grad(p)->0,
                );
            }
        }
    }
}

/// From rest the first velocity is that of plain descent: the gradient, scaled, taken
/// from nought.
pub proof fn the_first_step_starts_from_rest<T: Scalar, H>(
    o: MomentumSgd<T, H>,
    p: Parameter,
    data: Array<T>,
    grad: Array<T>,
    i: int,
)
    requires
        o.velocity_spec(p) is None,
        data.wf(),
        0 <= i < data.data.len(),
    ensures
        o.next_velocity(p, data, grad).data[i] == T::zero_spec().times(o.momentum).minus(
            grad.data[i].times(o.learning_rate),
        ),
{
}

/// Where the elements form a ring, momentum of nought is plain descent.
pub proof fn no_momentum_is_plain_descent<R: crate::scalar::Ring, H>(
    o: MomentumSgd<R, H>,
    p: Parameter,
    data: Array<R>,
    grad: Array<R>,
    i: int,
)
    requires
        o.momentum == R::zero_spec(),
        data.wf(),
        o.velocity_spec(p) matches Some(v) ==> v.wf() && v.shape == data.shape,
        0 <= i < data.data.len(),
    ensures
        moved(data, o.next_velocity(p, data, grad)).data[i] == data.data[i].plus(
            R::zero_spec().minus(grad.data[i].times(o.learning_rate)),
        ),
{
    let v = o.starting(p, data).data[i];
    R::zero_absorbs(v);
    R::times_commutes(v, R::zero_spec());
}

} // verus!
