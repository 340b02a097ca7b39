//! Optimizers: what moves parameters along their gradients.

pub mod hooks;
pub mod momentum;
pub mod sgd;

use vstd::prelude::*;

use crate::engine::graph::{Graph, Node, Variable};
use crate::engine::parameter::Parameter;
use crate::layers::{owns_all, Layer};
use crate::scalar::Scalar;
use crate::tensor::{Array, Tensor};

verus! {

/// What training changes of a graph: the arrays of its variables and which variables
/// are their gradients.
#[verifier::ext_equal]
pub ghost struct Snapshot<T> {
    pub arrays: Seq<Option<Array<T>>>,
    pub grads: Seq<Option<Variable>>,
}

/// The arrays and gradients of a graph.
pub open spec fn snapshot<T, O>(g: Graph<T, O>) -> Snapshot<T> {
    Snapshot {
        arrays: Seq::new(g.nodes@.len(), |i: int| g.array(Variable { id: i as usize })),
        grads: Seq::new(g.nodes@.len(), |i: int| g.nodes@[i].grad),
    }
}

/// Whether `after` differs from `before` only in arrays and gradients.
pub open spec fn only_training<T, O>(before: Graph<T, O>, after: Graph<T, O>) -> bool {
    &&& after.nodes@.len() == before.nodes@.len()
    &&& after.calls == before.calls
    &&& after.config == before.config
    &&& forall|i: int|
        0 <= i < before.nodes@.len() ==> #[trigger] after.nodes@[i] == (Node {
            data: after.nodes@[i].data,
            grad: after.nodes@[i].grad,
            ..before.nodes@[i]
        })
}

impl<T> Snapshot<T> {
    /// The array of a parameter.
    pub open spec fn data(self, p: Parameter) -> Option<Array<T>> {
        self.arrays[p.variable.id as int]
    }

    /// The array of the gradient of a parameter, where it has one that holds data.
    pub open spec fn grad(self, p: Parameter) -> Option<Array<T>> {
        match self.grads[p.variable.id as int] {
            Some(v) => self.arrays[v.id as int],
            None => None,
        }
    }

    /// A parameter and its gradient have the same shape, where both hold data.
    pub open spec fn fits(self, p: Parameter) -> bool {
        self.data(p) is Some && self.grad(p) is Some ==> self.data(p)->0.shape == self.grad(
            p,
        )->0.shape
    }

    /// The same with the array of one variable replaced.
    pub open spec fn with_array(self, v: Variable, a: Array<T>) -> Snapshot<T> {
        Snapshot { arrays: self.arrays.update(v.id as int, Some(a)), grads: self.grads }
    }
}

/// Every listed parameter fits its gradient.
pub open spec fn all_fit<T>(s: Snapshot<T>, ps: Seq<Parameter>) -> bool {
    forall|i: int| 0 <= i < ps.len() ==> s.fits(#[trigger] ps[i])
}

/// Whether two snapshots hold arrays of the same shapes.
pub open spec fn same_shapes<T>(a: Snapshot<T>, b: Snapshot<T>) -> bool {
    &&& a.arrays.len() == b.arrays.len()
    &&& a.grads.len() == b.grads.len()
    &&& forall|i: int|
        0 <= i < a.arrays.len() ==> {
            &&& (#[trigger] b.arrays[i]) is Some <==> a.arrays[i] is Some
            &&& b.arrays[i] matches Some(x) ==> x.shape == a.arrays[i]->0.shape
        }
}

/// The parameters that have a gradient.
pub open spec fn pending<T>(s: Snapshot<T>, ps: Seq<Parameter>, k: int) -> Seq<Parameter>
    decreases k,
{
    if k <= 0 {
        Seq::empty()
    } else if s.grads[ps[k - 1].variable.id as int] is Some {
        pending(s, ps, k - 1).push(ps[k - 1])
    } else {
        pending(s, ps, k - 1)
    }
}

/// A rule applied to the gradients before a step.
pub trait Hook<T: Scalar, O>: Sized {
    /// What the rule makes of the gradients of the listed parameters.
    closed spec fn rewrites(
        &self,
        before: Snapshot<T>,
        after: Snapshot<T>,
        ps: Seq<Parameter>,
    ) -> bool {
        arbitrary()
    }

    /// Whether the rule speaks of variables of the graph alone.
    closed spec fn belongs(&self, n: nat) -> bool {
        arbitrary()
    }

    /// Rewrites the gradients of the parameters that are about to be stepped.
    fn call(&self, g: &mut Graph<T, O>, ps: &[Parameter])
        requires
            old(g).wf(),
            owns_all(*old(g), ps@),
            all_fit(snapshot(*old(g)), ps@),
            self.belongs(old(g).nodes@.len()),
        ensures
            final(g).wf(),
            only_training(*old(g), *final(g)),
            self.rewrites(snapshot(*old(g)), snapshot(*final(g)), ps@),
            same_shapes(snapshot(*old(g)), snapshot(*final(g))),
            all_fit(snapshot(*final(g)), ps@),
    ;
}

/// What the first `k` hooks make of the gradients, one after the other.
pub open spec fn hooked<T: Scalar, O, H: Hook<T, O>>(
    hooks: Seq<H>,
    before: Snapshot<T>,
    after: Snapshot<T>,
    ps: Seq<Parameter>,
    k: int,
) -> bool
    decreases k,
{
    if k <= 0 {
        after == before
    } else {
        exists|mid: Snapshot<T>|
            hooked::<T, O, H>(hooks, before, mid, ps, k - 1) && #[trigger] hooks[k - 1].rewrites(
                mid,
                after,
                ps,
            )
    }
}

/// An algorithm that updates parameters from their gradients.
pub trait Optimizer<T: Scalar, O, H: Hook<T, O>>: Sized {
    /// The parameters that it is responsible for.
    closed spec fn registered(&self) -> Seq<Parameter> {
        arbitrary()
    }

    /// Its hooks, in the order in which they are run.
    closed spec fn hook_list(&self) -> Seq<H> {
        arbitrary()
    }

    /// Whether it can step a parameter.
    closed spec fn can_step(&self, s: Snapshot<T>, p: Parameter) -> bool {
        arbitrary()
    }

    /// What a step of one parameter makes of the arrays, and of the optimizer.
    closed spec fn stepped(
        &self,
        after: Self,
        before: Snapshot<T>,
        now: Snapshot<T>,
        p: Parameter,
    ) -> bool {
        arbitrary()
    }

    /// Whether a parameter can be stepped is a matter of shapes, once it fits.
    proof fn shapes_decide(&self, a: Snapshot<T>, b: Snapshot<T>, p: Parameter)
        requires
            same_shapes(a, b),
            p.variable.id < a.arrays.len(),
            self.can_step(a, p),
            b.fits(p),
        ensures
            self.can_step(b, p),
    ;

    /// The parameters that it is responsible for.
    fn params(&self) -> (r: &[Parameter])
        ensures
            r@ == self.registered(),
    ;

    /// Makes it responsible for these parameters.
    fn set_params(&mut self, params: Vec<Parameter>)
        ensures
            final(self).registered() == params@,
            final(self).hook_list() == old(self).hook_list(),
    ;

    /// Its hooks, in the order in which they are run.
    fn hooks(&self) -> (r: &[H])
        ensures
            r@ == self.hook_list(),
    ;

    /// Adds a hook behind the others.
    fn add_hook(&mut self, hook: H)
        ensures
            final(self).hook_list() == old(self).hook_list().push(hook),
            final(self).registered() == old(self).registered(),
    ;

    /// Drops every hook.
    fn clear_hooks(&mut self)
        ensures
            final(self).hook_list().len() == 0,
            final(self).registered() == old(self).registered(),
    ;

    /// Steps one parameter.
    fn update_one(&mut self, g: &mut Graph<T, O>, param: &Parameter)
        requires
            old(g).wf(),
            old(g).has(param.variable),
            old(self).can_step(snapshot(*old(g)), *param),
        ensures
            final(g).wf(),
            only_training(*old(g), *final(g)),
            old(self).stepped(
                *final(self),
                snapshot(*old(g)),
                snapshot(*final(g)),
                *param,
            ),
            same_shapes(snapshot(*old(g)), snapshot(*final(g))),
            snapshot(*final(g)).grads == snapshot(*old(g)).grads,
            final(self).registered() == old(self).registered(),
            final(self).hook_list() == old(self).hook_list(),
            forall|q: Parameter|
                q.variable.id < old(g).nodes@.len() && #[trigger] old(self).can_step(
                    snapshot(*old(g)),
                    q,
                ) ==> final(self).can_step(snapshot(*final(g)), q),
    ;
}

/// What steps of the first `k` parameters make of the arrays, and of the optimizer.
pub open spec fn all_stepped<T: Scalar, O, H: Hook<T, O>, P: Optimizer<T, O, H>>(
    o: P,
    o_after: P,
    before: Snapshot<T>,
    after: Snapshot<T>,
    ps: Seq<Parameter>,
    k: int,
) -> bool
    decreases k,
{
    if k <= 0 {
        o_after == o && after == before
    } else {
        exists|o_mid: P, mid: Snapshot<T>|
            all_stepped::<T, O, H, P>(o, o_mid, before, mid, ps, k - 1) && #[trigger] o_mid.stepped(
                o_after,
                mid,
                after,
                ps[k - 1],
            )
    }
}

proof fn lemma_hooked_more<T: Scalar, O, H: Hook<T, O>>(
    hooks: Seq<H>,
    before: Snapshot<T>,
    mid: Snapshot<T>,
    after: Snapshot<T>,
    ps: Seq<Parameter>,
    k: int,
)
    requires
        0 <= k,
        hooked::<T, O, H>(hooks, before, mid, ps, k),
        hooks[k].rewrites(mid, after, ps),
    ensures
        hooked::<T, O, H>(hooks, before, after, ps, k + 1),
{
    let last = k + 1;
    assert(hooked::<T, O, H>(hooks, before, mid, ps, last - 1));
    assert(hooks[last - 1].rewrites(mid, after, ps));
}

proof fn lemma_stepped_more<T: Scalar, O, H: Hook<T, O>, P: Optimizer<T, O, H>>(
    o: P,
    o_mid: P,
    o_after: P,
    before: Snapshot<T>,
    mid: Snapshot<T>,
    after: Snapshot<T>,
    ps: Seq<Parameter>,
    k: int,
)
    requires
        0 <= k,
        all_stepped::<T, O, H, P>(o, o_mid, before, mid, ps, k),
        o_mid.stepped(o_after, mid, after, ps[k]),
    ensures
        all_stepped::<T, O, H, P>(o, o_after, before, after, ps, k + 1),
{
    let last = k + 1;
    assert(all_stepped::<T, O, H, P>(o, o_mid, before, mid, ps, last - 1));
    assert(o_mid.stepped(o_after, mid, after, ps[last - 1]));
}

/// Makes an optimizer responsible for the parameters of a layer and of those below.
pub fn setup<T: Scalar, O, H: Hook<T, O>, P: Optimizer<T, O, H>, L: Layer>(
    optimizer: &mut P,
    target: &L,
)
    ensures
        final(optimizer).registered() == target.tree_spec().params(),
        final(optimizer).hook_list() == old(optimizer).hook_list(),
{
    optimizer.set_params(target.params());
}

/// The parameters that have a gradient.
pub fn list_pending<T, O>(g: &Graph<T, O>, ps: &[Parameter]) -> (r: Vec<Parameter>)
    requires
        owns_all(*g, ps@),
    ensures
        r@ == pending(snapshot(*g), ps@, ps@.len() as int),
{
    let n: usize = ps.len();
    let mut r: Vec<Parameter> = Vec::new();
    let mut i: usize = 0;
    while i < n
        invariant
            i <= n,
            n == ps@.len(),
            owns_all(*g, ps@),
            r@ == pending(snapshot(*g), ps@, i as int),
        decreases n - i,
    {
        let p: Parameter = ps[i];
        assert(g.has(ps@[i as int].variable));
        assert(snapshot(*g).grads[p.variable.id as int] == g.node(p.variable).grad);
        if p.variable.grad(g).is_some() {
            r.push(p);
        }
        i = i + 1;
    }
    r
}

proof fn lemma_pending<T>(s: Snapshot<T>, ps: Seq<Parameter>, k: int)
    requires
        0 <= k <= ps.len(),
    ensures
        forall|i: int| #![auto]
            0 <= i < pending(s, ps, k).len() ==> ps.contains(pending(s, ps, k)[i])
                && s.grads[pending(s, ps, k)[i].variable.id as int] is Some,
    decreases k,
{
    if k > 0 {
        lemma_pending(s, ps, k - 1);
        let now = pending(s, ps, k);
        let was = pending(s, ps, k - 1);
        assert forall|i: int| #![auto] 0 <= i < now.len() implies ps.contains(now[i])
            && s.grads[now[i].variable.id as int] is Some by {
            if i < was.len() {
                assert(now[i] == was[i]);
            } else {
                assert(now[i] == ps[k - 1]);
            }
        }
    }
}

/// Runs the hooks on the parameters that have a gradient, and steps each of them.
pub fn update<T: Scalar, O, H: Hook<T, O>, P: Optimizer<T, O, H>>(
    optimizer: &mut P,
    g: &mut Graph<T, O>,
)
    requires
        old(g).wf(),
        owns_all(*old(g), old(optimizer).registered()),
        all_fit(snapshot(*old(g)), old(optimizer).registered()),
        forall|i: int|
            0 <= i < old(optimizer).registered().len() && old(g).node(
                (#[trigger] old(optimizer).registered()[i]).variable,
            ).grad is Some ==> old(optimizer).can_step(
                snapshot(*old(g)),
                old(optimizer).registered()[i],
            ),
        forall|i: int|
            0 <= i < old(optimizer).hook_list().len() ==> (
            #[trigger] old(optimizer).hook_list()[i]).belongs(old(g).nodes@.len()),
    ensures
        final(g).wf(),
        only_training(*old(g), *final(g)),
        final(optimizer).registered() == old(optimizer).registered(),
        final(optimizer).hook_list() == old(optimizer).hook_list(),
        ({
            let s = snapshot(*old(g));
            let hooks = old(optimizer).hook_list();
            let ps = pending(
                s,
                old(optimizer).registered(),
                old(optimizer).registered().len() as int,
            );
            exists|mid: Snapshot<T>|
                hooked::<T, O, H>(hooks, s, mid, ps, hooks.len() as int) && #[trigger] all_stepped::<
                    T,
                    O,
                    H,
                    P,
                >(*old(optimizer), *final(optimizer), mid, snapshot(*final(g)), ps, ps.len() as int)
        }),
{
    let ghost start = *g;
    let ghost s = snapshot(*g);
    let ghost first = *optimizer;
    let ghost all = optimizer.registered();
    let ghost hook_list = optimizer.hook_list();
    let todo = list_pending(g, optimizer.params());
    let ghost ps = todo@;
    proof {
        lemma_pending(s, all, all.len() as int);
        assert forall|i: int| 0 <= i < ps.len() implies {
            &&& g.has((#[trigger] ps[i]).variable)
            &&& s.fits(ps[i])
            &&& first.can_step(s, ps[i])
        } by {
            assert(all.contains(ps[i]));
            let j = choose|j: int| 0 <= j < all.len() && all[j] == ps[i];
            assert(g.has(all[j].variable));
            assert(s.fits(all[j]));
        }
    }
    let count: usize = optimizer.hooks().len();
    let mut i: usize = 0;
    while i < count
        invariant
            i <= count,
            count == hook_list.len(),
            *optimizer == first,
            hook_list == optimizer.hook_list(),
            ps == todo@,
            s == snapshot(start),
            owns_all(start, ps),
            forall|k: int|
                0 <= k < hook_list.len() ==> (#[trigger] hook_list[k]).belongs(start.nodes@.len()),
            g.wf(),
            only_training(start, *g),
            same_shapes(s, snapshot(*g)),
            all_fit(snapshot(*g), ps),
            hooked::<T, O, H>(hook_list, s, snapshot(*g), ps, i as int),
        decreases count - i,
    {
        let ghost mid = *g;
        proof {
            assert(owns_all(mid, ps)) by {
                assert forall|k: int| 0 <= k < ps.len() implies mid.has(
                    (#[trigger] ps[k]).variable,
                ) by {
                    assert(start.has(ps[k].variable));
                }
            }
            assert(hook_list[i as int].belongs(start.nodes@.len()));
        }
        optimizer.hooks()[i].call(g, todo.as_slice());
        proof {
            lemma_hooked_more::<T, O, H>(
                hook_list,
                s,
                snapshot(mid),
                snapshot(*g),
                ps,
                i as int,
            );
            lemma_only_training(start, mid, *g);
        }
        i = i + 1;
    }
    let ghost mid = snapshot(*g);
    proof {
        assert forall|k: int| 0 <= k < ps.len() implies first.can_step(mid, #[trigger] ps[k]) by {
            assert(start.has(ps[k].variable));
            assert(mid.fits(ps[k]));
            first.shapes_decide(s, mid, ps[k]);
        }
    }
    let n: usize = todo.len();
    let mut k: usize = 0;
    while k < n
        invariant
            k <= n,
            n == ps.len(),
            ps == todo@,
            owns_all(start, ps),
            g.wf(),
            only_training(start, *g),
            optimizer.registered() == all,
            optimizer.hook_list() == hook_list,
            forall|j: int|
                0 <= j < ps.len() ==> optimizer.can_step(snapshot(*g), #[trigger] ps[j]),
            all_stepped::<T, O, H, P>(first, *optimizer, mid, snapshot(*g), ps, k as int),
        decreases n - k,
    {
        let ghost before = *g;
        let ghost o_before = *optimizer;
        assert(start.has(ps[k as int].variable));
        optimizer.update_one(g, &todo[k]);
        proof {
            lemma_stepped_more::<T, O, H, P>(
                first,
                o_before,
                *optimizer,
                mid,
                snapshot(before),
                snapshot(*g),
                ps,
                k as int,
            );
            lemma_only_training(start, before, *g);
            assert forall|j: int| 0 <= j < ps.len() implies optimizer.can_step(
                snapshot(*g),
                #[trigger] ps[j],
            ) by {
                assert(start.has(ps[j].variable));
                assert(o_before.can_step(snapshot(before), ps[j]));
            }
        }
        k = k + 1;
    }
}

pub proof fn lemma_only_training<T, O>(a: Graph<T, O>, b: Graph<T, O>, c: Graph<T, O>)
    requires
        only_training(a, b),
        only_training(b, c),
    ensures
        only_training(a, c),
{
    assert forall|i: int| 0 <= i < a.nodes@.len() implies #[trigger] c.nodes@[i] == (Node {
        data: c.nodes@[i].data,
        grad: c.nodes@[i].grad,
        ..a.nodes@[i]
    }) by {
        assert(b.nodes@[i] == Node {
            data: b.nodes@[i].data,
            grad: b.nodes@[i].grad,
            ..a.nodes@[i]
        });
    }
}

/// A parameter's array and that of its gradient, where both are there.
pub fn data_and_grad<'a, T: Scalar, O>(g: &'a Graph<T, O>, param: &Parameter) -> (r: Option<
    (&'a Tensor<T>, &'a Tensor<T>, Variable),
>)
    requires
        g.wf(),
        g.has(param.variable),
        snapshot(*g).fits(*param),
    ensures
        ({
            let s = snapshot(*g);
            &&& r is Some <==> s.data(*param) is Some && s.grad(*param) is Some
            &&& r matches Some(t) ==> {
                &&& s.data(*param) == Some(t.0@)
                &&& s.grad(*param) == Some(t.1@)
                &&& g.node(param.variable).grad == Some(t.2)
                &&& g.has(t.2)
                &&& t.0.wf()
                &&& t.1.wf()
                &&& t.0@.shape == t.1@.shape
            }
        }),
{
    proof {
        assert(g.node_ok(param.variable.id as int));
        assert(snapshot(*g).arrays[param.variable.id as int] == g.array(param.variable));
        if let Some(v) = g.node(param.variable).grad {
            assert(g.node_ok(v.id as int));
            assert(snapshot(*g).arrays[v.id as int] == g.array(v));
        }
    }
    match param.variable.data(g) {
        None => None,
        Some(data) => match param.variable.grad(g) {
            None => None,
            Some(v) => match v.data(g) {
                None => None,
                Some(grad) => Some((data, grad, v)),
            },
        },
    }
}

/// Whether `after` is `before` with the array of one variable replaced.
pub proof fn lemma_set_array<T, O>(
    before: Graph<T, O>,
    after: Graph<T, O>,
    v: Variable,
    t: Tensor<T>,
)
    requires
        before.has(v),
        before.nodes@.len() <= usize::MAX,
        crate::engine::graph::only_node(
            before,
            after,
            v,
            Node { data: Some(t), ..before.node(v) },
        ),
    ensures
        only_training(before, after),
        snapshot(after) == snapshot(before).with_array(v, t@),
{
    assert(snapshot(after).arrays =~= snapshot(before).with_array(v, t@).arrays);
    assert(snapshot(after).grads =~= snapshot(before).grads);
}

} // verus!
