//! Rules applied to gradients before a step.

use vstd::prelude::*;

use crate::engine::graph::{Graph, Variable};
use crate::engine::parameter::Parameter;
use crate::functions::basic_math::{image, is_function};
use crate::laws::training::{
    clipping_scales_all_gradients_alike, decay_adds_a_share_of_the_parameter, gradients_apart,
    is_clipped, is_pulled, joint_square,
};
use crate::layers::{clear_gradients, owns_all, Layer};
use crate::optim::{
    all_fit, data_and_grad, lemma_set_array, only_training, same_shapes, snapshot, Hook, Snapshot,
};
use crate::scalar::Scalar;
use crate::tensor::{copy_of, Array, Tensor};
use crate::utils::numerical::{is_ordered, ordered};

verus! {

/// Pulls every parameter towards nought: each gradient gets the parameter, scaled,
/// added to it.
#[derive(Debug, Clone, Copy, PartialEq)]
pub struct WeightDecay<T> {
    pub rate: T,
}

/// A gradient with the parameter, scaled, added to it.
pub open spec fn decayed<T: Scalar>(grad: Array<T>, data: Array<T>, rate: T) -> Array<T> {
    Array {
        shape: grad.shape,
        data: Seq::new(
            grad.data.len(),
            |i: int| grad.data[i].plus(data.data[i].times(rate)),
        ),
    }
}

/// What decay makes of the gradients of the first `k` parameters, one after the other.
pub open spec fn decay<T: Scalar>(s: Snapshot<T>, ps: Seq<Parameter>, rate: T, k: int) -> Snapshot<
    T,
>
    decreases k,
{
    if k <= 0 {
        s
    } else {
        let now = decay(s, ps, rate, k - 1);
        let p = ps[k - 1];
        if now.data(p) is Some && now.grad(p) is Some {
            now.with_array(
                now.grads[p.variable.id as int]->0,
                decayed(now.grad(p)->0, now.data(p)->0, rate),
            )
        } else {
            now
        }
    }
}

impl<T: Scalar> WeightDecay<T> {
    #[must_use]
    pub fn new(rate: T) -> (r: WeightDecay<T>)
        ensures
            r.rate == rate,
    {
        WeightDecay { rate }
    }

    /// The share of each parameter that its gradient gets.
    #[must_use]
    pub fn rate(&self) -> (r: T)
        ensures
            r == self.rate,
    {
        self.rate
    }
}

fn decayed_tensor<T: Scalar>(grad: &Tensor<T>, data: &Tensor<T>, rate: T) -> (r: Tensor<T>)
    requires
        grad.wf(),
        data.wf(),
        grad@.shape == data@.shape,
    ensures
        r.wf(),
        r@ == decayed(grad@, data@, rate),
{
    let n: usize = grad.data.len();
    let mut out: Vec<T> = Vec::new();
    let mut i: usize = 0;
    while i < n
        invariant
            n == grad.data@.len(),
            n == data.data@.len(),
            i <= n,
            out@.len() == i,
            forall|j: int|
                0 <= j < i ==> #[trigger] out@[j] == grad.data@[j].plus(data.data@[j].times(rate)),
        decreases n - i,
    {
        out.push(grad.data[i].add(data.data[i].mul(rate)));
        i = i + 1;
    }
    let r = Tensor { shape: copy_of(grad.shape.as_slice()), data: out };
    assert(r@ =~= decayed(grad@, data@, rate));
    r
}

/// Replacing an array by one of the same shape leaves shapes as they are.
pub proof fn lemma_same_shapes<T>(
    a: Snapshot<T>,
    b: Snapshot<T>,
    v: Variable,
    x: Array<T>,
    ps: Seq<Parameter>,
)
    requires
        same_shapes(a, b),
        v.id < b.arrays.len(),
        b.arrays[v.id as int] matches Some(old_x) && old_x.shape == x.shape,
        all_fit(b, ps),
        forall|i: int|
            0 <= i < ps.len() ==> {
                &&& (#[trigger] ps[i]).variable.id < b.arrays.len()
                &&& b.grads[ps[i].variable.id as int] matches Some(w) ==> w.id < b.arrays.len()
            },
    ensures
        same_shapes(a, b.with_array(v, x)),
        all_fit(b.with_array(v, x), ps),
{
    let c = b.with_array(v, x);
    assert forall|i: int| 0 <= i < ps.len() implies c.fits(#[trigger] ps[i]) by {
        assert(b.fits(ps[i]));
    }
    assert forall|i: int| 0 <= i < a.arrays.len() implies {
        &&& (#[trigger] c.arrays[i]) is Some <==> a.arrays[i] is Some
        &&& c.arrays[i] matches Some(y) ==> y.shape == a.arrays[i]->0.shape
    } by {
        assert(b.arrays[i] is Some <==> a.arrays[i] is Some);
    }
}

proof fn lemma_grads_in<T, O>(g: Graph<T, O>, ps: Seq<Parameter>)
    requires
        g.wf(),
        owns_all(g, ps),
    ensures
        forall|i: int|
            0 <= i < ps.len() ==> {
                &&& (#[trigger] ps[i]).variable.id < snapshot(g).arrays.len()
                &&& snapshot(g).grads[ps[i].variable.id as int] matches Some(w) ==> w.id < snapshot(
                    g,
                ).arrays.len()
            },
{
    assert forall|i: int| 0 <= i < ps.len() implies {
        &&& (#[trigger] ps[i]).variable.id < snapshot(g).arrays.len()
        &&& snapshot(g).grads[ps[i].variable.id as int] matches Some(w) ==> w.id < snapshot(
            g,
        ).arrays.len()
    } by {
        assert(g.has(ps[i].variable));
        assert(g.node_ok(ps[i].variable.id as int));
    }
}

impl<T: Scalar, O> Hook<T, O> for WeightDecay<T> {
    open spec fn rewrites(
        &self,
        before: Snapshot<T>,
        after: Snapshot<T>,
        ps: Seq<Parameter>,
    ) -> bool {
        after == decay(before, ps, self.rate, ps.len() as int)
    }

    open spec fn belongs(&self, n: nat) -> bool {
        true
    }

    fn call(&self, g: &mut Graph<T, O>, ps: &[Parameter])
        ensures
            gradients_apart(snapshot(*old(g)), ps@) ==> forall|i: int|
                0 <= i < ps@.len() ==> is_pulled(
                    snapshot(*old(g)),
                    snapshot(*final(g)),
                    #[trigger] ps@[i],
                    self.rate,
                ),
    {
        let ghost start = *g;
        let ghost s = snapshot(*g);
        let n: usize = ps.len();
        let mut i: usize = 0;
        assert(g.nodes.len() == g.nodes@.len());
        while i < n
            invariant
                i <= n,
                n == ps@.len(),
                start.nodes@.len() <= usize::MAX,
                owns_all(start, ps@),
                s == snapshot(start),
                g.wf(),
                only_training(start, *g),
                same_shapes(s, snapshot(*g)),
                all_fit(snapshot(*g), ps@),
                snapshot(*g) == decay(s, ps@, self.rate, i as int),
            decreases n - i,
        {
            let p: Parameter = ps[i];
            let ghost mid = *g;
            proof {
                assert(start.has(ps@[i as int].variable));
                assert(snapshot(mid).fits(ps@[i as int]));
                assert(owns_all(mid, ps@)) by {
                    assert forall|k: int| 0 <= k < ps@.len() implies mid.has(
                        (#[trigger] ps@[k]).variable,
                    ) by {
                        assert(start.has(ps@[k].variable));
                    }
                }
                lemma_grads_in(mid, ps@);
            }
            let fresh: Option<(Tensor<T>, Variable)> = match data_and_grad(g, &p) {
                Some((data, grad, v)) => Some((decayed_tensor(grad, data, self.rate), v)),
                None => None,
            };
            if let Some((t, v)) = fresh {
                let ghost tensor = t;
                v.set_data(g, t);
                proof {
                    assert(snapshot(mid).arrays[v.id as int] == mid.array(v));
                    lemma_set_array(mid, *g, v, tensor);
                    crate::optim::lemma_only_training(start, mid, *g);
                    lemma_same_shapes(s, snapshot(mid), v, tensor@, ps@);
                }
            }
            i = i + 1;
        }
        proof {
            if gradients_apart(s, ps@) {
                assert forall|i: int| 0 <= i < ps@.len() implies is_pulled(
                    s,
                    snapshot(*g),
                    #[trigger] ps@[i],
                    self.rate,
                ) by {
                    decay_adds_a_share_of_the_parameter::<T, O>(*self, s, snapshot(*g), ps@, i);
                }
            }
        }
    }
}

/// Every element of a gradient times a rate.
pub open spec fn shrunk<T: Scalar>(grad: Array<T>, rate: T) -> Array<T> {
    crate::layers::linear::scaled_spec(grad, rate)
}

/// What scaling makes of the gradients of the first `k` parameters.
pub open spec fn shrink<T: Scalar>(s: Snapshot<T>, ps: Seq<Parameter>, rate: T, k: int) -> Snapshot<
    T,
>
    decreases k,
{
    if k <= 0 {
        s
    } else {
        let now = shrink(s, ps, rate, k - 1);
        let p = ps[k - 1];
        match now.grad(p) {
            Some(grad) => now.with_array(
                now.grads[p.variable.id as int]->0,
                shrunk(grad, rate),
            ),
            None => now,
        }
    }
}

/// The squares of the first `k` elements, added up from nought.
pub open spec fn square_sum<T: Scalar>(data: Seq<T>, k: int) -> T
    decreases k,
{
    if k <= 0 {
        T::zero_spec()
    } else {
        square_sum(data, k - 1).plus(data[k - 1].times(data[k - 1]))
    }
}

/// The squares of the gradients of the first `k` parameters, added up gradient by
/// gradient.
pub open spec fn total_square<T: Scalar>(s: Snapshot<T>, ps: Seq<Parameter>, k: int) -> T
    decreases k,
{
    if k <= 0 {
        T::zero_spec()
    } else {
        match s.grad(ps[k - 1]) {
            Some(grad) => total_square(s, ps, k - 1).plus(
                square_sum(grad.data, grad.data.len() as int),
            ),
            None => total_square(s, ps, k - 1),
        }
    }
}

/// Bounds the joint length of the gradients.
#[derive(Debug, Clone, Copy, PartialEq)]
pub struct ClipGrad<T, R> {
    pub max_norm: T,
    /// The square root.
    pub root: R,
    /// What is added to the length before it divides, so that it is never nought.
    pub margin: T,
}

/// What gradients are scaled by: the length that is allowed over the joint length that
/// they have.
pub open spec fn clip_rate<T: Scalar, R: Fn(T) -> T>(
    hook: ClipGrad<T, R>,
    s: Snapshot<T>,
    ps: Seq<Parameter>,
) -> T {
    let norm = image(hook.root, total_square(s, ps, ps.len() as int));
    hook.max_norm.over(norm.plus(hook.margin))
}

/// Whether `a` is one or more; an `a` that does not compare is not.
pub open spec fn one_or_more<T: Scalar>(a: T) -> bool {
    ordered(a) && !T::one_spec().exceeds(a)
}

impl<T: Scalar, R: Fn(T) -> T> ClipGrad<T, R> {
    #[must_use]
    pub fn new(max_norm: T, root: R, margin: T) -> (r: ClipGrad<T, R>)
        ensures
            r.max_norm == max_norm,
            r.root == root,
            r.margin == margin,
    {
        ClipGrad { max_norm, root, margin }
    }

    /// The length that gradients are cut down to.
    #[must_use]
    pub fn max_norm(&self) -> (r: T)
        ensures
            r == self.max_norm,
    {
        self.max_norm
    }

    /// The joint length of the gradients.
    #[must_use]
    pub fn total_norm<O>(&self, g: &Graph<T, O>, ps: &[Parameter]) -> (r: T)
        requires
            g.wf(),
            owns_all(*g, ps@),
            is_function(self.root),
        ensures
            r == image(self.root, total_square(snapshot(*g), ps@, ps@.len() as int)),
    {
        let square: T = Self::total_square(g, ps);
        assert(call_requires(self.root, (square,)));
        let norm: T = (self.root)(square);
        assert(call_ensures(self.root, (square,), norm));
        norm
    }

    /// The square of the joint length of the gradients.
    #[must_use]
    pub fn total_square<O>(g: &Graph<T, O>, ps: &[Parameter]) -> (r: T)
        requires
            g.wf(),
            owns_all(*g, ps@),
        ensures
            r == total_square(snapshot(*g), ps@, ps@.len() as int),
    {
        let n: usize = ps.len();
        let mut total: T = T::zero();
        let mut i: usize = 0;
        while i < n
            invariant
                i <= n,
                n == ps@.len(),
                g.wf(),
                owns_all(*g, ps@),
                total == total_square(snapshot(*g), ps@, i as int),
            decreases n - i,
        {
            let p: Parameter = ps[i];
            proof {
                assert(g.has(ps@[i as int].variable));
                assert(g.node_ok(p.variable.id as int));
            }
            if let Some(v) = p.variable.grad(g) {
                assert(snapshot(*g).arrays[v.id as int] == g.array(v));
                if let Some(t) = v.data(g) {
                    let m: usize = t.data.len();
                    let mut squares: T = T::zero();
                    let mut k: usize = 0;
                    while k < m
                        invariant
                            k <= m,
                            m == t.data@.len(),
                            squares == square_sum(t.data@, k as int),
                        decreases m - k,
                    {
                        squares = squares.add(t.data[k].mul(t.data[k]));
                        k = k + 1;
                    }
                    total = total.add(squares);
                }
            }
            i = i + 1;
        }
        total
    }

    /// Scales the gradients down.
    pub fn shrink<O>(g: &mut Graph<T, O>, ps: &[Parameter], rate: T)
        requires
            old(g).wf(),
            owns_all(*old(g), ps@),
            all_fit(snapshot(*old(g)), ps@),
        ensures
            final(g).wf(),
            only_training(*old(g), *final(g)),
            snapshot(*final(g)) == shrink(snapshot(*old(g)), ps@, rate, ps@.len() as int),
            same_shapes(snapshot(*old(g)), snapshot(*final(g))),
            all_fit(snapshot(*final(g)), ps@),
    {
        let ghost start = *g;
        let ghost s = snapshot(*g);
        let n: usize = ps.len();
        let mut i: usize = 0;
        assert(g.nodes.len() == g.nodes@.len());
        while i < n
            invariant
                i <= n,
                n == ps@.len(),
                start.nodes@.len() <= usize::MAX,
                owns_all(start, ps@),
                s == snapshot(start),
                g.wf(),
                only_training(start, *g),
                same_shapes(s, snapshot(*g)),
                all_fit(snapshot(*g), ps@),
                snapshot(*g) == shrink(s, ps@, rate, i as int),
            decreases n - i,
        {
            let p: Parameter = ps[i];
            let ghost mid = *g;
            proof {
                assert(start.has(ps@[i as int].variable));
                assert(owns_all(mid, ps@)) by {
                    assert forall|k: int| 0 <= k < ps@.len() implies mid.has(
                        (#[trigger] ps@[k]).variable,
                    ) by {
                        assert(start.has(ps@[k].variable));
                    }
                }
                lemma_grads_in(mid, ps@);
                assert(mid.node_ok(p.variable.id as int));
            }
            if let Some(v) = p.variable.grad(g) {
                proof {
                    assert(mid.node_ok(v.id as int));
                    assert(snapshot(mid).arrays[v.id as int] == mid.array(v));
                }
                let fresh: Option<Tensor<T>> = match v.data(g) {
                    Some(t) => Some(crate::layers::linear::scaled(t, rate)),
                    None => None,
                };
                if let Some(t) = fresh {
                    let ghost tensor = t;
                    v.set_data(g, t);
                    proof {
                        lemma_set_array(mid, *g, v, tensor);
                        crate::optim::lemma_only_training(start, mid, *g);
                        lemma_same_shapes(s, snapshot(mid), v, tensor@, ps@);
                    }
                }
            }
            i = i + 1;
        }
    }
}

impl<T: Scalar, O, R: Fn(T) -> T> Hook<T, O> for ClipGrad<T, R> {
    open spec fn rewrites(
        &self,
        before: Snapshot<T>,
        after: Snapshot<T>,
        ps: Seq<Parameter>,
    ) -> bool {
        let rate = clip_rate(*self, before, ps);
        after == if one_or_more(rate) {
            before
        } else {
            shrink(before, ps, rate, ps.len() as int)
        }
    }

    open spec fn belongs(&self, n: nat) -> bool {
        is_function(self.root)
    }

    fn call(&self, g: &mut Graph<T, O>, ps: &[Parameter])
        ensures
            gradients_apart(snapshot(*old(g)), ps@) && (forall|i: int|
                0 <= i < ps@.len() ==> snapshot(*old(g)).grad(#[trigger] ps@[i]) is Some)
                ==> is_clipped(
                snapshot(*old(g)),
                snapshot(*final(g)),
                ps@,
                self.max_norm.over(
                    image(self.root, joint_square(snapshot(*old(g)), ps@)).plus(self.margin),
                ),
            ),
    {
        proof {
            let s = snapshot(*g);
            if gradients_apart(s, ps@) && forall|i: int|
                0 <= i < ps@.len() ==> s.grad(#[trigger] ps@[i]) is Some {
                let after = if one_or_more(clip_rate(*self, s, ps@)) {
                    s
                } else {
                    shrink(s, ps@, clip_rate(*self, s, ps@), ps@.len() as int)
                };
                clipping_scales_all_gradients_alike::<T, O, R>(
                    *self,
                    s,
                    after,
                    ps@,
                    self.max_norm.over(
                        image(self.root, joint_square(s, ps@)).plus(self.margin),
                    ),
                );
            }
        }
        let norm: T = self.total_norm(g, ps);
        let rate: T = self.max_norm.div(norm.add(self.margin));
        if is_ordered(rate) && !T::one().gt(rate) {
            return;
        }
        Self::shrink(g, ps, rate);
    }
}

/// Keeps parameters as they are, by clearing their gradients before every step.
#[derive(Debug, Clone)]
pub struct FreezeParam {
    pub frozen: Vec<Parameter>,
}

impl Default for FreezeParam {
    fn default() -> (r: FreezeParam)
        ensures
            r.frozen@.len() == 0,
    {
        FreezeParam { frozen: Vec::new() }
    }
}

impl FreezeParam {
    #[must_use]
    pub fn new(params: Vec<Parameter>) -> (r: FreezeParam)
        ensures
            r.frozen@ == params@,
    {
        FreezeParam { frozen: params }
    }

    /// Freezes every parameter of a layer and of those below it.
    #[must_use]
    pub fn from_layer<L: Layer>(layer: &L) -> (r: FreezeParam)
        ensures
            r.frozen@ == layer.tree_spec().params(),
    {
        FreezeParam { frozen: layer.params() }
    }

    /// Freezes those of one more layer as well.
    #[must_use]
    pub fn and_layer<L: Layer>(self, layer: &L) -> (r: FreezeParam)
        ensures
            r.frozen@ == self.frozen@ + layer.tree_spec().params(),
    {
        let mut frozen = self.frozen;
        let more = layer.params();
        let ghost before = frozen@;
        let n: usize = more.len();
        let mut i: usize = 0;
        while i < n
            invariant
                i <= n,
                n == more@.len(),
                frozen@ == before + more@.take(i as int),
            decreases n - i,
        {
            frozen.push(more[i]);
            assert(frozen@ =~= before + more@.take(i + 1));
            i = i + 1;
        }
        assert(more@.take(n as int) =~= more@);
        FreezeParam { frozen }
    }

    /// Freezes one more parameter.
    #[must_use]
    pub fn and_param(self, param: Parameter) -> (r: FreezeParam)
        ensures
            r.frozen@ == self.frozen@.push(param),
    {
        let mut frozen = self.frozen;
        frozen.push(param);
        FreezeParam { frozen }
    }

    /// What is frozen.
    #[must_use]
    pub fn params(&self) -> (r: &[Parameter])
        ensures
            r@ == self.frozen@,
    {
        self.frozen.as_slice()
    }
}

/// The gradients without those of the listed parameters.
pub open spec fn frozen<T>(s: Snapshot<T>, ps: Seq<Parameter>) -> Snapshot<T> {
    Snapshot {
        arrays: s.arrays,
        grads: Seq::new(
            s.grads.len(),
            |i: int|
                if ps.contains(Parameter { variable: Variable { id: i as usize } }) {
                    None
                } else {
                    s.grads[i]
                },
        ),
    }
}

impl<T: Scalar, O> Hook<T, O> for FreezeParam {
    open spec fn rewrites(
        &self,
        before: Snapshot<T>,
        after: Snapshot<T>,
        ps: Seq<Parameter>,
    ) -> bool {
        after == frozen(before, self.frozen@)
    }

    open spec fn belongs(&self, n: nat) -> bool {
        forall|i: int| 0 <= i < self.frozen@.len() ==> (#[trigger] self.frozen@[i]).variable.id < n
    }

    fn call(&self, g: &mut Graph<T, O>, ps: &[Parameter]) {
        let ghost start = *g;
        assert(g.nodes.len() == g.nodes@.len());
        clear_gradients(g, self.frozen.as_slice());
        proof {
            let s = snapshot(start);
            let now = snapshot(*g);
            assert forall|i: int| 0 <= i < now.arrays.len() implies now.arrays[i] == s.arrays[i] by {
                assert(g.nodes@[i].data == start.nodes@[i].data);
            }
            assert(now.arrays =~= s.arrays);
            assert(now =~= frozen(s, self.frozen@));
            assert forall|i: int| 0 <= i < ps@.len() implies now.fits(#[trigger] ps@[i]) by {
                assert(s.fits(ps@[i]));
                assert(start.has(ps@[i].variable));
            }
        }
    }
}

/// A frozen parameter has no gradient when the step comes, so that the step leaves it
/// alone.
pub proof fn a_frozen_parameter_has_no_gradient<T>(
    s: Snapshot<T>,
    ps: Seq<Parameter>,
    p: Parameter,
)
    requires
        ps.contains(p),
        p.variable.id < s.grads.len(),
    ensures
        frozen(s, ps).grad(p) is None,
        frozen(s, ps).data(p) == s.data(p),
{
}

} // verus!
