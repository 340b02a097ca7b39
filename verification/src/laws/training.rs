//! What optimizers and their hooks do to parameters, element by element.
use crate::engine::parameter::Parameter;
use crate::functions::basic_math::image;
use crate::laws::elements::sum_of;
use crate::optim::hooks::{
    decay, shrink, square_sum, total_square, ClipGrad, FreezeParam, WeightDecay,
};
use crate::optim::momentum::MomentumSgd;
use crate::optim::sgd::Sgd;
use crate::optim::{all_stepped, hooked, pending, Hook, Optimizer, Snapshot};
use crate::scalar::Scalar;
use crate::tensor::Array;
use vstd::prelude::*;

verus! {

// ---------------------------------------------------------------------------
// words
// ---------------------------------------------------------------------------
/// Whether every parameter is listed once, and none of them serves as a gradient.
pub open spec fn apart<T>(s: Snapshot<T>, ps: Seq<Parameter>) -> bool {
    &&& ps.no_duplicates()
    &&& s.grads.len() == s.arrays.len()
    &&& forall|i: int| 0 <= i < ps.len() ==> (#[trigger] ps[i]).variable.id < s.arrays.len()
    &&& forall|i: int|
        0 <= i < ps.len() ==> (s.grads[(#[trigger] ps[i]).variable.id as int] matches Some(v)
            ==> v.id < s.arrays.len())
    &&& forall|i: int, j: int|
        0 <= i < ps.len() && 0 <= j < ps.len() ==> s.grads[(#[trigger] ps[i]).variable.id as int]
            != Some((#[trigger] ps[j]).variable)
}

/// Whether, besides, no two parameters share a gradient.
pub open spec fn gradients_apart<T>(s: Snapshot<T>, ps: Seq<Parameter>) -> bool {
    &&& apart(s, ps)
    &&& forall|i: int, j: int|
        0 <= i < ps.len() && 0 <= j < ps.len() && i != j ==> {
            ||| s.grads[(#[trigger] ps[i]).variable.id as int] is None
            ||| s.grads[ps[i].variable.id as int] != s.grads[(
            #[trigger] ps[j]).variable.id as int]
        }
}

/// Whether `y` is `x` less the gradient `g` times the rate.
pub open spec fn is_against<T: Scalar>(y: Array<T>, x: Array<T>, g: Array<T>, rate: T) -> bool {
    &&& y.shape == x.shape
    &&& y.data.len() == x.data.len()
    &&& forall|k: int|
        0 <= k < x.data.len() ==> #[trigger] y.data[k] == x.data[k].minus(g.data[k].times(rate))
}

/// Whether the velocity `v` is the share `momentum` of `was`, less the gradient times the
/// rate.
pub open spec fn is_pushed<T: Scalar>(
    v: Array<T>,
    was: Array<T>,
    g: Array<T>,
    rate: T,
    momentum: T,
) -> bool {
    &&& v.shape == was.shape
    &&& v.data.len() == was.data.len()
    &&& forall|k: int|
        0 <= k < was.data.len() ==> #[trigger] v.data[k] == was.data[k].times(momentum).minus(
            g.data[k].times(rate),
        )
}

/// Whether `y` is `x` plus the velocity `v`.
pub open spec fn is_carried<T: Scalar>(y: Array<T>, x: Array<T>, v: Array<T>) -> bool {
    &&& y.shape == x.shape
    &&& y.data.len() == x.data.len()
    &&& forall|k: int| 0 <= k < x.data.len() ==> #[trigger] y.data[k] == x.data[k].plus(v.data[k])
}

/// Whether `was` is at rest: nought everywhere, in the shape of `x`.
pub open spec fn at_rest<T: Scalar>(was: Array<T>, x: Array<T>) -> bool {
    &&& was.shape == x.shape
    &&& was.data.len() == x.data.len()
    &&& forall|k: int| 0 <= k < x.data.len() ==> #[trigger] was.data[k] == T::zero_spec()
}

/// Whether the gradient `h` is `g` plus the parameter `x` times the rate.
pub open spec fn is_decayed<T: Scalar>(h: Array<T>, g: Array<T>, x: Array<T>, rate: T) -> bool {
    &&& h.shape == g.shape
    &&& h.data.len() == g.data.len()
    &&& forall|k: int|
        0 <= k < g.data.len() ==> #[trigger] h.data[k] == g.data[k].plus(x.data[k].times(rate))
}

/// Whether the gradient `h` is `g` times the rate.
pub open spec fn is_scaled<T: Scalar>(h: Array<T>, g: Array<T>, rate: T) -> bool {
    &&& h.shape == g.shape
    &&& h.data.len() == g.data.len()
    &&& forall|k: int| 0 <= k < g.data.len() ==> #[trigger] h.data[k] == g.data[k].times(rate)
}

/// The squares of the elements of one gradient, added up.
pub open spec fn squares_of<T: Scalar>(g: Array<T>) -> T {
    sum_of(g.data.len() as int, |k: int| g.data[k].times(g.data[k]))
}

/// The squares of the elements of all gradients, added up.
pub open spec fn joint_square<T: Scalar>(s: Snapshot<T>, ps: Seq<Parameter>) -> T {
    sum_of(ps.len() as int, |i: int| squares_of(s.grad(ps[i])->0))
}

/// Whether `b` differs from `a` at most in the arrays of these variables.
pub open spec fn differs_only_at<T>(a: Snapshot<T>, b: Snapshot<T>, ps: Seq<Parameter>) -> bool {
    &&& b.grads == a.grads
    &&& b.arrays.len() == a.arrays.len()
    &&& forall|i: int|
        0 <= i < a.arrays.len() && (forall|j: int|
            0 <= j < ps.len() ==> (#[trigger] ps[j]).variable.id != i) ==> #[trigger] b.arrays[i]
            == a.arrays[i]
}

/// Whether decay did to one parameter what it does: the parameter stays, and its gradient
/// gets the parameter times the rate added to it, where both are there.
pub open spec fn is_pulled<T: Scalar>(
    before: Snapshot<T>,
    after: Snapshot<T>,
    p: Parameter,
    rate: T,
) -> bool {
    &&& after.data(p) == before.data(p)
    &&& match (before.data(p), before.grad(p)) {
        (Some(x), Some(g)) => after.grad(p) is Some && is_decayed(after.grad(p)->0, g, x, rate),
        _ => after.grad(p) == before.grad(p),
    }
}

/// Whether gradients were clipped by `rate`: scaled by it where it lies below one, and left
/// alone where it is positive and does not.
pub open spec fn is_clipped<T: Scalar>(
    before: Snapshot<T>,
    after: Snapshot<T>,
    ps: Seq<Parameter>,
    rate: T,
) -> bool {
    &&& T::one_spec().exceeds(rate) ==> forall|i: int|
        0 <= i < ps.len() ==> {
            &&& after.data(#[trigger] ps[i]) == before.data(ps[i])
            &&& after.grad(ps[i]) is Some
            &&& is_scaled(after.grad(ps[i])->0, before.grad(ps[i])->0, rate)
        }
    &&& rate.exceeds(T::zero_spec()) && !T::one_spec().exceeds(rate) ==> after == before
}

// ---------------------------------------------------------------------------
// plain descent
// ---------------------------------------------------------------------------
/// A step of plain descent takes from a parameter its gradient times the rate, and changes
/// nothing else.
pub proof fn a_step_goes_against_the_gradient<T: Scalar, O, H: Hook<T, O>>(
    o: Sgd<T, H>,
    o_after: Sgd<T, H>,
    before: Snapshot<T>,
    now: Snapshot<T>,
    p: Parameter,
    x: Array<T>,
    g: Array<T>,
)
    requires
        p.variable.id < before.arrays.len(),
        before.data(p) == Some(x),
        before.grad(p) == Some(g),
        Optimizer::<T, O, H>::stepped(&o, o_after, before, now, p),
    ensures
        now.data(p) matches Some(y) && is_against(y, x, g, o.learning_rate),
        differs_only_at(before, now, seq![p]),
        o_after == o,
{
    assert(seq![p][0] == p);
}

/// Where each parameter is by the time that the first `k` have been stepped.
proof fn lemma_descends<T: Scalar, O, H: Hook<T, O>>(
    o: Sgd<T, H>,
    o_after: Sgd<T, H>,
    before: Snapshot<T>,
    after: Snapshot<T>,
    ps: Seq<Parameter>,
    k: int,
)
    requires
        0 <= k <= ps.len(),
        apart(before, ps),
        all_stepped::<T, O, H, Sgd<T, H>>(o, o_after, before, after, ps, k),
    ensures
        o_after == o,
        differs_only_at(before, after, ps.take(k)),
        forall|i: int|
            0 <= i < ps.len() ==> before.grad(#[trigger] ps[i]) == after.grad(ps[i]),
        forall|i: int|
            k <= i < ps.len() ==> before.data(#[trigger] ps[i]) == after.data(ps[i]),
        forall|i: int|
            0 <= i < k ==> match (before.data(#[trigger] ps[i]), before.grad(ps[i])) {
                (Some(x), Some(g)) => after.data(ps[i]) is Some && is_against(
                    after.data(ps[i])->0,
                    x,
                    g,
                    o.learning_rate,
                ),
                _ => after.data(ps[i]) == before.data(ps[i]),
            },
    decreases k,
{
    if k > 0 {
        let p = ps[k - 1];
        let (o_mid, mid) = choose|o_mid: Sgd<T, H>, mid: Snapshot<T>|
            all_stepped::<T, O, H, Sgd<T, H>>(o, o_mid, before, mid, ps, k - 1)
                && #[trigger] Optimizer::<T, O, H>::stepped(&o_mid, o_after, mid, after, p);
        lemma_descends::<T, O, H>(o, o_mid, before, mid, ps, k - 1);
        assert(p.variable.id < before.arrays.len());
        assert(differs_only_at(mid, after, seq![p])) by {
            assert(seq![p][0] == p);
        }
        assert forall|i: int| 0 <= i < ps.len() implies before.grad(#[trigger] ps[i]) == after.grad(
            ps[i],
        ) by {
            assert(before.grads[ps[i].variable.id as int] != Some(ps[k - 1].variable));
            assert(before.grad(ps[i]) == mid.grad(ps[i]));
        }
        assert forall|i: int| 0 <= i < ps.len() && i != k - 1 implies after.data(#[trigger] ps[i])
            == mid.data(ps[i]) by {
            assert(ps[i] != ps[k - 1]);
        }
        assert(before.grad(ps[k - 1]) == mid.grad(p));
        assert(before.data(ps[k - 1]) == mid.data(p));
        assert forall|i: int|
            0 <= i < before.arrays.len() && (forall|j: int|
                0 <= j < ps.take(k).len() ==> (#[trigger] ps.take(k)[j]).variable.id
                    != i) implies #[trigger] after.arrays[i] == before.arrays[i] by {
            assert(ps.take(k)[k - 1] == p);
            assert forall|j: int| 0 <= j < ps.take(k - 1).len() implies (#[trigger] ps.take(
                k - 1,
            )[j]).variable.id != i by {
                assert(ps.take(k)[j] == ps.take(k - 1)[j]);
            }
            assert(mid.arrays[i] == before.arrays[i]);
        }
    }
}

/// The parameters that are stepped are those with a gradient, in the order in which they
/// are registered.
pub proof fn what_has_a_gradient_is_stepped<T>(s: Snapshot<T>, ps: Seq<Parameter>)
    ensures
        pending(s, ps, ps.len() as int) == ps.filter(
            |p: Parameter| s.grads[p.variable.id as int] is Some,
        ),
    decreases ps.len(),
{
    let test = |p: Parameter| s.grads[p.variable.id as int] is Some;
    reveal(Seq::filter);
    if ps.len() > 0 {
        let less = ps.drop_last();
        what_has_a_gradient_is_stepped(s, less);
        lemma_pending_of_more(s, ps, less, less.len() as int);
        assert(pending(s, ps, ps.len() as int) == if test(ps.last()) {
            less.filter(test).push(ps.last())
        } else {
            less.filter(test)
        });
    }
}

proof fn lemma_pending_of_more<T>(
    s: Snapshot<T>,
    ps: Seq<Parameter>,
    less: Seq<Parameter>,
    k: int,
)
    requires
        k <= less.len() <= ps.len(),
        less == ps.take(less.len() as int),
    ensures
        pending(s, ps, k) == pending(s, less, k),
    decreases k,
{
    if k > 0 {
        lemma_pending_of_more(s, ps, less, k - 1);
        assert(less[k - 1] == ps[k - 1]);
    }
}

proof fn lemma_pending_members<T>(s: Snapshot<T>, ps: Seq<Parameter>, k: int)
    requires
        0 <= k <= ps.len(),
        ps.no_duplicates(),
    ensures
        pending(s, ps, k).no_duplicates(),
        forall|p: Parameter| #[trigger]
            pending(s, ps, k).contains(p) <==> ps.take(k).contains(p)
                && s.grads[p.variable.id as int] is Some,
    decreases k,
{
    let now = pending(s, ps, k);
    if k > 0 {
        let was = pending(s, ps, k - 1);
        let last = ps[k - 1];
        lemma_pending_members(s, ps, k - 1);
        assert(ps.take(k) =~= ps.take(k - 1).push(last));
        assert(!ps.take(k - 1).contains(last)) by {
            if ps.take(k - 1).contains(last) {
                let i = ps.take(k - 1).index_of(last);
                assert(ps[i] == ps[k - 1]);
            }
        }
        assert(!was.contains(last));
        assert forall|p: Parameter| #[trigger] now.contains(p) <==> ps.take(k).contains(p)
            && s.grads[p.variable.id as int] is Some by {
            assert(ps.take(k).contains(p) <==> ps.take(k - 1).contains(p) || p == last) by {
                assert(ps.take(k)[k - 1] == last);
                if ps.take(k - 1).contains(p) {
                    let i = ps.take(k - 1).index_of(p);
                    assert(ps.take(k)[i] == p);
                }
                if ps.take(k).contains(p) && p != last {
                    let i = ps.take(k).index_of(p);
                    assert(ps.take(k - 1)[i] == p);
                }
            }
            if s.grads[last.variable.id as int] is Some {
                assert(now == was.push(last));
                assert(now.contains(p) <==> was.contains(p) || p == last) by {
                    assert(now[was.len() as int] == last);
                    if was.contains(p) {
                        assert(now[was.index_of(p)] == p);
                    }
                    if now.contains(p) && p != last {
                        assert(was[now.index_of(p)] == p);
                    }
                }
            }
        }
        assert(now.no_duplicates()) by {
            if s.grads[last.variable.id as int] is Some {
                assert forall|i: int, j: int|
                    0 <= i < now.len() && 0 <= j < now.len() && i != j implies now[i] != now[j] by {
                    if i < was.len() {
                        assert(was.contains(was[i]));
                    }
                    if j < was.len() {
                        assert(was.contains(was[j]));
                    }
                }
            }
        }
    }
}

/// Without hooks, an update of plain descent takes from every parameter that has a gradient
/// that gradient times the rate, once, and leaves everything else as it was.
pub proof fn an_update_descends_once<T: Scalar, O, H: Hook<T, O>>(
    o: Sgd<T, H>,
    o_after: Sgd<T, H>,
    s: Snapshot<T>,
    mid: Snapshot<T>,
    after: Snapshot<T>,
)
    requires
        o.hooks@.len() == 0,
        apart(s, o.params@),
        hooked::<T, O, H>(
            o.hooks@,
            s,
            mid,
            pending(s, o.params@, o.params@.len() as int),
            o.hooks@.len() as int,
        ),
        all_stepped::<T, O, H, Sgd<T, H>>(
            o,
            o_after,
            mid,
            after,
            pending(s, o.params@, o.params@.len() as int),
            pending(s, o.params@, o.params@.len() as int).len() as int,
        ),
    ensures
        o_after == o,
        differs_only_at(s, after, o.params@),
        forall|i: int|
            0 <= i < o.params@.len() ==> match (s.data(#[trigger] o.params@[i]), s.grad(
                o.params@[i],
            )) {
                (Some(x), Some(g)) => after.data(o.params@[i]) is Some && is_against(
                    after.data(o.params@[i])->0,
                    x,
                    g,
                    o.learning_rate,
                ),
                _ => after.data(o.params@[i]) == s.data(o.params@[i]),
            },
{
    let all = o.params@;
    let ps = pending(s, all, all.len() as int);
    lemma_pending_members(s, all, all.len() as int);
    assert(all.take(all.len() as int) =~= all);
    assert(mid == s);
    assert forall|i: int| 0 <= i < ps.len() implies exists|j: int|
        0 <= j < all.len() && all[j] == #[trigger] ps[i] by {
        assert(ps.contains(ps[i]));
        let j = all.index_of(ps[i]);
        assert(all[j] == ps[i]);
    }
    assert(apart(s, ps)) by {
        assert forall|i: int, j: int| 0 <= i < ps.len() && 0 <= j < ps.len() implies s.grads[(
        #[trigger] ps[i]).variable.id as int] != Some((#[trigger] ps[j]).variable) by {
            let a = choose|a: int| 0 <= a < all.len() && all[a] == ps[i];
            let b = choose|b: int| 0 <= b < all.len() && all[b] == ps[j];
            assert(s.grads[all[a].variable.id as int] != Some(all[b].variable));
        }
    }
    lemma_descends::<T, O, H>(o, o_after, s, after, ps, ps.len() as int);
    assert(ps.take(ps.len() as int) =~= ps);
    assert forall|i: int|
        0 <= i < s.arrays.len() && (forall|j: int|
            0 <= j < all.len() ==> (#[trigger] all[j]).variable.id
                != i) implies #[trigger] after.arrays[i] == s.arrays[i] by {
        assert forall|j: int| 0 <= j < ps.len() implies (#[trigger] ps[j]).variable.id != i by {
            let a = choose|a: int| 0 <= a < all.len() && all[a] == ps[j];
            assert(all[a].variable.id != i);
        }
    }
    assert forall|i: int| 0 <= i < all.len() implies match (s.data(#[trigger] all[i]), s.grad(
        all[i],
    )) {
        (Some(x), Some(g)) => after.data(all[i]) is Some && is_against(
            after.data(all[i])->0,
            x,
            g,
            o.learning_rate,
        ),
        _ => after.data(all[i]) == s.data(all[i]),
    } by {
        let p = all[i];
        assert(all.contains(p));
        if s.grads[p.variable.id as int] is Some {
            assert(ps.contains(p));
            let j = ps.index_of(p);
            assert(ps[j] == p);
        } else {
            assert(!ps.contains(p));
            assert forall|j: int| 0 <= j < ps.len() implies (#[trigger] ps[j]).variable.id
                != p.variable.id by {
                if ps[j].variable.id == p.variable.id {
                    assert(ps[j] == p);
                    assert(ps.contains(ps[j]));
                }
            }
        }
    }
}

// ---------------------------------------------------------------------------
// momentum
// ---------------------------------------------------------------------------
/// A step with momentum keeps a share of the velocity, takes the gradient times the rate
/// from it, and moves the parameter by the result. The velocity starts from rest, and is
/// there again for the next step.
pub proof fn a_velocity_is_kept_and_pushed<T: Scalar, O, H: Hook<T, O>>(
    o: MomentumSgd<T, H>,
    o_after: MomentumSgd<T, H>,
    before: Snapshot<T>,
    now: Snapshot<T>,
    p: Parameter,
    x: Array<T>,
    g: Array<T>,
)
    requires
        p.variable.id < before.arrays.len(),
        before.data(p) == Some(x),
        before.grad(p) == Some(g),
        x.wf(),
        Optimizer::<T, O, H>::stepped(&o, o_after, before, now, p),
    ensures
        differs_only_at(before, now, seq![p]),
        o_after.learning_rate == o.learning_rate,
        o_after.momentum == o.momentum,
        o_after.velocity_spec(p) is Some,
        ({
            let v = o_after.velocity_spec(p)->0;
            &&& now.data(p) matches Some(y) && is_carried(y, x, v)
            &&& match o.velocity_spec(p) {
                Some(was) => is_pushed(v, was, g, o.learning_rate, o.momentum),
                None => exists|was: Array<T>|
                    at_rest(was, x) && #[trigger] is_pushed(
                        v,
                        was,
                        g,
                        o.learning_rate,
                        o.momentum,
                    ),
            }
        }),
{
    assert(seq![p][0] == p);
    let was = o.starting(p, x);
    assert(is_pushed(o_after.velocity_spec(p)->0, was, g, o.learning_rate, o.momentum));
    if o.velocity_spec(p) is None {
        assert(at_rest(was, x));
    }
}

// ---------------------------------------------------------------------------
// hooks
// ---------------------------------------------------------------------------
/// Hooks run one after the other, each on what the one before has left.
pub proof fn hooks_run_in_order<T: Scalar, O, H: Hook<T, O>>(
    hooks: Seq<H>,
    before: Snapshot<T>,
    after: Snapshot<T>,
    ps: Seq<Parameter>,
    k: int,
) -> (ss: Seq<Snapshot<T>>)
    requires
        0 <= k <= hooks.len(),
        hooked::<T, O, H>(hooks, before, after, ps, k),
    ensures
        ss.len() == k + 1,
        ss[0] == before,
        ss[k] == after,
        forall|i: int| 0 <= i < k ==> (#[trigger] hooks[i]).rewrites(ss[i], ss[i + 1], ps),
    decreases k,
{
    if k == 0 {
        seq![before]
    } else {
        let mid = choose|mid: Snapshot<T>|
            hooked::<T, O, H>(hooks, before, mid, ps, k - 1) && #[trigger] hooks[k - 1].rewrites(
                mid,
                after,
                ps,
            );
        let ss = hooks_run_in_order::<T, O, H>(hooks, before, mid, ps, k - 1);
        ss.push(after)
    }
}

/// Where the gradients are by the time that the first `k` have decayed.
proof fn lemma_decays<T: Scalar>(s: Snapshot<T>, ps: Seq<Parameter>, rate: T, k: int)
    requires
        0 <= k <= ps.len(),
        gradients_apart(s, ps),
    ensures
        ({
            let after = decay(s, ps, rate, k);
            &&& after.grads == s.grads
            &&& after.arrays.len() == s.arrays.len()
            &&& forall|i: int|
                0 <= i < ps.len() ==> after.data(#[trigger] ps[i]) == s.data(ps[i])
            &&& forall|i: int|
                k <= i < ps.len() ==> after.grad(#[trigger] ps[i]) == s.grad(ps[i])
            &&& forall|i: int|
                0 <= i < k ==> match (s.data(#[trigger] ps[i]), s.grad(ps[i])) {
                    (Some(x), Some(g)) => after.grad(ps[i]) is Some && is_decayed(
                        after.grad(ps[i])->0,
                        g,
                        x,
                        rate,
                    ),
                    _ => after.grad(ps[i]) == s.grad(ps[i]),
                }
        }),
    decreases k,
{
    if k > 0 {
        lemma_decays(s, ps, rate, k - 1);
        let was = decay(s, ps, rate, k - 1);
        let after = decay(s, ps, rate, k);
        let p = ps[k - 1];
        assert(was.data(ps[k - 1]) == s.data(p) && was.grad(ps[k - 1]) == s.grad(p));
        assert forall|i: int| 0 <= i < ps.len() implies after.data(#[trigger] ps[i]) == s.data(
            ps[i],
        ) by {
            assert(s.grads[ps[k - 1].variable.id as int] != Some(ps[i].variable));
        }
        assert forall|i: int| 0 <= i < ps.len() && i != k - 1 implies after.grad(#[trigger] ps[i])
            == was.grad(ps[i]) by {
            assert(s.grads[ps[i].variable.id as int] is None || s.grads[ps[i].variable.id as int]
                != s.grads[ps[k - 1].variable.id as int]);
        }
    }
}

/// Weight decay adds to every gradient the parameter times the rate, and leaves the
/// parameters alone.
pub proof fn decay_adds_a_share_of_the_parameter<T: Scalar, O>(
    hook: WeightDecay<T>,
    before: Snapshot<T>,
    after: Snapshot<T>,
    ps: Seq<Parameter>,
    i: int,
)
    requires
        gradients_apart(before, ps),
        0 <= i < ps.len(),
        Hook::<T, O>::rewrites(&hook, before, after, ps),
    ensures
        is_pulled(before, after, ps[i], hook.rate),
{
    lemma_decays(before, ps, hook.rate, ps.len() as int);
}

/// Where the gradients are by the time that the first `k` have been scaled.
proof fn lemma_shrinks<T: Scalar>(s: Snapshot<T>, ps: Seq<Parameter>, rate: T, k: int)
    requires
        0 <= k <= ps.len(),
        gradients_apart(s, ps),
    ensures
        ({
            let after = shrink(s, ps, rate, k);
            &&& after.grads == s.grads
            &&& after.arrays.len() == s.arrays.len()
            &&& forall|i: int|
                0 <= i < ps.len() ==> after.data(#[trigger] ps[i]) == s.data(ps[i])
            &&& forall|i: int|
                k <= i < ps.len() ==> after.grad(#[trigger] ps[i]) == s.grad(ps[i])
            &&& forall|i: int|
                0 <= i < k ==> match s.grad(#[trigger] ps[i]) {
                    Some(g) => after.grad(ps[i]) is Some && is_scaled(
                        after.grad(ps[i])->0,
                        g,
                        rate,
                    ),
                    None => after.grad(ps[i]) is None,
                }
        }),
    decreases k,
{
    if k > 0 {
        lemma_shrinks(s, ps, rate, k - 1);
        let was = shrink(s, ps, rate, k - 1);
        let after = shrink(s, ps, rate, k);
        let p = ps[k - 1];
        assert(was.data(ps[k - 1]) == s.data(p) && was.grad(ps[k - 1]) == s.grad(p));
        assert forall|i: int| 0 <= i < ps.len() implies after.data(#[trigger] ps[i]) == s.data(
            ps[i],
        ) by {
            assert(s.grads[ps[k - 1].variable.id as int] != Some(ps[i].variable));
        }
        assert forall|i: int| 0 <= i < ps.len() && i != k - 1 implies after.grad(#[trigger] ps[i])
            == was.grad(ps[i]) by {
            assert(s.grads[ps[i].variable.id as int] is None || s.grads[ps[i].variable.id as int]
                != s.grads[ps[k - 1].variable.id as int]);
        }
    }
}

proof fn lemma_square_sum<T: Scalar>(data: Seq<T>, n: int)
    ensures
        square_sum(data, n) == sum_of(n, |k: int| data[k].times(data[k])),
    decreases n,
{
    if n > 0 {
        lemma_square_sum(data, n - 1);
    }
}

proof fn lemma_total_square<T: Scalar>(s: Snapshot<T>, ps: Seq<Parameter>, n: int)
    requires
        n <= ps.len(),
        forall|i: int| 0 <= i < ps.len() ==> s.grad(#[trigger] ps[i]) is Some,
    ensures
        total_square(s, ps, n) == sum_of(n, |i: int| squares_of(s.grad(ps[i])->0)),
    decreases n,
{
    if n > 0 {
        lemma_total_square(s, ps, n - 1);
        let g = s.grad(ps[n - 1])->0;
        lemma_square_sum(g.data, g.data.len() as int);
        assert(squares_of(g) == square_sum(g.data, g.data.len() as int)) by {
            crate::laws::images::lemma_same_terms(
                g.data.len() as int,
                |k: int| g.data[k].times(g.data[k]),
                |k: int| g.data[k].times(g.data[k]),
            );
        }
    }
}

/// Clipping compares the length that is allowed with the joint length of all gradients. A
/// quotient below one scales every element of every gradient; a positive one that is not
/// leaves them as they are.
pub proof fn clipping_scales_all_gradients_alike<T: Scalar, O, R: Fn(T) -> T>(
    hook: ClipGrad<T, R>,
    before: Snapshot<T>,
    after: Snapshot<T>,
    ps: Seq<Parameter>,
    rate: T,
)
    requires
        gradients_apart(before, ps),
        forall|i: int| 0 <= i < ps.len() ==> before.grad(#[trigger] ps[i]) is Some,
        Hook::<T, O>::rewrites(&hook, before, after, ps),
        rate == hook.max_norm.over(
            image(hook.root, joint_square(before, ps)).plus(hook.margin),
        ),
    ensures
        is_clipped(before, after, ps, rate),
{
    lemma_total_square(before, ps, ps.len() as int);
    lemma_shrinks(before, ps, rate, ps.len() as int);
}

/// Freezing takes their gradients from the frozen parameters and from no others, so that a
/// step of plain descent leaves them where they are.
pub proof fn freezing_spares_the_others<T: Scalar, O>(
    hook: FreezeParam,
    before: Snapshot<T>,
    after: Snapshot<T>,
    ps: Seq<Parameter>,
    p: Parameter,
)
    requires
        p.variable.id < before.arrays.len(),
        before.grads.len() == before.arrays.len(),
        Hook::<T, O>::rewrites(&hook, before, after, ps),
    ensures
        after.data(p) == before.data(p),
        hook.frozen@.contains(p) ==> after.grad(p) is None,
        !hook.frozen@.contains(p) ==> after.grad(p) == before.grad(p),
{
    assert(p == Parameter { variable: crate::engine::graph::Variable { id: p.variable.id } });
}

} // verus!
