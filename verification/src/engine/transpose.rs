//! What a backward pass computes: the transpose of how changes spread forward.
//!
//! Suppose every variable changes a little, each output by what its function makes of the
//! changes of its inputs. The gradients that a pass leaves behind weigh those changes
//! exactly as the gradients it started from did.

use vstd::prelude::*;

use crate::engine::backward::{
    accumulated, call_ready, cleared, output_grads, outputs_of, plus_grad, run, step,
};
use crate::engine::builtin::{held, holds};
use crate::engine::elementwise::{lemma_joint_with_itself, zip_spec, Arithmetic};
use crate::engine::function::Op;
use crate::engine::graph::{Function, Graph, Variable};
use crate::engine::laws::lemma_accumulated_elsewhere;
use crate::engine::rule::shapes;
use crate::engine::schedule::{
    feeds, is_schedule, path, reachable, reachable_functions_are_recorded,
};
use crate::inner::{lemma_cancel, lemma_dot_plus, lemma_dot_zeros};
use crate::remap::dot;
use crate::scalar::{Ring, Scalar};
use crate::tensor::Array;
use crate::utils::shape::{broadcast_spec, broadcasting_to_the_same_shape_is_the_identity};

verus! {

/// A change weighed by a gradient; by none, nothing.
pub open spec fn part<R: Scalar>(change: Array<R>, grad: Option<Array<R>>) -> R {
    match grad {
        Some(grad) => dot(change.data, grad.data, grad.data.len() as int),
        None => R::zero_spec(),
    }
}

/// The changes of the first `n` variables, weighed by their gradients and added up.
pub open spec fn weight<R: Scalar>(
    changes: Seq<Array<R>>,
    grads: Seq<Option<Array<R>>>,
    n: int,
) -> R
    decreases n,
{
    if n <= 0 {
        R::zero_spec()
    } else {
        weight(changes, grads, n - 1).plus(part(changes[n - 1], grads[n - 1]))
    }
}

/// The changes of several arrays, weighed by their gradients and added up.
pub open spec fn paired<R: Scalar>(dxs: Seq<Array<R>>, gxs: Seq<Array<R>>, n: int) -> R
    decreases n,
{
    if n <= 0 {
        R::zero_spec()
    } else {
        paired(dxs, gxs, n - 1).plus(
            dot(dxs[n - 1].data, gxs[n - 1].data, gxs[n - 1].data.len() as int),
        )
    }
}

/// The changes of the listed variables.
pub open spec fn changes_of<R>(changes: Seq<Array<R>>, vs: Seq<Variable>) -> Seq<Array<R>> {
    Seq::new(vs.len(), |i: int| changes[vs[i].id as int])
}

/// Whether the gradient of `v`, if there is one, has the shape of what `v` holds.
pub open spec fn fits<T, O>(g: Graph<T, O>, v: Variable, grad: Option<Array<T>>) -> bool {
    grad matches Some(a) ==> holds(g, v) && a.wf() && a.shape == held(g, v).shape
}

/// Whether every gradient has the shape of what its variable holds.
pub open spec fn all_fit<T, O>(g: Graph<T, O>, grads: Seq<Option<Array<T>>>) -> bool {
    &&& grads.len() == g.nodes@.len()
    &&& forall|v: Variable| g.has(v) ==> fits(g, v, #[trigger] grads[v.id as int])
}

/// Whether a function has one output, which somebody holds, and passes gradients on as
/// the transpose of how the changes spread through it.
pub open spec fn spreads<R: Scalar, O: Op<R>>(
    g: Graph<R, O>,
    changes: Seq<Array<R>>,
    f: Function,
) -> bool {
    let call = g.call(f);
    let y = call.outputs@[0];
    let xs = g.arrays(call.inputs@);
    &&& call_ready(g, f)
    &&& call.outputs@.len() == 1
    &&& g.node(y).alive
    &&& forall|gy: Array<R>|
        gy.wf() && gy.shape == held(g, y).shape ==> {
            let gxs = #[trigger] O::gradient((*call.op).rule(), xs, outputs_of(g, f), seq![gy]);
            &&& shapes(gxs) == shapes(xs)
            &&& forall|i: int| 0 <= i < gxs.len() ==> (#[trigger] gxs[i]).wf()
            &&& paired(changes_of(changes, call.inputs@), gxs, call.inputs@.len() as int) == dot(
                changes[y.id as int].data,
                gy.data,
                gy.data.len() as int,
            )
        }
}

/// Setting one gradient aside.
pub proof fn lemma_weight_split<R: Ring>(
    changes: Seq<Array<R>>,
    grads: Seq<Option<Array<R>>>,
    i: int,
    n: int,
)
    requires
        0 <= i < grads.len(),
        0 <= n <= grads.len(),
    ensures
        weight(changes, grads, n) == if i < n {
            weight(changes, grads.update(i, None), n).plus(part(changes[i], grads[i]))
        } else {
            weight(changes, grads.update(i, None), n)
        },
    decreases n,
{
    if n > 0 {
        lemma_weight_split(changes, grads, i, n - 1);
        let rest = grads.update(i, None);
        let (w, v) = (weight(changes, grads, n - 1), weight(changes, rest, n - 1));
        if i == n - 1 {
            R::zero_is_neutral(v);
        } else if i < n - 1 {
            let (a, b) = (part(changes[i], grads[i]), part(changes[n - 1], grads[n - 1]));
            assert(rest[n - 1] == grads[n - 1]);
            R::plus_associates(v, a, b);
            R::plus_commutes(a, b);
            R::plus_associates(v, b, a);
        } else {
            assert(rest[n - 1] == grads[n - 1]);
        }
    }
}

/// Replacing one gradient by what it is with another one added.
proof fn lemma_weight_added<R: Ring>(
    changes: Seq<Array<R>>,
    grads: Seq<Option<Array<R>>>,
    i: int,
    more: Array<R>,
)
    requires
        0 <= i < grads.len(),
        more.wf(),
        grads[i] matches Some(a) ==> a.wf() && a.shape == more.shape,
    ensures
        weight(
            changes,
            grads.update(i, Some(plus_grad(grads[i], more))),
            grads.len() as int,
        ) == weight(changes, grads, grads.len() as int).plus(
            dot(changes[i].data, more.data, more.data.len() as int),
        ),
{
    let n = grads.len() as int;
    let sum = plus_grad(grads[i], more);
    let after = grads.update(i, Some(sum));
    lemma_weight_split(changes, grads, i, n);
    lemma_weight_split(changes, after, i, n);
    assert(after.update(i, None) =~= grads.update(i, None));
    let rest = weight(changes, grads.update(i, None), n);
    let d = dot(changes[i].data, more.data, more.data.len() as int);
    match grads[i] {
        None => {
            R::zero_is_neutral(rest);
        },
        Some(a) => {
            lemma_joint_with_itself(more.shape);
            broadcasting_to_the_same_shape_is_the_identity(a);
            broadcasting_to_the_same_shape_is_the_identity(more);
            assert(sum == zip_spec(Arithmetic::Plus, a, more));
            assert(sum.data.len() == more.data.len());
            assert forall|k: int| 0 <= k < sum.data.len() implies #[trigger] sum.data[k]
                == a.data[k].plus(more.data[k]) by {
                assert(broadcast_spec(a, sum.shape).data[k] == a.data[k]);
                assert(broadcast_spec(more, sum.shape).data[k] == more.data[k]);
            }
            lemma_dot_plus(
                changes[i].data,
                a.data,
                more.data,
                sum.data,
                sum.data.len() as int,
            );
            R::plus_associates(rest, part(changes[i], grads[i]), d);
        },
    }
}

/// What the inputs receive adds its weight.
proof fn lemma_weight_accumulated<R: Ring, O>(
    g: Graph<R, O>,
    changes: Seq<Array<R>>,
    grads: Seq<Option<Array<R>>>,
    inputs: Seq<Variable>,
    gxs: Seq<Array<R>>,
    n: int,
)
    requires
        all_fit(g, grads),
        g.all_hold(inputs),
        gxs.len() == inputs.len(),
        forall|k: int| 0 <= k < gxs.len() ==> (#[trigger] gxs[k]).wf(),
        forall|k: int| 0 <= k < gxs.len() ==> (#[trigger] gxs[k]).shape == held(g, inputs[k]).shape,
        0 <= n <= inputs.len(),
    ensures
        all_fit(g, accumulated(grads, inputs, gxs, n)),
        weight(changes, accumulated(grads, inputs, gxs, n), grads.len() as int) == weight(
            changes,
            grads,
            grads.len() as int,
        ).plus(paired(changes_of(changes, inputs), gxs, n)),
    decreases n,
{
    if n == 0 {
        R::zero_is_neutral(weight(changes, grads, grads.len() as int));
    } else {
        lemma_weight_accumulated(g, changes, grads, inputs, gxs, n - 1);
        let before = accumulated(grads, inputs, gxs, n - 1);
        let after = accumulated(grads, inputs, gxs, n);
        let x = inputs[n - 1];
        let i = x.id as int;
        let more = gxs[n - 1];
        assert(g.has(inputs[n - 1]) && g.node(inputs[n - 1]).data is Some);
        assert(fits(g, x, before[x.id as int]));
        assert(more.wf() && more.shape == held(g, inputs[n - 1]).shape);
        assert(before[i] matches Some(a) ==> a.wf() && a.shape == more.shape);
        lemma_weight_added(changes, before, i, more);
        assert(after =~= before.update(i, Some(plus_grad(before[i], more))));
        R::plus_associates(
            weight(changes, grads, grads.len() as int),
            paired(changes_of(changes, inputs), gxs, n - 1),
            dot(changes[i].data, more.data, more.data.len() as int),
        );
        lemma_joint_with_itself(more.shape);
        assert forall|v: Variable| g.has(v) implies fits(g, v, #[trigger] after[v.id as int]) by {
            if v != x {
                assert(after[v.id as int] == before[v.id as int]);
            }
        }
    }
}

/// A function behind a variable made one of the variables.
proof fn lemma_made_something<T, O>(g: Graph<T, O>, root: Variable, f: Function) -> (v: Variable)
    requires
        g.wf(),
        g.has(root),
        reachable(g, root, f),
    ensures
        g.has(v),
        g.node(v).creator == Some(f),
{
    let p = choose|p: Seq<Function>| #[trigger]
        path(g, p) && g.node(root).creator == Some(p[0]) && p.last() == f;
    if p.len() == 1 {
        root
    } else {
        let n = p.len() as int;
        assert(feeds(g, p[n - 1], p[n - 2]));
        let before = p.drop_last();
        assert(path(g, before)) by {
            assert forall|i: int| 0 < i < before.len() implies feeds(
                g,
                #[trigger] before[i],
                before[i - 1],
            ) by {
                assert(feeds(g, p[i], p[i - 1]));
            }
        }
        assert(reachable(g, root, p[n - 2])) by {
            assert(before.last() == p[n - 2]);
            assert(before[0] == p[0]);
        }
        reachable_functions_are_recorded(g, root, p[n - 2]);
        assert(g.call_ok(p[n - 2].id as int));
        let call = g.call(p[n - 2]);
        let k = choose|k: int|
            0 <= k < call.inputs@.len() && g.node(#[trigger] call.inputs@[k]).creator == Some(
                p[n - 1],
            );
        call.inputs@[k]
    }
}

/// One step of a pass keeps the weight of the changes.
proof fn lemma_step_keeps<R: Ring, O: Op<R>>(
    g: Graph<R, O>,
    root: Variable,
    changes: Seq<Array<R>>,
    grads: Seq<Option<Array<R>>>,
    f: Function,
)
    requires
        g.wf(),
        g.has(root),
        reachable(g, root, f),
        spreads(g, changes, f),
        all_fit(g, grads),
    ensures
        all_fit(g, step(g, grads, f, false)),
        weight(changes, step(g, grads, f, false), grads.len() as int) == weight(
            changes,
            grads,
            grads.len() as int,
        ),
{
    reachable_functions_are_recorded(g, root, f);
    assert(g.call_ok(f.id as int));
    let call = g.call(f);
    let inputs = call.inputs@;
    let xs = g.arrays(inputs);
    let y = call.outputs@[0];
    let n = grads.len() as int;
    let v = lemma_made_something(g, root, f);
    assert(g.node_ok(v.id as int));
    assert(Variable { id: v.id } == v);
    assert(call.outputs@.contains(v));
    assert(v == y);
    let gys = output_grads(g, grads, f);
    let gy = gys[0];
    assert(holds(g, call.outputs@[0]));
    assert(outputs_of(g, f)[0] == held(g, y));
    assert(fits(g, y, grads[y.id as int]));
    assert(gy.wf() && gy.shape == held(g, y).shape);
    assert(gys =~= seq![gy]);
    let gxs = O::gradient((*call.op).rule(), xs, outputs_of(g, f), seq![gy]);
    assert(shapes(gxs).len() == shapes(xs).len());
    assert forall|k: int| 0 <= k < gxs.len() implies (#[trigger] gxs[k]).shape == held(
        g,
        inputs[k],
    ).shape by {
        assert(shapes(gxs)[k] == shapes(xs)[k]);
    }
    let passed = accumulated(grads, inputs, gxs, inputs.len() as int);
    lemma_weight_accumulated(g, changes, grads, inputs, gxs, inputs.len() as int);
    // the output is not among the inputs
    assert forall|k: int| 0 <= k < inputs.len() implies #[trigger] inputs[k] != y by {
        if inputs[k] == y {
            assert(g.node(inputs[k]).creator == Some(f));
        }
    }
    lemma_accumulated_elsewhere(grads, inputs, gxs, inputs.len() as int, y);
    let left = cleared(g, passed, f);
    assert(left =~= passed.update(y.id as int, None)) by {
        assert(g.nodes.len() == g.nodes@.len());
        assert forall|i: int| 0 <= i < passed.len() implies left[i] == passed.update(
            y.id as int,
            None,
        )[i] by {
            let w = Variable { id: i as usize };
            assert(call.outputs@ =~= seq![y]);
            if call.outputs@.contains(w) {
                assert(w == y);
            }
            if i == y.id as int {
                assert(call.outputs@[0] == w);
            }
        }
    }
    lemma_weight_split(changes, passed, y.id as int, n);
    let w = paired(changes_of(changes, inputs), gxs, inputs.len() as int);
    if grads[y.id as int] is None {
        lemma_dot_zeros(changes[y.id as int].data, gy.data, gy.data.len() as int);
        R::zero_is_neutral(weight(changes, left, n));
        R::zero_is_neutral(weight(changes, grads, n));
    } else {
        lemma_cancel(weight(changes, left, n), weight(changes, grads, n), w);
    }
    assert forall|v: Variable| g.has(v) implies fits(g, v, #[trigger] left[v.id as int]) by {
        assert(fits(g, v, passed[v.id as int]));
    }
}

/// The gradients that a pass leaves weigh the changes of all variables exactly as the
/// gradients weighed them that it started from.
///
/// Only leaves keep a gradient, so that the change of the root, weighed by the gradient
/// it was seeded with, is the change of the leaves, weighed by theirs: the pass has
/// computed the derivative.
pub proof fn a_pass_keeps_the_weight_of_changes<R: Ring, O: Op<R>>(
    g: Graph<R, O>,
    root: Variable,
    changes: Seq<Array<R>>,
    grads: Seq<Option<Array<R>>>,
    order: Seq<Function>,
    n: int,
)
    requires
        g.wf(),
        g.has(root),
        is_schedule(g, root, order),
        all_fit(g, grads),
        forall|f: Function| #[trigger] reachable(g, root, f) ==> spreads(g, changes, f),
        0 <= n <= order.len(),
    ensures
        all_fit(g, run(g, grads, order, n, false)),
        weight(changes, run(g, grads, order, n, false), grads.len() as int) == weight(
            changes,
            grads,
            grads.len() as int,
        ),
    decreases n,
{
    if n > 0 {
        a_pass_keeps_the_weight_of_changes(g, root, changes, grads, order, n - 1);
        let f = order[n - 1];
        assert(order.contains(f));
        assert(reachable(g, root, f));
        lemma_step_keeps(g, root, changes, run(g, grads, order, n - 1, false), f);
    }
}

} // verus!
