//! Backpropagation computes the derivative.

use vstd::prelude::*;

use crate::engine::backward::{call_ready, gradients, ones_of, outputs_of, run, seeded};
use crate::engine::builtin::{held, holds, Builtin};
use crate::engine::function::Op;
use crate::engine::graph::{lists, Function, Graph, Variable};
use crate::engine::rule::{shapes, Rule};
use crate::engine::schedule::{is_schedule, reachable, reachable_functions_are_recorded};
use crate::engine::tangent::{gradients_are_the_transpose_of_changes, lemma_gradients_wf};
use crate::engine::transpose::{
    a_pass_keeps_the_weight_of_changes, all_fit, changes_of, fits, lemma_weight_split, paired,
    part, spreads, weight,
};
use crate::remap::dot;
use crate::scalar::{Ring, Scalar};
use crate::tensor::Array;

verus! {

/// What a recorded function computes.
pub open spec fn rule_of<R>(g: Graph<R, Builtin>, f: Function) -> Rule {
    Builtin::meaning(*g.call(f).op)
}

/// Whether there is a change for each variable that holds data, and of its shape.
pub open spec fn changes_fit<R>(g: Graph<R, Builtin>, changes: Seq<Array<R>>) -> bool {
    forall|v: Variable| #[trigger]
        holds(g, v) ==> changes[v.id as int].wf() && changes[v.id as int].shape == held(
            g,
            v,
        ).shape
}

/// Whether the output of `f` changes as `f` makes it change with its inputs.
pub open spec fn follows<R: Scalar>(
    g: Graph<R, Builtin>,
    changes: Seq<Array<R>>,
    f: Function,
) -> bool {
    let call = g.call(f);
    changes[call.outputs@[0].id as int] == rule_of(g, f).tangent(
        g.arrays(call.inputs@),
        changes_of(changes, call.inputs@),
    )
}

/// Whether `f` can pass gradients back, its output is still held, and the ring suffices to
/// differentiate it.
pub open spec fn ring_suffices<R: Scalar>(g: Graph<R, Builtin>, f: Function) -> bool {
    let call = g.call(f);
    &&& call_ready(g, f)
    &&& g.node(call.outputs@[0]).alive
    &&& !rule_of(g, f).divides()
    &&& rule_of(g, f).picks_inside(shapes(g.arrays(call.inputs@)))
}

proof fn lemma_spreads<R: Ring>(g: Graph<R, Builtin>, changes: Seq<Array<R>>, f: Function)
    requires
        g.wf(),
        g.knows(f),
        changes_fit(g, changes),
        ring_suffices(g, f),
        follows(g, changes, f),
    ensures
        spreads(g, changes, f),
{
    let call = g.call(f);
    let rule = rule_of(g, f);
    let inputs = call.inputs@;
    let xs = g.arrays(inputs);
    let dxs = changes_of(changes, inputs);
    assert(g.call_ok(f.id as int));
    assert(lists(call.output_shapes@).len() == 1);
    let y = call.outputs@[0];
    assert(holds(g, call.outputs@[0]));
    assert(lists(call.output_shapes@)[0] == rule.out_shape(shapes(xs)));
    assert(held(g, y).shape == rule.out_shape(shapes(xs)));
    assert forall|i: int| 0 <= i < xs.len() implies (#[trigger] xs[i]).wf() && xs[i].shape.len()
        <= usize::MAX by {
        let x = inputs[i];
        assert(g.has(inputs[i]) && g.node(inputs[i]).data is Some);
        assert(g.node_ok(x.id as int));
        let t = g.node(x).data->0;
        assert(t.shape.len() == t.shape@.len());
    }
    assert forall|i: int| 0 <= i < dxs.len() implies (#[trigger] dxs[i]).wf() && dxs[i].shape
        == xs[i].shape by {
        assert(holds(g, inputs[i]));
    }
    assert(shapes(dxs) =~= shapes(xs));
    assert forall|gy: Array<R>| gy.wf() && gy.shape == held(g, y).shape implies {
        let gxs = #[trigger] <Builtin as Op<R>>::gradient(
            <Builtin as Op<R>>::rule(&*call.op),
            xs,
            outputs_of(g, f),
            seq![gy],
        );
        &&& shapes(gxs) == shapes(xs)
        &&& forall|i: int| 0 <= i < gxs.len() ==> (#[trigger] gxs[i]).wf()
        &&& paired(dxs, gxs, inputs.len() as int) == dot(
            changes[y.id as int].data,
            gy.data,
            gy.data.len() as int,
        )
    } by {
        lemma_gradients_wf(rule, xs, gy);
        gradients_are_the_transpose_of_changes(rule, xs, dxs, gy);
        assert(shapes(rule.gradient(xs, gy)).len() == rule.gradient(xs, gy).len());
    }
}

/// Let every variable change, each output of a recorded function as the function makes it
/// change with its inputs. A pass from `root` then leaves gradients that weigh the changes
/// exactly as those weighed them that it started from.
///
/// In other words, a pass moves the derivative of the root back to the leaves, through
/// any graph of built-in operations that do not divide.
pub proof fn backpropagation_computes_the_derivative<R: Ring>(
    g: Graph<R, Builtin>,
    root: Variable,
    changes: Seq<Array<R>>,
    grads: Seq<Option<Array<R>>>,
    order: Seq<Function>,
)
    requires
        g.wf(),
        g.has(root),
        is_schedule(g, root, order),
        all_fit(g, grads),
        changes_fit(g, changes),
        forall|f: Function| #[trigger]
            reachable(g, root, f) ==> ring_suffices(g, f) && follows(g, changes, f),
    ensures
        weight(
            changes,
            run(g, grads, order, order.len() as int, false),
            grads.len() as int,
        ) == weight(changes, grads, grads.len() as int),
{
    assert forall|f: Function| #[trigger] reachable(g, root, f) implies spreads(g, changes, f) by {
        reachable_functions_are_recorded(g, root, f);
        lemma_spreads(g, changes, f);
    }
    a_pass_keeps_the_weight_of_changes(g, root, changes, grads, order, order.len() as int);
}

/// Where nothing has a gradient yet, a pass from `root` leaves gradients that weigh the
/// changes of their variables to the sum of the change of `root`.
pub proof fn a_first_pass_weighs_the_change_of_its_root<R: Ring>(
    g: Graph<R, Builtin>,
    root: Variable,
    changes: Seq<Array<R>>,
    order: Seq<Function>,
)
    requires
        g.wf(),
        holds(g, root),
        is_schedule(g, root, order),
        forall|v: Variable| g.has(v) ==> (#[trigger] g.node(v)).grad is None,
        changes_fit(g, changes),
        forall|f: Function| #[trigger]
            reachable(g, root, f) ==> ring_suffices(g, f) && follows(g, changes, f),
    ensures
        weight(
            changes,
            run(g, seeded(g, root), order, order.len() as int, false),
            g.nodes@.len() as int,
        ) == dot(
            changes[root.id as int].data,
            ones_of(g, root).data,
            ones_of(g, root).data.len() as int,
        ),
{
    let grads = seeded(g, root);
    let ones = ones_of(g, root);
    let i = root.id as int;
    let n = grads.len() as int;
    assert(g.nodes.len() == g.nodes@.len());
    assert forall|k: int| 0 <= k < n implies #[trigger] gradients(g)[k] is None by {
        let v = Variable { id: k as usize };
        assert(g.node(v).grad is None);
    }
    assert(g.node_ok(i));
    assert(g.node(root).grad is None);
    assert(grads == gradients(g).update(i, Some(ones)));
    assert forall|v: Variable| g.has(v) implies fits(g, v, #[trigger] grads[v.id as int]) by {
        if v != root {
            assert(gradients(g)[v.id as int] is None);
        }
    }
    backpropagation_computes_the_derivative(g, root, changes, grads, order);
    lemma_weight_split(changes, grads, i, n);
    let rest = grads.update(i, None);
    assert forall|k: int| 0 <= k < n implies #[trigger] rest[k] is None by {
        if k != i {
            assert(gradients(g)[k] is None);
        }
    }
    lemma_weightless(changes, rest, n);
    let w = part(changes[i], Some(ones));
    R::plus_commutes(R::zero_spec(), w);
    R::zero_is_neutral(w);
}

proof fn lemma_weightless<R: Ring>(
    changes: Seq<Array<R>>,
    grads: Seq<Option<Array<R>>>,
    n: int,
)
    requires
        forall|k: int| 0 <= k < n ==> #[trigger] grads[k] is None,
    ensures
        weight(changes, grads, n) == R::zero_spec(),
    decreases n,
{
    if n > 0 {
        lemma_weightless(changes, grads, n - 1);
        assert(grads[n - 1] is None);
        R::zero_is_neutral(R::zero_spec());
    }
}

} // verus!
