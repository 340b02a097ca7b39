//! What repeated backward passes add up to.
//!
//! Sums are regrouped here, so the elements form a [`Ring`].
use crate::engine::backward::{
    accumulated, can_start, gradients, grad_holds, holds_grads, keeps, lemma_call_kept,
    lemma_reach_kept, live_output, ones_of, output_grads, outputs_of, plus_grad, run, seeded,
    shapes_kept, shapes_kept_throughout, step,
};
use crate::engine::builtin::held;
use crate::engine::elementwise::{lemma_joint_with_itself, zip_spec, Arithmetic};
use crate::engine::function::Op;
use crate::engine::graph::{Function, Graph, Variable};
use crate::engine::laws::{
    gradients_in_between_are_cleared, leaf_behind, leaves_have_gradients, lemma_reachable_made,
    lemma_run_len, lemma_step_len, nothing_behind_a_variable_reads_it, read_behind,
    unread_gradients_do_not_grow,
};
use crate::engine::rule::shapes;
use crate::engine::schedule::{
    is_schedule, outranks, reachable, reachable_functions_are_recorded, schedules_are_unique,
};
use crate::index::volume;
use crate::scalar::{Ring, Scalar};
use crate::tensor::Array;
use crate::utils::shape::{broadcast_source, lemma_broadcast_identity};
use vstd::prelude::*;

verus! {

/// A gradient on top of what was there.
pub open spec fn on_top<T: Scalar>(there: Option<Array<T>>, grad: Option<Array<T>>) -> Option<
    Array<T>,
> {
    match grad {
        None => there,
        Some(grad) => match there {
            None => Some(grad),
            Some(there) => Some(zip_spec(Arithmetic::Plus, there, grad)),
        },
    }
}

/// Whether the gradients at the leaves behind `root`, where there are any, have the shapes
/// of their variables.
pub open spec fn leaves_fit<T, O>(
    g: Graph<T, O>,
    root: Variable,
    grads: Seq<Option<Array<T>>>,
) -> bool {
    forall|v: Variable|
        g.has(v) && #[trigger] leaf_behind(g, root, v) ==> (grads[v.id as int] matches Some(a)
            ==> a.shape == held(g, v).shape)
}

/// Whether `full` is `base` on top of `there` at the leaves behind `root`, and `base`
/// itself at whatever the functions there wrote.
pub open spec fn tops<T: Scalar, O>(
    g: Graph<T, O>,
    root: Variable,
    there: Seq<Option<Array<T>>>,
    base: Seq<Option<Array<T>>>,
    full: Seq<Option<Array<T>>>,
) -> bool {
    &&& there.len() == g.nodes@.len()
    &&& base.len() == g.nodes@.len()
    &&& full.len() == g.nodes@.len()
    &&& forall|v: Variable|
        g.has(v) && #[trigger] leaf_behind(g, root, v) ==> full[v.id as int] == on_top(
            there[v.id as int],
            base[v.id as int],
        )
    &&& forall|f: Function, i: int|
        0 <= i < g.nodes@.len() && reachable(g, root, f) && #[trigger] live_output(g, f, i)
            ==> full[i] == base[i]
}

/// Sums of arrays of one shape can be regrouped.
proof fn lemma_regrouped<T: Ring>(a: Array<T>, b: Array<T>, c: Array<T>)
    requires
        a.shape == b.shape,
        b.shape == c.shape,
        volume(a.shape) <= usize::MAX,
    ensures
        zip_spec(Arithmetic::Plus, zip_spec(Arithmetic::Plus, a, b), c) == zip_spec(
            Arithmetic::Plus,
            a,
            zip_spec(Arithmetic::Plus, b, c),
        ),
        zip_spec(Arithmetic::Plus, a, b).shape == a.shape,
{
    let s = a.shape;
    lemma_joint_with_itself(s);
    lemma_broadcast_identity(s);
    let ab = zip_spec(Arithmetic::Plus, a, b);
    let bc = zip_spec(Arithmetic::Plus, b, c);
    let left = zip_spec(Arithmetic::Plus, ab, c);
    let right = zip_spec(Arithmetic::Plus, a, bc);
    assert forall|k: int| 0 <= k < volume(s) implies left.data[k] == right.data[k] by {
        assert(broadcast_source(s, s, k) == k);
        T::plus_associates(a.data[k], b.data[k], c.data[k]);
    }
    assert(left.data =~= right.data);
}

/// What is on top stays on top when the inputs of a function receive their gradients.
proof fn lemma_receiving_tops<T: Ring, O: Op<T>>(
    g: Graph<T, O>,
    root: Variable,
    there: Seq<Option<Array<T>>>,
    base: Seq<Option<Array<T>>>,
    full: Seq<Option<Array<T>>>,
    f: Function,
    gxs: Seq<Array<T>>,
    n: int,
)
    requires
        g.wf(),
        g.has(root),
        reachable(g, root, f),
        g.all_hold(g.call(f).inputs@),
        tops(g, root, there, base, full),
        leaves_fit(g, root, there),
        leaves_fit(g, root, base),
        shapes(gxs) == shapes(g.arrays(g.call(f).inputs@)),
        0 <= n <= g.call(f).inputs@.len(),
    ensures
        tops(
            g,
            root,
            there,
            accumulated(base, g.call(f).inputs@, gxs, n),
            accumulated(full, g.call(f).inputs@, gxs, n),
        ),
        leaves_fit(g, root, accumulated(base, g.call(f).inputs@, gxs, n)),
    decreases n,
{
    if n > 0 {
        lemma_receiving_tops(g, root, there, base, full, f, gxs, n - 1);
        let inputs = g.call(f).inputs@;
        let (b, c) = (accumulated(base, inputs, gxs, n - 1), accumulated(full, inputs, gxs, n - 1));
        let x = inputs[n - 1];
        let at = x.id as int;
        let more = gxs[n - 1];
        reachable_functions_are_recorded(g, root, f);
        assert(g.call_ok(f.id as int));
        assert(g.has(inputs[n - 1]));
        assert(shapes(gxs)[n - 1] == shapes(g.arrays(inputs))[n - 1]);
        assert(shapes(gxs).len() == shapes(g.arrays(inputs)).len());
        assert(more.shape == held(g, x).shape);
        assert(inputs.contains(x));
        assert(read_behind(g, root, x));
        assert(volume(more.shape) <= usize::MAX) by {
            assert(g.node_ok(at));
            let t = g.node(x).data->0;
            assert(t.data.len() == t.data@.len());
        }
        lemma_joint_with_itself(more.shape);
        if leaf_behind(g, root, x) {
            if there[at] is Some && b[at] is Some {
                lemma_regrouped(there[at]->0, b[at]->0, more);
            }
            assert(Some(plus_grad(c[at], more)) == on_top(there[at], Some(plus_grad(b[at], more))));
        } else {
            let h = choose|h: Function| #[trigger] reachable(g, root, h) && live_output(g, h, at);
            assert(live_output(g, h, at));
            assert(c[at] == b[at]);
        }
        let (b1, c1) = (accumulated(base, inputs, gxs, n), accumulated(full, inputs, gxs, n));
        assert forall|v: Variable| g.has(v) && #[trigger] leaf_behind(g, root, v) implies c1[
            v.id as int] == on_top(there[v.id as int], b1[v.id as int]) && (b1[
            v.id as int] matches Some(a) ==> a.shape == held(g, v).shape) by {
            if v.id == x.id {
                assert(v == x);
            }
        }
        assert forall|h: Function, i: int|
            0 <= i < g.nodes@.len() && reachable(g, root, h) && #[trigger] live_output(
                g,
                h,
                i,
            ) implies c1[i] == b1[i] by {
            if i == at {
                assert(Variable { id: i as usize } == x);
                assert(!leaf_behind(g, root, x));
            }
        }
    }
}

/// A backward pass adds to what is at the leaves: on top of the gradients that were there,
/// it leaves what it would leave by itself.
pub proof fn a_pass_adds_to_what_is_there<T: Ring, O: Op<T>>(
    g: Graph<T, O>,
    root: Variable,
    there: Seq<Option<Array<T>>>,
    base: Seq<Option<Array<T>>>,
    full: Seq<Option<Array<T>>>,
    order: Seq<Function>,
    n: int,
    retain_grad: bool,
)
    requires
        g.wf(),
        can_start(g, root),
        is_schedule(g, root, order),
        0 <= n <= order.len(),
        shapes_kept_throughout(g, base, order, n, retain_grad),
        leaves_fit(g, root, there),
        leaves_fit(g, root, base),
        tops(g, root, there, base, full),
    ensures
        tops(
            g,
            root,
            there,
            run(g, base, order, n, retain_grad),
            run(g, full, order, n, retain_grad),
        ),
        leaves_fit(g, root, run(g, base, order, n, retain_grad)),
    decreases n,
{
    if n > 0 {
        a_pass_adds_to_what_is_there(g, root, there, base, full, order, n - 1, retain_grad);
        let f = order[n - 1];
        let (b, c) = (
            run(g, base, order, n - 1, retain_grad),
            run(g, full, order, n - 1, retain_grad),
        );
        assert(order.contains(f));
        assert(reachable(g, root, f));
        reachable_functions_are_recorded(g, root, f);
        assert(g.call_ok(f.id as int));
        assert(shapes_kept(g, b, order[n - 1]));
        let call = g.call(f);
        assert(output_grads(g, c, f) =~= output_grads(g, b, f)) by {
            assert forall|k: int| 0 <= k < call.outputs@.len() implies output_grads(g, c, f)[k]
                == output_grads(g, b, f)[k] by {
                let y = call.outputs@[k];
                assert(g.has(call.outputs@[k]));
                assert(Variable { id: y.id } == y);
                assert(call.outputs@.contains(y));
                if g.node(y).alive {
                    assert(live_output(g, f, y.id as int));
                }
            }
        }
        let gxs = O::gradient(
            (*call.op).rule(),
            g.arrays(call.inputs@),
            outputs_of(g, f),
            output_grads(g, b, f),
        );
        lemma_receiving_tops(g, root, there, b, c, f, gxs, call.inputs@.len() as int);
        lemma_step_len(g, b, f, retain_grad);
        lemma_step_len(g, c, f, retain_grad);
        let (b1, c1) = (step(g, b, f, retain_grad), step(g, c, f, retain_grad));
        assert forall|v: Variable| g.has(v) && #[trigger] leaf_behind(g, root, v) implies c1[
            v.id as int] == on_top(there[v.id as int], b1[v.id as int]) && (b1[
            v.id as int] matches Some(a) ==> a.shape == held(g, v).shape) by {
            assert(!live_output(g, f, v.id as int));
        }
        assert forall|h: Function, i: int|
            0 <= i < g.nodes@.len() && reachable(g, root, h) && #[trigger] live_output(
                g,
                h,
                i,
            ) implies c1[i] == b1[i] by {}
    }
}

/// Whether `large` begins with `small`.
spec fn begins_with<A>(large: Seq<A>, small: Seq<A>) -> bool {
    small.len() <= large.len() && forall|i: int| 0 <= i < small.len() ==> #[trigger] large[i]
        == small[i]
}

proof fn lemma_accumulated_kept<T: Scalar>(
    small: Seq<Option<Array<T>>>,
    large: Seq<Option<Array<T>>>,
    inputs: Seq<Variable>,
    gxs: Seq<Array<T>>,
    n: int,
)
    requires
        begins_with(large, small),
        0 <= n <= inputs.len(),
        forall|k: int| 0 <= k < inputs.len() ==> (#[trigger] inputs[k]).id < small.len(),
    ensures
        accumulated(small, inputs, gxs, n).len() == small.len(),
        accumulated(large, inputs, gxs, n).len() == large.len(),
        begins_with(accumulated(large, inputs, gxs, n), accumulated(small, inputs, gxs, n)),
    decreases n,
{
    if n > 0 {
        lemma_accumulated_kept(small, large, inputs, gxs, n - 1);
        assert(inputs[n - 1].id < small.len());
    }
}

/// A pass does the same in a graph that has more in it.
proof fn lemma_run_kept<T: Scalar, O: Op<T>>(
    g: Graph<T, O>,
    after: Graph<T, O>,
    root: Variable,
    small: Seq<Option<Array<T>>>,
    large: Seq<Option<Array<T>>>,
    order: Seq<Function>,
    n: int,
    retain_grad: bool,
)
    requires
        g.wf(),
        g.has(root),
        keeps(g, after),
        is_schedule(g, root, order),
        0 <= n <= order.len(),
        small.len() == g.nodes@.len(),
        large.len() == after.nodes@.len(),
        begins_with(large, small),
    ensures
        run(g, small, order, n, retain_grad).len() == g.nodes@.len(),
        run(after, large, order, n, retain_grad).len() == after.nodes@.len(),
        begins_with(
            run(after, large, order, n, retain_grad),
            run(g, small, order, n, retain_grad),
        ),
    decreases n,
{
    if n > 0 {
        lemma_run_kept(g, after, root, small, large, order, n - 1, retain_grad);
        let f = order[n - 1];
        let (b, c) = (
            run(g, small, order, n - 1, retain_grad),
            run(after, large, order, n - 1, retain_grad),
        );
        assert(order.contains(f));
        reachable_functions_are_recorded(g, root, f);
        assert(g.call_ok(f.id as int));
        lemma_call_kept(g, after, f, b);
        let call = g.call(f);
        assert(output_grads(after, c, f) =~= output_grads(after, b, f)) by {
            assert forall|k: int| 0 <= k < call.outputs@.len() implies output_grads(after, c, f)[k]
                == output_grads(after, b, f)[k] by {
                assert(g.has(call.outputs@[k]));
                assert(c[call.outputs@[k].id as int] == b[call.outputs@[k].id as int]);
            }
        }
        let gxs = O::gradient(
            (*call.op).rule(),
            g.arrays(call.inputs@),
            outputs_of(g, f),
            output_grads(g, b, f),
        );
        assert forall|k: int| 0 <= k < call.inputs@.len() implies (#[trigger] call.inputs@[k]).id
            < b.len() by {
            assert(g.has(call.inputs@[k]));
        }
        lemma_accumulated_kept(b, c, call.inputs@, gxs, call.inputs@.len() as int);
        let (b1, c1) = (step(g, b, f, retain_grad), step(after, c, f, retain_grad));
        assert forall|i: int| 0 <= i < b1.len() implies #[trigger] c1[i] == b1[i] by {
            let m = after.nodes@[i];
            assert(live_output(after, f, i) == live_output(g, f, i));
        }
    }
}

/// A schedule behind a variable is one in every graph that keeps its history.
proof fn lemma_schedule_kept<T, O>(
    g: Graph<T, O>,
    after: Graph<T, O>,
    root: Variable,
    order: Seq<Function>,
)
    requires
        g.wf(),
        g.has(root),
        keeps(g, after),
        is_schedule(after, root, order),
    ensures
        is_schedule(g, root, order),
{
    assert forall|f: Function| #[trigger] order.contains(f) <==> reachable(g, root, f) by {
        lemma_reach_kept(g, after, root, f);
    }
    assert forall|i: int, j: int| 0 <= i < j < order.len() implies outranks(
        g,
        #[trigger] order[i],
        #[trigger] order[j],
    ) by {
        assert(order.contains(order[i]) && order.contains(order[j]));
        reachable_functions_are_recorded(g, root, order[i]);
        reachable_functions_are_recorded(g, root, order[j]);
        assert(after.calls@[order[i].id as int] == g.calls@[order[i].id as int]);
        assert(after.calls@[order[j].id as int] == g.calls@[order[j].id as int]);
        assert(outranks(after, order[i], order[j]));
    }
}

/// Whether whatever a function behind `root` wrote and another one there reads still has
/// its creator.
pub open spec fn linked<T, O>(g: Graph<T, O>, root: Variable) -> bool {
    forall|f: Function, v: Variable|
        g.has(v) && reachable(g, root, f) && #[trigger] live_output(g, f, v.id as int)
            && read_behind(g, root, v) ==> g.node(v).creator == Some(f)
}

/// Where every function behind a root has one output, nothing there has lost its creator.
pub proof fn single_outputs_are_linked<T, O>(g: Graph<T, O>, root: Variable)
    requires
        g.wf(),
        g.has(root),
        forall|f: Function| #[trigger] reachable(g, root, f) ==> g.call(f).outputs@.len() == 1,
    ensures
        linked(g, root),
{
    assert forall|f: Function, v: Variable|
        g.has(v) && reachable(g, root, f) && #[trigger] live_output(g, f, v.id as int)
            && read_behind(g, root, v) implies g.node(v).creator == Some(f) by {
        let made = lemma_reachable_made(g, root, f);
        let outputs = g.call(f).outputs@;
        assert(Variable { id: v.id } == v);
        assert(outputs.index_of(made) == 0 && outputs.index_of(v) == 0);
    }
}

/// Gradients accumulate: two passes without clearing in between leave, at every leaf behind
/// the root, the sum of what each of them leaves. `after` is the graph that the first pass
/// left behind.
pub proof fn two_passes_add_up<T: Ring, O: Op<T>>(
    g: Graph<T, O>,
    after: Graph<T, O>,
    root: Variable,
    order: Seq<Function>,
    again: Seq<Function>,
    v: Variable,
)
    requires
        g.wf(),
        g.has(v),
        can_start(g, root),
        forall|i: int| 0 <= i < g.nodes@.len() ==> (#[trigger] g.nodes@[i]).grad is None,
        linked(g, root),
        leaf_behind(g, root, v),
        is_schedule(g, root, order),
        is_schedule(after, root, again),
        keeps(g, after),
        grad_holds(after, root),
        holds_grads(after, run(g, seeded(g, root), order, order.len() as int, false)),
        shapes_kept_throughout(g, seeded(g, root), order, order.len() as int, false),
    ensures
        ({
            let first = run(g, seeded(g, root), order, order.len() as int, false);
            let second = run(after, seeded(after, root), again, again.len() as int, false);
            let i = v.id as int;
            &&& first[i] is Some
            &&& second[i] == Some(zip_spec(Arithmetic::Plus, first[i]->0, first[i]->0))
        }),
{
    lemma_schedule_kept(g, after, root, again);
    schedules_are_unique(g, root, order, again);
    let n = order.len() as int;
    let total = g.nodes@.len() as int;
    let base = seeded(g, root);
    let first = run(g, base, order, n, false);
    lemma_run_len(g, root, base, order, n, false);
    let large = seeded(after, root);
    let full = large.take(total);
    let r = root.id as int;
    let m = after.nodes@[r];
    assert(g.nodes@[r].grad is None);
    assert(ones_of(after, root) == ones_of(g, root));
    assert forall|i: int| 0 <= i < total && i != r implies #[trigger] full[i] == first[i] by {
        assert(first[i] == gradients(after)[i]);
    }
    assert(first[r] == gradients(after)[r]);
    assert forall|u: Variable| g.has(u) && #[trigger] leaf_behind(g, root, u) implies full[
        u.id as int] == on_top(first[u.id as int], base[u.id as int]) && base[u.id as int] is None by {
        assert(g.nodes@[u.id as int].grad is None);
        if u.id == root.id {
            assert(u == root);
            nothing_behind_a_variable_reads_it(g, root);
        }
    }
    assert forall|f: Function, i: int|
        0 <= i < g.nodes@.len() && reachable(g, root, f) && #[trigger] live_output(
            g,
            f,
            i,
        ) implies full[i] == base[i] by {
        let y = Variable { id: i as usize };
        assert(g.nodes.len() == g.nodes@.len());
        assert(g.has(y));
        assert(g.nodes@[i].grad is None);
        if i == r {
            assert(y == root);
            lemma_root_starts_afresh(g, after, root, order, f);
        } else {
            assert(base[i] is None);
            if read_behind(g, root, y) {
                assert(live_output(g, f, y.id as int));
                assert(order.contains(f));
                let k = order.index_of(f);
                gradients_in_between_are_cleared(g, root, base, order, n, k, y);
            } else {
                unread_gradients_do_not_grow(g, root, base, order, n, false, y);
            }
        }
    }
    assert(leaves_fit(g, root, base));
    a_pass_adds_to_what_is_there(
        g,
        root,
        Seq::new(total as nat, |i: int| None),
        base,
        base,
        order,
        n,
        false,
    );
    assert(tops(g, root, first, base, full));
    a_pass_adds_to_what_is_there(g, root, first, base, full, order, n, false);
    lemma_run_kept(g, after, root, full, large, order, n, false);
    leaves_have_gradients(g, root, base, order, false, v);
}

/// The second of two passes starts as the first did, at a root that a function wrote.
proof fn lemma_root_starts_afresh<T: Scalar, O: Op<T>>(
    g: Graph<T, O>,
    after: Graph<T, O>,
    root: Variable,
    order: Seq<Function>,
    f: Function,
)
    requires
        g.wf(),
        g.has(root),
        keeps(g, after),
        g.node(root).grad is None,
        is_schedule(g, root, order),
        reachable(g, root, f),
        live_output(g, f, root.id as int),
        grad_holds(after, root),
        holds_grads(after, run(g, seeded(g, root), order, order.len() as int, false)),
    ensures
        seeded(after, root)[root.id as int] == seeded(g, root)[root.id as int],
{
    let n = order.len() as int;
    let r = root.id as int;
    let base = seeded(g, root);
    let first = run(g, base, order, n, false);
    lemma_run_len(g, root, base, order, n, false);
    assert(first[r] == gradients(after)[r]);
    let m = after.nodes@[r];
    nothing_behind_a_variable_reads_it(g, root);
    unread_gradients_do_not_grow(g, root, base, order, n, false, root);
}

} // verus!
