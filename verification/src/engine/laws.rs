//! What a backward pass leaves behind, and what recording promises it.
use crate::engine::backward::{
    accumulated, call_ready, grad_holds, gradients, holds_grads, live_output, ones_of, output_grads,
    outputs_of, run, seeded, step,
};
use crate::engine::builtin::{held, holds};
use crate::engine::function::{applied, Op};
use crate::engine::graph::{lists, Function, Graph, Variable};
use crate::engine::rule::{shapes, Rule};
use crate::engine::schedule::{
    consumers_come_before_producers, feeds, is_schedule, path, reachable,
    reachable_functions_are_recorded,
};
use crate::scalar::Scalar;
use crate::tensor::Array;
use vstd::prelude::*;

verus! {

/// Whether some function behind `root` reads `v`, or wrote it and it is still held.
pub open spec fn touched<T, O>(g: Graph<T, O>, root: Variable, v: Variable) -> bool {
    exists|f: Function| #[trigger]
        reachable(g, root, f) && (g.call(f).inputs@.contains(v) || live_output(g, f, v.id as int))
}

/// A gradient that nothing is added to stays.
pub proof fn lemma_accumulated_elsewhere<T: Scalar>(
    grads: Seq<Option<Array<T>>>,
    inputs: Seq<Variable>,
    gxs: Seq<Array<T>>,
    n: int,
    v: Variable,
)
    requires
        0 <= n <= inputs.len(),
        (v.id as int) < grads.len(),
        forall|k: int| 0 <= k < n ==> #[trigger] inputs[k] != v,
        forall|k: int| 0 <= k < n ==> (#[trigger] inputs[k]).id < grads.len(),
    ensures
        accumulated(grads, inputs, gxs, n).len() == grads.len(),
        accumulated(grads, inputs, gxs, n)[v.id as int] == grads[v.id as int],
    decreases n,
{
    if n > 0 {
        lemma_accumulated_elsewhere(grads, inputs, gxs, n - 1, v);
        assert(inputs[n - 1] != v);
        assert(inputs[n - 1].id < grads.len());
    }
}

proof fn lemma_accumulated_len<T: Scalar>(
    grads: Seq<Option<Array<T>>>,
    inputs: Seq<Variable>,
    gxs: Seq<Array<T>>,
    n: int,
)
    requires
        0 <= n <= inputs.len(),
        forall|k: int| 0 <= k < inputs.len() ==> (#[trigger] inputs[k]).id < grads.len(),
    ensures
        accumulated(grads, inputs, gxs, n).len() == grads.len(),
    decreases n,
{
    if n > 0 {
        lemma_accumulated_len(grads, inputs, gxs, n - 1);
    }
}

proof fn lemma_step_elsewhere<T: Scalar, O: Op<T>>(
    g: Graph<T, O>,
    grads: Seq<Option<Array<T>>>,
    f: Function,
    retain_grad: bool,
    v: Variable,
)
    requires
        g.wf(),
        g.knows(f),
        g.has(v),
        grads.len() == g.nodes@.len(),
        !g.call(f).inputs@.contains(v),
    ensures
        step(g, grads, f, retain_grad).len() == grads.len(),
        step(g, grads, f, retain_grad)[v.id as int] == grads[v.id as int] || step(
            g,
            grads,
            f,
            retain_grad,
        )[v.id as int].is_none(),
        !live_output(g, f, v.id as int) ==> step(g, grads, f, retain_grad)[v.id as int]
            == grads[v.id as int],
{
    let call = g.call(f);
    let gxs = O::gradient(
        (*call.op).rule(),
        g.arrays(call.inputs@),
        outputs_of(g, f),
        output_grads(g, grads, f),
    );
    assert(g.call_ok(f.id as int));
    assert forall|k: int| 0 <= k < call.inputs@.len() implies #[trigger] call.inputs@[k] != v
        && call.inputs@[k].id < grads.len() by {
        assert(g.has(call.inputs@[k]));
        if call.inputs@[k] == v {
            assert(call.inputs@.contains(v));
        }
    }
    lemma_accumulated_elsewhere(grads, call.inputs@, gxs, call.inputs@.len() as int, v);
}

/// A step keeps the number of gradients.
pub proof fn lemma_step_len<T: Scalar, O: Op<T>>(
    g: Graph<T, O>,
    grads: Seq<Option<Array<T>>>,
    f: Function,
    retain_grad: bool,
)
    requires
        g.wf(),
        g.knows(f),
        grads.len() == g.nodes@.len(),
    ensures
        step(g, grads, f, retain_grad).len() == grads.len(),
{
    let call = g.call(f);
    assert(g.call_ok(f.id as int));
    assert forall|k: int| 0 <= k < call.inputs@.len() implies (#[trigger] call.inputs@[k]).id
        < grads.len() by {
        assert(g.has(call.inputs@[k]));
    }
    let gxs = O::gradient(
        (*call.op).rule(),
        g.arrays(call.inputs@),
        outputs_of(g, f),
        output_grads(g, grads, f),
    );
    lemma_accumulated_len(grads, call.inputs@, gxs, call.inputs@.len() as int);
}

/// A backward pass leaves the gradient of every variable alone that no function behind
/// its root reads or wrote.
pub proof fn untouched_gradients_stay<T: Scalar, O: Op<T>>(
    g: Graph<T, O>,
    root: Variable,
    grads: Seq<Option<Array<T>>>,
    order: Seq<Function>,
    n: int,
    retain_grad: bool,
    v: Variable,
)
    requires
        g.wf(),
        g.has(root),
        g.has(v),
        grads.len() == g.nodes@.len(),
        is_schedule(g, root, order),
        0 <= n <= order.len(),
        !touched(g, root, v),
    ensures
        run(g, grads, order, n, retain_grad)[v.id as int] == grads[v.id as int],
        run(g, grads, order, n, retain_grad).len() == grads.len(),
    decreases n,
{
    if n > 0 {
        untouched_gradients_stay(g, root, grads, order, n - 1, retain_grad, v);
        let f = order[n - 1];
        assert(order.contains(f));
        assert(reachable(g, root, f));
        reachable_functions_are_recorded(g, root, f);
        lemma_step_elsewhere(g, run(g, grads, order, n - 1, retain_grad), f, retain_grad, v);
    }
}

/// A pass adds nothing to the gradient of a variable that no function behind its root
/// reads: it stays as it was, or is cleared.
pub proof fn unread_gradients_do_not_grow<T: Scalar, O: Op<T>>(
    g: Graph<T, O>,
    root: Variable,
    grads: Seq<Option<Array<T>>>,
    order: Seq<Function>,
    n: int,
    retain_grad: bool,
    v: Variable,
)
    requires
        g.wf(),
        g.has(root),
        g.has(v),
        grads.len() == g.nodes@.len(),
        is_schedule(g, root, order),
        0 <= n <= order.len(),
        !read_behind(g, root, v),
    ensures
        run(g, grads, order, n, retain_grad).len() == grads.len(),
        run(g, grads, order, n, retain_grad)[v.id as int] == grads[v.id as int] || run(
            g,
            grads,
            order,
            n,
            retain_grad,
        )[v.id as int] is None,
    decreases n,
{
    if n > 0 {
        unread_gradients_do_not_grow(g, root, grads, order, n - 1, retain_grad, v);
        let f = order[n - 1];
        assert(order.contains(f));
        assert(reachable(g, root, f));
        reachable_functions_are_recorded(g, root, f);
        lemma_step_elsewhere(g, run(g, grads, order, n - 1, retain_grad), f, retain_grad, v);
    }
}

/// Without `retain_grad`, a pass clears the gradient of everything that a function
/// behind its root produced.
pub proof fn gradients_in_between_are_cleared<T: Scalar, O: Op<T>>(
    g: Graph<T, O>,
    root: Variable,
    grads: Seq<Option<Array<T>>>,
    order: Seq<Function>,
    n: int,
    i: int,
    y: Variable,
)
    requires
        g.wf(),
        g.has(root),
        g.has(y),
        grads.len() == g.nodes@.len(),
        is_schedule(g, root, order),
        0 <= i < n <= order.len(),
        live_output(g, order[i], y.id as int),
        g.node(y).creator == Some(order[i]),
    ensures
        run(g, grads, order, n, false)[y.id as int].is_none(),
        run(g, grads, order, n, false).len() == grads.len(),
    decreases n,
{
    let f = order[n - 1];
    let before = run(g, grads, order, n - 1, false);
    assert(order.contains(f));
    assert(reachable(g, root, f));
    reachable_functions_are_recorded(g, root, f);
    lemma_run_len(g, root, grads, order, n - 1, false);
    if i == n - 1 {
        lemma_step_len(g, before, f, false);
        assert(Variable { id: y.id } == y);
    } else {
        gradients_in_between_are_cleared(g, root, grads, order, n - 1, i, y);
        if g.call(f).inputs@.contains(y) {
            let k = g.call(f).inputs@.index_of(y);
            assert(g.call(f).inputs@[k] == y);
            assert(feeds(g, order[i], f));
            consumers_come_before_producers(g, root, order, n - 1, i);
        }
        lemma_step_elsewhere(g, before, f, false, y);
    }
}

/// A pass keeps the number of gradients.
pub proof fn lemma_run_len<T: Scalar, O: Op<T>>(
    g: Graph<T, O>,
    root: Variable,
    grads: Seq<Option<Array<T>>>,
    order: Seq<Function>,
    n: int,
    retain_grad: bool,
)
    requires
        g.wf(),
        g.has(root),
        is_schedule(g, root, order),
        grads.len() == g.nodes@.len(),
        0 <= n <= order.len(),
    ensures
        run(g, grads, order, n, retain_grad).len() == grads.len(),
    decreases n,
{
    if n > 0 {
        lemma_run_len(g, root, grads, order, n - 1, retain_grad);
        assert(order.contains(order[n - 1]));
        reachable_functions_are_recorded(g, root, order[n - 1]);
        lemma_step_len(
            g,
            run(g, grads, order, n - 1, retain_grad),
            order[n - 1],
            retain_grad,
        );
    }
}

/// Whether some function behind `root` reads `v`.
pub open spec fn read_behind<T, O>(g: Graph<T, O>, root: Variable, v: Variable) -> bool {
    exists|f: Function| #[trigger] reachable(g, root, f) && g.call(f).inputs@.contains(v)
}

/// Whether `v` is a leaf behind `root`: a function there reads it, and none wrote it.
pub open spec fn leaf_behind<T, O>(g: Graph<T, O>, root: Variable, v: Variable) -> bool {
    &&& read_behind(g, root, v)
    &&& forall|f: Function| #[trigger] reachable(g, root, f) ==> !live_output(g, f, v.id as int)
}

/// What is added to becomes, and what is there stays, a gradient.
proof fn lemma_accumulated_there<T: Scalar>(
    grads: Seq<Option<Array<T>>>,
    inputs: Seq<Variable>,
    gxs: Seq<Array<T>>,
    n: int,
    v: Variable,
)
    requires
        0 <= n <= inputs.len(),
        (v.id as int) < grads.len(),
        forall|k: int| 0 <= k < inputs.len() ==> (#[trigger] inputs[k]).id < grads.len(),
        grads[v.id as int] is Some || exists|k: int| 0 <= k < n && inputs[k] == v,
    ensures
        accumulated(grads, inputs, gxs, n)[v.id as int] is Some,
    decreases n,
{
    if n > 0 {
        lemma_accumulated_len(grads, inputs, gxs, n - 1);
        assert(inputs[n - 1].id < grads.len());
        if inputs[n - 1] != v {
            lemma_accumulated_there(grads, inputs, gxs, n - 1, v);
        }
    }
}

proof fn lemma_step_there<T: Scalar, O: Op<T>>(
    g: Graph<T, O>,
    grads: Seq<Option<Array<T>>>,
    f: Function,
    retain_grad: bool,
    v: Variable,
)
    requires
        g.wf(),
        g.knows(f),
        g.has(v),
        grads.len() == g.nodes@.len(),
        grads[v.id as int] is Some || g.call(f).inputs@.contains(v),
        retain_grad || !live_output(g, f, v.id as int),
    ensures
        step(g, grads, f, retain_grad)[v.id as int] is Some,
{
    let call = g.call(f);
    let gxs = O::gradient(
        (*call.op).rule(),
        g.arrays(call.inputs@),
        outputs_of(g, f),
        output_grads(g, grads, f),
    );
    assert(g.call_ok(f.id as int));
    assert forall|k: int| 0 <= k < call.inputs@.len() implies (#[trigger] call.inputs@[k]).id
        < grads.len() by {
        assert(g.has(call.inputs@[k]));
    }
    if call.inputs@.contains(v) {
        let k = call.inputs@.index_of(v);
        assert(call.inputs@[k] == v);
    }
    lemma_accumulated_len(grads, call.inputs@, gxs, call.inputs@.len() as int);
    lemma_accumulated_there(grads, call.inputs@, gxs, call.inputs@.len() as int, v);
}

/// Once a gradient is there, it stays until a function that wrote its variable clears it.
proof fn lemma_run_there<T: Scalar, O: Op<T>>(
    g: Graph<T, O>,
    root: Variable,
    grads: Seq<Option<Array<T>>>,
    order: Seq<Function>,
    n: int,
    retain_grad: bool,
    v: Variable,
)
    requires
        g.wf(),
        g.has(root),
        g.has(v),
        grads.len() == g.nodes@.len(),
        is_schedule(g, root, order),
        0 <= n <= order.len(),
        grads[v.id as int] is Some || exists|i: int|
            0 <= i < n && g.call(#[trigger] order[i]).inputs@.contains(v),
        retain_grad || forall|f: Function| #[trigger]
            reachable(g, root, f) ==> !live_output(g, f, v.id as int),
    ensures
        run(g, grads, order, n, retain_grad)[v.id as int] is Some,
    decreases n,
{
    if n > 0 {
        let f = order[n - 1];
        let before = run(g, grads, order, n - 1, retain_grad);
        assert(order.contains(f));
        assert(reachable(g, root, f));
        reachable_functions_are_recorded(g, root, f);
        lemma_run_len(g, root, grads, order, n - 1, retain_grad);
        if !g.call(f).inputs@.contains(v) {
            lemma_run_there(g, root, grads, order, n - 1, retain_grad, v);
        }
        lemma_step_there(g, before, f, retain_grad, v);
    }
}

/// A backward pass leaves a gradient at every leaf behind its root.
pub proof fn leaves_have_gradients<T: Scalar, O: Op<T>>(
    g: Graph<T, O>,
    root: Variable,
    grads: Seq<Option<Array<T>>>,
    order: Seq<Function>,
    retain_grad: bool,
    v: Variable,
)
    requires
        g.wf(),
        g.has(root),
        g.has(v),
        grads.len() == g.nodes@.len(),
        is_schedule(g, root, order),
        leaf_behind(g, root, v),
    ensures
        run(g, grads, order, order.len() as int, retain_grad)[v.id as int] is Some,
{
    let f = choose|f: Function| #[trigger]
        reachable(g, root, f) && g.call(f).inputs@.contains(v);
    assert(order.contains(f));
    let i = order.index_of(f);
    assert(g.call(order[i]).inputs@.contains(v));
    lemma_run_there(g, root, grads, order, order.len() as int, retain_grad, v);
}

/// Some variable was made by each function behind `root`.
pub proof fn lemma_reachable_made<T, O>(g: Graph<T, O>, root: Variable, f: Function) -> (v: Variable)
    requires
        g.wf(),
        g.has(root),
        reachable(g, root, f),
    ensures
        g.has(v),
        g.node(v).creator == Some(f),
        g.call(f).outputs@.contains(v),
{
    let p = choose|p: Seq<Function>| #[trigger]
        path(g, p) && g.node(root).creator == Some(p[0]) && p.last() == f;
    if p.len() == 1 {
        assert(g.node_ok(root.id as int));
        assert(Variable { id: root.id } == root);
        root
    } else {
        let last = p.len() - 1;
        assert(feeds(g, p[last], p[last - 1]));
        let a = p[last - 1];
        let q = p.drop_last();
        assert(path(g, q)) by {
            assert forall|i: int| 0 < i < q.len() implies feeds(g, #[trigger] q[i], q[i - 1]) by {
                assert(feeds(g, p[i], p[i - 1]));
            }
        }
        assert(q.last() == a);
        assert(reachable(g, root, a));
        reachable_functions_are_recorded(g, root, a);
        assert(g.call_ok(a.id as int));
        let k = choose|k: int|
            0 <= k < g.call(a).inputs@.len() && g.node(#[trigger] g.call(a).inputs@[k]).creator
                == Some(f);
        let x = g.call(a).inputs@[k];
        assert(g.has(x));
        assert(g.node_ok(x.id as int));
        assert(Variable { id: x.id } == x);
        x
    }
}

/// Behind a root where every function has one output, what is read and has no creator is
/// a leaf.
pub proof fn variables_without_a_creator_are_leaves<T, O>(
    g: Graph<T, O>,
    root: Variable,
    v: Variable,
)
    requires
        g.wf(),
        g.has(root),
        g.has(v),
        read_behind(g, root, v),
        g.node(v).creator is None,
        forall|f: Function| #[trigger] reachable(g, root, f) ==> g.call(f).outputs@.len() == 1,
    ensures
        leaf_behind(g, root, v),
{
    assert forall|f: Function| #[trigger] reachable(g, root, f) implies !live_output(
        g,
        f,
        v.id as int,
    ) by {
        let made = lemma_reachable_made(g, root, f);
        if live_output(g, f, v.id as int) {
            let outputs = g.call(f).outputs@;
            assert(Variable { id: v.id } == v);
            let a = outputs.index_of(made);
            let b = outputs.index_of(v);
            assert(a == 0 && b == 0);
        }
    }
}

/// With `retain_grad`, a backward pass leaves a gradient at everything that a function
/// behind its root reads, and at whatever had one.
pub proof fn retained_gradients_stay<T: Scalar, O: Op<T>>(
    g: Graph<T, O>,
    root: Variable,
    grads: Seq<Option<Array<T>>>,
    order: Seq<Function>,
    v: Variable,
)
    requires
        g.wf(),
        g.has(root),
        g.has(v),
        grads.len() == g.nodes@.len(),
        is_schedule(g, root, order),
        grads[v.id as int] is Some || read_behind(g, root, v),
    ensures
        run(g, grads, order, order.len() as int, true)[v.id as int] is Some,
{
    if read_behind(g, root, v) {
        let f = choose|f: Function| #[trigger]
            reachable(g, root, f) && g.call(f).inputs@.contains(v);
        assert(order.contains(f));
        let i = order.index_of(f);
        assert(g.call(order[i]).inputs@.contains(v));
    }
    lemma_run_there(g, root, grads, order, order.len() as int, true, v);
}

/// The functions on a path were recorded ever earlier.
proof fn lemma_path_descends<T, O>(g: Graph<T, O>, root: Variable, p: Seq<Function>)
    requires
        g.wf(),
        g.has(root),
        path(g, p),
        g.node(root).creator == Some(p[0]),
    ensures
        g.knows(p.last()),
        p.last().id <= p[0].id,
    decreases p.len(),
{
    assert(reachable(g, root, p.last()));
    reachable_functions_are_recorded(g, root, p.last());
    if p.len() > 1 {
        let q = p.drop_last();
        assert(path(g, q)) by {
            assert forall|i: int| 0 < i < q.len() implies feeds(g, #[trigger] q[i], q[i - 1]) by {
                assert(feeds(g, p[i], p[i - 1]));
            }
        }
        lemma_path_descends(g, root, q);
        let i = p.len() - 1;
        assert(feeds(g, p[i], p[i - 1]));
        assert(q.last() == p[i - 1]);
        assert(g.call_ok(p[i - 1].id as int));
    }
}

/// Nothing behind a variable reads it.
pub proof fn nothing_behind_a_variable_reads_it<T, O>(g: Graph<T, O>, root: Variable)
    requires
        g.wf(),
        g.has(root),
    ensures
        !read_behind(g, root, root),
{
    if read_behind(g, root, root) {
        let f = choose|f: Function| #[trigger]
            reachable(g, root, f) && g.call(f).inputs@.contains(root);
        let p = choose|p: Seq<Function>| #[trigger]
            path(g, p) && g.node(root).creator == Some(p[0]) && p.last() == f;
        lemma_path_descends(g, root, p);
        assert(g.call_ok(f.id as int));
        let k = g.call(f).inputs@.index_of(root);
        assert(g.call(f).inputs@[k] == root);
    }
}

/// With `retain_grad`, the root of a backward pass keeps the gradient that the pass
/// started with.
pub proof fn the_root_keeps_its_gradient<T: Scalar, O: Op<T>>(
    g: Graph<T, O>,
    root: Variable,
    grads: Seq<Option<Array<T>>>,
    order: Seq<Function>,
    n: int,
)
    requires
        g.wf(),
        g.has(root),
        grads.len() == g.nodes@.len(),
        is_schedule(g, root, order),
        0 <= n <= order.len(),
    ensures
        run(g, grads, order, n, true)[root.id as int] == grads[root.id as int],
    decreases n,
{
    if n > 0 {
        the_root_keeps_its_gradient(g, root, grads, order, n - 1);
        let f = order[n - 1];
        let before = run(g, grads, order, n - 1, true);
        assert(order.contains(f));
        assert(reachable(g, root, f));
        reachable_functions_are_recorded(g, root, f);
        nothing_behind_a_variable_reads_it(g, root);
        lemma_run_len(g, root, grads, order, n - 1, true);
        let call = g.call(f);
        let gxs = O::gradient(
            (*call.op).rule(),
            g.arrays(call.inputs@),
            outputs_of(g, f),
            output_grads(g, before, f),
        );
        assert(g.call_ok(f.id as int));
        assert forall|k: int| 0 <= k < call.inputs@.len() implies #[trigger] call.inputs@[k] != root
            && call.inputs@[k].id < grads.len() by {
            assert(g.has(call.inputs@[k]));
            assert(call.inputs@.contains(call.inputs@[k]));
        }
        lemma_accumulated_elsewhere(before, call.inputs@, gxs, call.inputs@.len() as int, root);
    }
}

/// From a variable without a creator, a backward pass does nothing more than start.
pub proof fn without_a_creator_a_pass_only_starts<T: Scalar, O: Op<T>>(
    g: Graph<T, O>,
    root: Variable,
    grads: Seq<Option<Array<T>>>,
    order: Seq<Function>,
    retain_grad: bool,
)
    requires
        is_schedule(g, root, order),
        g.node(root).creator is None,
    ensures
        run(g, grads, order, order.len() as int, retain_grad) == grads,
{
    if order.len() > 0 {
        assert(order.contains(order[0]));
        assert(reachable(g, root, order[0]));
    }
}

/// What a backward pass leaves behind in a graph without gradients: one at every leaf
/// behind the root; none at anything that a function there made and that is still held,
/// unless they are retained, and then one there too; and ones at the root, where they are
/// retained or nothing is behind it. `after` is the graph that the pass left behind.
pub proof fn what_a_pass_leaves_behind<T: Scalar, O: Op<T>>(
    g: Graph<T, O>,
    after: Graph<T, O>,
    root: Variable,
    order: Seq<Function>,
    retain_grad: bool,
    v: Variable,
)
    requires
        g.wf(),
        g.has(root),
        g.has(v),
        is_schedule(g, root, order),
        forall|i: int| 0 <= i < g.nodes@.len() ==> (#[trigger] g.nodes@[i]).grad is None,
        forall|u: Variable| g.has(u) ==> #[trigger] grad_holds(after, u),
        holds_grads(
            after,
            run(g, seeded(g, root), order, order.len() as int, retain_grad),
        ),
    ensures
        leaf_behind(g, root, v) ==> after.node(v).grad is Some,
        retain_grad && read_behind(g, root, v) ==> after.node(v).grad is Some,
        !retain_grad && g.node(v).alive ==> (g.node(v).creator matches Some(f) ==> (reachable(
            g,
            root,
            f,
        ) ==> after.node(v).grad is None)),
        retain_grad || g.node(root).creator is None ==> (after.node(root).grad matches Some(u)
            && after.array(u) == Some(ones_of(g, root))),
        g.node(root).creator is None && v != root ==> after.node(v).grad is None,
        !touched(g, root, v) && v != root ==> after.node(v).grad is None,
{
    let start = seeded(g, root);
    let n = order.len() as int;
    let i = v.id as int;
    let left = run(g, start, order, n, retain_grad);
    lemma_run_len(g, root, start, order, n, retain_grad);
    assert(g.nodes@[root.id as int].grad is None);
    assert(g.nodes@[i].grad is None);
    assert(v != root ==> start[i] is None);
    assert(left[i] == gradients(after)[i]);
    assert(left[root.id as int] == gradients(after)[root.id as int]);
    assert(grad_holds(after, v) && grad_holds(after, root));
    if leaf_behind(g, root, v) {
        leaves_have_gradients(g, root, start, order, retain_grad, v);
    }
    if retain_grad {
        the_root_keeps_its_gradient(g, root, start, order, n);
        if read_behind(g, root, v) {
            retained_gradients_stay(g, root, start, order, v);
        }
    } else if g.node(v).alive && g.node(v).creator is Some {
        let f = g.node(v).creator->0;
        if reachable(g, root, f) {
            assert(order.contains(f));
            let k = order.index_of(f);
            assert(g.node_ok(i));
            assert(live_output(g, f, i));
            gradients_in_between_are_cleared(g, root, start, order, n, k, v);
        }
    }
    if g.node(root).creator is None {
        without_a_creator_a_pass_only_starts(g, root, start, order, retain_grad);
    }
    if !touched(g, root, v) && v != root {
        untouched_gradients_stay(g, root, start, order, n, retain_grad, v);
    }
}

/// A function that has just been recorded can pass gradients on, where its operation is
/// differentiable at its inputs.
pub proof fn recorded_functions_are_ready<T: Scalar, O: Op<T>>(
    before: Graph<T, O>,
    after: Graph<T, O>,
    rule: O::Rule,
    inputs: Seq<Variable>,
    outputs: Seq<Variable>,
)
    requires
        before.wf(),
        after.wf(),
        before.calls@.len() <= usize::MAX,
        before.config.enable_backprop,
        before.all_hold(inputs),
        applied(before, after, rule, inputs, outputs),
        O::differentiable(
            O::recorded(rule, before.arrays(inputs)),
            shapes(before.arrays(inputs)),
        ),
        O::out_shapes(
            O::recorded(rule, before.arrays(inputs)),
            shapes(before.arrays(inputs)),
        ) == shapes(O::value(rule, before.arrays(inputs))),
    ensures
        call_ready(after, Function { id: before.calls@.len() as usize }),
{
    let f = Function { id: before.calls@.len() as usize };
    let call = after.call(f);
    assert(after.arrays(inputs) =~= before.arrays(inputs)) by {
        assert forall|k: int| 0 <= k < inputs.len() implies after.arrays(inputs)[k]
            == before.arrays(inputs)[k] by {
            assert(before.has(inputs[k]));
            let n = after.nodes@[inputs[k].id as int];
        }
    }
    assert forall|k: int| 0 <= k < inputs.len() implies after.has(#[trigger] inputs[k])
        && after.node(inputs[k]).data.is_some() by {
        assert(before.has(inputs[k]));
        let n = after.nodes@[inputs[k].id as int];
    }
    let ys = O::value(rule, before.arrays(inputs));
    assert forall|i: int|
        0 <= i < call.outputs@.len() && after.node(#[trigger] call.outputs@[i]).alive implies holds(
        after,
        call.outputs@[i],
    ) && held(after, call.outputs@[i]).shape == call.output_shapes@[i]@ by {
        let v = outputs[i];
        assert(after.call_ok(f.id as int));
        assert(v.id == before.nodes@.len() + i);
        assert(after.array(v) == Some(ys[i]));
        assert(lists(call.output_shapes@)[i] == shapes(ys)[i]);
    }
}

} // verus!
