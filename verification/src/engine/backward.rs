//! The backward pass.
//!
//! Gradients are ordinary variables, made by ordinary operations, so that they can be
//! differentiated again. What a pass computes is stated over the arrays that the
//! gradients hold: [`run`] folds [`step`] over the functions of a schedule.
use crate::engine::builtin::{held, holds};
use crate::engine::config::using_enable_backprop;
use crate::engine::elementwise::{lemma_joint_with_itself, zip_spec, Arithmetic};
use crate::engine::function::{live_outputs, Backprop, Op};
use crate::engine::graph::{
    lemma_history_kept, lemma_nodes_ok, lists, Function, Graph, Node, Variable,
};
use crate::engine::rule::{shapes, Rule};
use crate::engine::schedule::{
    feeds, is_schedule, path, reachable, reachable_functions_are_recorded, schedule,
};
use crate::engine::term::{
    binary, lemma_all_kept, lemma_binary, lemma_constant, lemma_remembers, means, remembers, written,
    Term,
};
use crate::scalar::Scalar;
use crate::tensor::{full_spec, Array, Tensor};
use vstd::prelude::*;

verus! {

/// For each variable, the array that its gradient holds.
pub open spec fn gradients<T, O>(g: Graph<T, O>) -> Seq<Option<Array<T>>> {
    Seq::new(
        g.nodes@.len(),
        |i: int|
            match g.nodes@[i].grad {
                Some(v) => g.array(v),
                None => None,
            },
    )
}

/// Whether `after` is `before` with more in it and other gradients.
pub open spec fn keeps<T, O>(before: Graph<T, O>, after: Graph<T, O>) -> bool {
    &&& before.nodes@.len() <= after.nodes@.len()
    &&& before.calls@.len() <= after.calls@.len()
    &&& forall|i: int|
        0 <= i < before.nodes@.len() ==> (#[trigger] after.nodes@[i]) == (Node {
            grad: after.nodes@[i].grad,
            ..before.nodes@[i]
        })
    &&& forall|i: int|
        0 <= i < before.calls@.len() ==> #[trigger] after.calls@[i] == before.calls@[i]
}

/// The outputs of a function as its gradient sees them: zeros stand in for those that
/// nobody holds any more.
pub open spec fn outputs_of<T: Scalar, O>(g: Graph<T, O>, f: Function) -> Seq<Array<T>> {
    let call = g.call(f);
    Seq::new(
        call.outputs@.len(),
        |i: int|
            if g.node(call.outputs@[i]).alive {
                held(g, call.outputs@[i])
            } else {
                full_spec(call.output_shapes@[i]@, T::zero_spec())
            },
    )
}

/// The gradients of the outputs of a function: zeros stand in for missing ones.
pub open spec fn output_grads<T: Scalar, O>(
    g: Graph<T, O>,
    grads: Seq<Option<Array<T>>>,
    f: Function,
) -> Seq<Array<T>> {
    let call = g.call(f);
    Seq::new(
        call.outputs@.len(),
        |i: int|
            {
                let y = call.outputs@[i];
                if g.node(y).alive && grads[y.id as int].is_some() {
                    grads[y.id as int]->0
                } else {
                    full_spec(outputs_of(g, f)[i].shape, T::zero_spec())
                }
            },
    )
}

/// A gradient with another one added to it.
pub open spec fn plus_grad<T: Scalar>(grad: Option<Array<T>>, more: Array<T>) -> Array<T> {
    match grad {
        None => more,
        Some(grad) => zip_spec(Arithmetic::Plus, grad, more),
    }
}

/// The gradients after the first `n` inputs have received theirs.
pub open spec fn accumulated<T: Scalar>(
    grads: Seq<Option<Array<T>>>,
    inputs: Seq<Variable>,
    gxs: Seq<Array<T>>,
    n: int,
) -> Seq<Option<Array<T>>>
    decreases n,
{
    if n <= 0 {
        grads
    } else {
        let before = accumulated(grads, inputs, gxs, n - 1);
        let x = inputs[n - 1].id as int;
        before.update(x, Some(plus_grad(before[x], gxs[n - 1])))
    }
}

/// Whether variable `i` is an output of `f` that somebody still holds.
pub open spec fn live_output<T, O>(g: Graph<T, O>, f: Function, i: int) -> bool {
    &&& g.nodes@[i].alive
    &&& g.call(f).outputs@.contains(Variable { id: i as usize })
}

/// The gradients without those of the outputs of `f`.
pub open spec fn cleared<T, O, A>(
    g: Graph<T, O>,
    grads: Seq<Option<A>>,
    f: Function,
) -> Seq<Option<A>> {
    Seq::new(
        grads.len(),
        |i: int|
            if live_output(g, f, i) {
                None
            } else {
                grads[i]
            },
    )
}

/// The gradients after `f` has passed those of its outputs on to its inputs.
pub open spec fn step<T: Scalar, O: Op<T>>(
    g: Graph<T, O>,
    grads: Seq<Option<Array<T>>>,
    f: Function,
    retain_grad: bool,
) -> Seq<Option<Array<T>>> {
    let call = g.call(f);
    let gxs = O::gradient(
        (*call.op).rule(),
        g.arrays(call.inputs@),
        outputs_of(g, f),
        output_grads(g, grads, f),
    );
    let passed = accumulated(grads, call.inputs@, gxs, call.inputs@.len() as int);
    if retain_grad {
        passed
    } else {
        cleared(g, passed, f)
    }
}

/// The gradients after the first `n` functions of `order` have been visited.
pub open spec fn run<T: Scalar, O: Op<T>>(
    g: Graph<T, O>,
    grads: Seq<Option<Array<T>>>,
    order: Seq<Function>,
    n: int,
    retain_grad: bool,
) -> Seq<Option<Array<T>>>
    decreases n,
{
    if n <= 0 {
        grads
    } else {
        step(g, run(g, grads, order, n - 1, retain_grad), order[n - 1], retain_grad)
    }
}

/// The variables that are the gradients of the first `n` variables.
pub open spec fn grad_vars<T, O>(g: Graph<T, O>, n: nat) -> Seq<Option<Variable>> {
    Seq::new(n, |i: int| g.nodes@[i].grad)
}

/// The gradient variables after the first `n` inputs have received the listed ones.
pub open spec fn received(
    vars: Seq<Option<Variable>>,
    inputs: Seq<Variable>,
    sums: Seq<Variable>,
    n: int,
) -> Seq<Option<Variable>>
    decreases n,
{
    if n <= 0 {
        vars
    } else {
        received(vars, inputs, sums, n - 1).update(inputs[n - 1].id as int, Some(sums[n - 1]))
    }
}

/// Whether `sum` is recorded as what a gradient becomes when `more` is added to it.
pub open spec fn added<T: Scalar, O: Op<T>>(
    g: Graph<T, O>,
    grad: Option<Variable>,
    more: Variable,
    sum: Variable,
) -> bool {
    match grad {
        None => sum == more,
        Some(grad) => means(
            g,
            sum,
            binary(Rule::Add, Term::Given(grad), Term::Given(more)),
        ),
    }
}

/// The variables that take part when a function passes gradients on: its outputs and
/// their gradients, the gradients of its inputs, and what those add up to.
pub ghost struct Passing {
    pub outputs: Seq<Variable>,
    pub gys: Seq<Variable>,
    pub gxs: Seq<Variable>,
    pub sums: Seq<Variable>,
}

/// Whether `v` stands for an output that nobody holds any more, or for a gradient that
/// is missing: it holds zeros.
pub open spec fn stand_in<T: Scalar, O: Op<T>>(g: Graph<T, O>, v: Variable, shape: Seq<usize>) -> bool {
    means(g, v, Term::Constant(full_spec(shape, T::zero_spec())))
}

/// Whether `after` records how `f` passed on gradients in `g`, turning the gradient
/// variables `vars` into `now`.
pub open spec fn passed_on<T: Scalar, O: Op<T>>(
    g: Graph<T, O>,
    after: Graph<T, O>,
    f: Function,
    retain_grad: bool,
    vars: Seq<Option<Variable>>,
    now: Seq<Option<Variable>>,
    p: Passing,
) -> bool {
    let call = g.call(f);
    let n = call.inputs@.len();
    let gradients = O::expressions(
        (*call.op).rule(),
        g.arrays(call.inputs@),
        after.arrays(p.gys),
        call.inputs@,
        p.outputs,
        p.gys,
    );
    let all = received(vars, call.inputs@, p.sums, n as int);
    &&& after.all_hold(p.gys)
    &&& outputs_recorded(g, after, f, p.outputs)
    &&& gradients_recorded(g, after, f, vars, p.gys)
    &&& p.gxs.len() == n
    &&& gradients.len() == n
    &&& p.sums.len() == n
    &&& forall|i: int| 0 <= i < n ==> means(after, #[trigger] p.gxs[i], gradients[i])
    &&& forall|i: int|
        0 <= i < n ==> added(
            after,
            received(vars, call.inputs@, p.sums, i)[call.inputs@[i].id as int],
            p.gxs[i],
            #[trigger] p.sums[i],
        )
    &&& now == if retain_grad {
        all
    } else {
        cleared(g, all, f)
    }
}

/// Whether `after` records how `f` passed on gradients in `g`.
pub open spec fn step_recorded<T: Scalar, O: Op<T>>(
    g: Graph<T, O>,
    after: Graph<T, O>,
    f: Function,
    retain_grad: bool,
    vars: Seq<Option<Variable>>,
    now: Seq<Option<Variable>>,
) -> bool {
    exists|p: Passing| passed_on(g, after, f, retain_grad, vars, now, p)
}

/// Whether the listed variables are the outputs of `f`.
pub open spec fn outputs_recorded<T: Scalar, O: Op<T>>(
    g: Graph<T, O>,
    after: Graph<T, O>,
    f: Function,
    outputs: Seq<Variable>,
) -> bool {
    let call = g.call(f);
    &&& outputs.len() == call.outputs@.len()
    &&& forall|i: int|
        0 <= i < outputs.len() ==> if g.node(call.outputs@[i]).alive {
            #[trigger] outputs[i] == call.outputs@[i]
        } else {
            stand_in(after, outputs[i], call.output_shapes@[i]@)
        }
}

/// Whether the listed variables are the gradients of the outputs of `f`.
pub open spec fn gradients_recorded<T: Scalar, O: Op<T>>(
    g: Graph<T, O>,
    after: Graph<T, O>,
    f: Function,
    vars: Seq<Option<Variable>>,
    gys: Seq<Variable>,
) -> bool {
    let call = g.call(f);
    &&& gys.len() == call.outputs@.len()
    &&& forall|i: int|
        0 <= i < gys.len() ==> {
            let y = call.outputs@[i];
            if g.node(y).alive && vars[y.id as int] is Some {
                #[trigger] gys[i] == vars[y.id as int]->0
            } else {
                stand_in(after, gys[i], outputs_of(g, f)[i].shape)
            }
        }
}

/// Whether `after` records a whole pass from `root` over the functions of `order`: the
/// gradient variables before each of them and after the last.
pub open spec fn pass_recorded<T: Scalar, O: Op<T>>(
    g: Graph<T, O>,
    after: Graph<T, O>,
    root: Variable,
    order: Seq<Function>,
    retain_grad: bool,
    trail: Seq<Seq<Option<Variable>>>,
) -> bool {
    let n = g.nodes@.len();
    let first = grad_vars(g, n);
    &&& trail.len() == order.len() + 1
    &&& match g.node(root).grad {
        Some(_) => trail[0] == first,
        None => exists|seed: Variable|
            trail[0] == first.update(root.id as int, Some(seed)) && #[trigger] means(
                after,
                seed,
                Term::Constant(ones_of(g, root)),
            ),
    }
    &&& forall|k: int|
        0 <= k < order.len() ==> step_recorded(
            g,
            after,
            #[trigger] order[k],
            retain_grad,
            trail[k],
            trail[k + 1],
        )
    &&& trail.last() == grad_vars(after, n)
}

/// Whether a function can pass gradients on: its inputs hold data that its operation
/// can be differentiated at, and its outputs have the shapes that they were recorded
/// with.
pub open spec fn call_ready<T: Scalar, O: Op<T>>(g: Graph<T, O>, f: Function) -> bool {
    let call = g.call(f);
    let s = shapes(g.arrays(call.inputs@));
    &&& g.all_hold(call.inputs@)
    &&& O::differentiable((*call.op).rule(), s)
    &&& O::out_shapes((*call.op).rule(), s) == lists(call.output_shapes@)
    &&& forall|i: int|
        0 <= i < call.outputs@.len() && g.node(#[trigger] call.outputs@[i]).alive ==> {
            &&& holds(g, call.outputs@[i])
            &&& held(g, call.outputs@[i]).shape == call.output_shapes@[i]@
        }
}

/// Whether a gradient, if there is one, has the shape of its variable.
pub open spec fn grad_fits<T, O>(
    g: Graph<T, O>,
    grads: Seq<Option<Array<T>>>,
    v: Variable,
) -> bool {
    grads[v.id as int] matches Some(a) ==> a.shape == held(g, v).shape
}

/// Whether the gradients of everything that `f` reads and writes have the shapes of
/// their variables.
pub open spec fn grads_fit<T, O>(
    g: Graph<T, O>,
    grads: Seq<Option<Array<T>>>,
    f: Function,
) -> bool {
    let call = g.call(f);
    &&& forall|i: int| 0 <= i < call.inputs@.len() ==> grad_fits(g, grads, #[trigger] call.inputs@[i])
    &&& forall|i: int|
        0 <= i < call.outputs@.len() && g.node(#[trigger] call.outputs@[i]).alive ==> grad_fits(
            g,
            grads,
            call.outputs@[i],
        )
}

/// Whether the gradients that `f` passes on have the shapes of its inputs.
pub open spec fn shapes_kept<T: Scalar, O: Op<T>>(
    g: Graph<T, O>,
    grads: Seq<Option<Array<T>>>,
    f: Function,
) -> bool {
    let call = g.call(f);
    shapes(
        O::gradient(
            (*call.op).rule(),
            g.arrays(call.inputs@),
            outputs_of(g, f),
            output_grads(g, grads, f),
        ),
    ) == shapes(g.arrays(call.inputs@))
}

/// Whether that holds of the first `n` functions of a pass.
pub open spec fn shapes_kept_throughout<T: Scalar, O: Op<T>>(
    g: Graph<T, O>,
    grads: Seq<Option<Array<T>>>,
    order: Seq<Function>,
    n: int,
    retain_grad: bool,
) -> bool {
    forall|k: int|
        0 <= k < n ==> shapes_kept(
            g,
            run(g, grads, order, k, retain_grad),
            #[trigger] order[k],
        )
}

/// Whether the gradient of a variable, if there is one, holds data.
pub open spec fn grad_holds<T, O>(g: Graph<T, O>, v: Variable) -> bool {
    g.node(v).grad matches Some(u) ==> holds(g, u)
}

/// Whether the gradients of everything that `f` reads and writes hold data.
pub open spec fn grads_hold<T, O>(g: Graph<T, O>, f: Function) -> bool {
    let call = g.call(f);
    &&& forall|i: int| 0 <= i < call.inputs@.len() ==> grad_holds(g, #[trigger] call.inputs@[i])
    &&& forall|i: int|
        0 <= i < call.outputs@.len() && g.node(#[trigger] call.outputs@[i]).alive ==> grad_holds(
            g,
            call.outputs@[i],
        )
}

/// Whether the gradients of the first `n` variables have no history of their own.
pub open spec fn grads_detached<T, O>(g: Graph<T, O>, n: int) -> bool {
    forall|i: int|
        0 <= i < n ==> ((#[trigger] g.nodes@[i]).grad matches Some(v) ==> g.node(v).creator is None)
}

/// Whether the gradients of the first variables of `g` are `grads`.
pub open spec fn holds_grads<T, O>(g: Graph<T, O>, grads: Seq<Option<Array<T>>>) -> bool {
    &&& grads.len() <= g.nodes@.len()
    &&& forall|i: int| 0 <= i < grads.len() ==> #[trigger] grads[i] == gradients(g)[i]
}

pub proof fn lemma_keeps_transitive<T, O>(a: Graph<T, O>, b: Graph<T, O>, c: Graph<T, O>)
    requires
        keeps(a, b),
        keeps(b, c),
    ensures
        keeps(a, c),
{
    assert forall|i: int| 0 <= i < a.nodes@.len() implies (#[trigger] c.nodes@[i]) == (Node {
        grad: c.nodes@[i].grad,
        ..a.nodes@[i]
    }) by {
        let n = b.nodes@[i];
    }
    assert forall|i: int| 0 <= i < a.calls@.len() implies #[trigger] c.calls@[i]
        == a.calls@[i] by {
        let n = b.calls@[i];
    }
}

/// More variables leave the gradients as they are.
proof fn lemma_grads_extended<T, O>(
    before: Graph<T, O>,
    after: Graph<T, O>,
    grads: Seq<Option<Array<T>>>,
)
    requires
        before.wf(),
        holds_grads(before, grads),
        before.nodes@.len() <= after.nodes@.len(),
        forall|i: int|
            0 <= i < before.nodes@.len() ==> #[trigger] after.nodes@[i] == before.nodes@[i],
    ensures
        holds_grads(after, grads),
        forall|v: Variable| #[trigger]
            grad_holds(after, v) <== before.has(v) && grad_holds(before, v),
        grads_detached(before, grads.len() as int) ==> grads_detached(after, grads.len() as int),
{
    lemma_nodes_ok(before);
    assert forall|v: Variable| before.has(v) && grad_holds(before, v) implies #[trigger] grad_holds(
        after,
        v,
    ) by {
        let n = after.nodes@[v.id as int];
        if let Some(u) = n.grad {
            let m = after.nodes@[u.id as int];
        }
    }
    assert forall|i: int| 0 <= i < grads.len() implies #[trigger] grads[i] == gradients(
        after,
    )[i] by {
        assert(grads[i] == gradients(before)[i]);
        assert(after.nodes@[i] == before.nodes@[i]);
        if let Some(v) = after.nodes@[i].grad {
            let n = after.nodes@[v.id as int];
        }
    }
    if grads_detached(before, grads.len() as int) {
        assert forall|i: int| 0 <= i < grads.len() implies ((#[trigger] after.nodes@[i]).grad matches Some(
            v,
        ) ==> after.node(v).creator is None) by {
            if let Some(v) = before.nodes@[i].grad {
                let n = after.nodes@[v.id as int];
            }
        }
    }
}

/// Replacing one gradient changes that one alone.
proof fn lemma_grad_set<T, O>(
    before: Graph<T, O>,
    after: Graph<T, O>,
    grads: Seq<Option<Array<T>>>,
    x: Variable,
    grad: Option<Variable>,
)
    requires
        before.wf(),
        holds_grads(before, grads),
        (x.id as int) < grads.len(),
        after.nodes@ == before.nodes@.update(x.id as int, (Node { grad, ..before.node(x) })),
        grad matches Some(v) ==> holds(before, v),
    ensures
        holds_grads(
            after,
            grads.update(
                x.id as int,
                match grad {
                    Some(v) => Some(held(before, v)),
                    None => None,
                },
            ),
        ),
        grad_holds(after, x),
        forall|v: Variable| #[trigger]
            grad_holds(after, v) <== before.has(v) && grad_holds(before, v),
        grads_detached(before, grads.len() as int) && (grad matches Some(v) ==> before.node(
            v,
        ).creator is None) ==> grads_detached(after, grads.len() as int),
{
    let value = match grad {
        Some(v) => Some(held(before, v)),
        None => None,
    };
    let updated = grads.update(x.id as int, value);
    lemma_nodes_ok(before);
    assert forall|v: Variable| before.has(v) implies after.has(v) && after.array(v)
        == #[trigger] before.array(v) && after.node(v).data == before.node(v).data && after.node(
        v,
    ).creator == before.node(v).creator by {
        let n = after.nodes@[v.id as int];
    }
    assert(grad_holds(after, x)) by {
        if let Some(v) = grad {
            let a = before.array(v);
        }
    }
    assert forall|v: Variable| before.has(v) && grad_holds(before, v) implies #[trigger] grad_holds(
        after,
        v,
    ) by {
        if v.id != x.id {
            let n = before.nodes@[v.id as int];
            if let Some(u) = n.grad {
                let a = before.array(u);
            }
        }
    }
    assert forall|i: int| 0 <= i < updated.len() implies #[trigger] updated[i] == gradients(
        after,
    )[i] by {
        if i != x.id {
            assert(grads[i] == gradients(before)[i]);
            let n = before.nodes@[i];
            if let Some(v) = n.grad {
                let a = before.array(v);
            }
        } else if let Some(v) = grad {
            let a = before.array(v);
        }
    }
    if grads_detached(before, grads.len() as int) && (grad matches Some(v) ==> before.node(
        v,
    ).creator is None) {
        assert forall|i: int| 0 <= i < grads.len() implies ((#[trigger] after.nodes@[i]).grad matches Some(
            v,
        ) ==> after.node(v).creator is None) by {
            if i != x.id {
                let n = before.nodes@[i];
                if let Some(v) = n.grad {
                    let a = before.array(v);
                }
            } else if let Some(v) = grad {
                let a = before.array(v);
            }
        }
    }
}

/// What a graph gains without a new function has no creator.
proof fn lemma_gained_without_creator<T, O>(before: Graph<T, O>, after: Graph<T, O>, v: Variable)
    requires
        before.wf(),
        after.wf(),
        after.extends(before),
        after.calls@.len() == before.calls@.len(),
        after.has(v),
        v.id >= before.nodes@.len(),
    ensures
        after.node(v).creator is None,
{
    assert(after.node_ok(v.id as int));
    if let Some(f) = after.node(v).creator {
        let outputs = after.call(f).outputs@;
        assert(before.call_ok(f.id as int));
        assert(after.calls@[f.id as int] == before.calls@[f.id as int]);
        let k = outputs.index_of(v);
        assert(before.has(before.call(f).outputs@[k]));
    }
}

/// The outputs of a function and their gradients, as variables.
fn collect_output_grads<T: Scalar, O: Op<T>>(
    g: &mut Graph<T, O>,
    func: &Function,
    Ghost(grads): Ghost<Seq<Option<Array<T>>>>,
) -> (r: (Vec<Variable>, Vec<Variable>))
    requires
        old(g).wf(),
        old(g).knows(*func),
        call_ready(*old(g), *func),
        holds_grads(*old(g), grads),
        forall|i: int|
            0 <= i < old(g).call(*func).outputs@.len() ==> (
            #[trigger] old(g).call(*func).outputs@[i]).id < grads.len(),
        grads_hold(*old(g), *func),
    ensures
        grads_detached(*old(g), grads.len() as int) ==> forall|k: int|
            0 <= k < r.1@.len() ==> final(g).node(#[trigger] r.1@[k]).creator is None,
        final(g).wf(),
        final(g).extends(*old(g)),
        final(g).calls@.len() == old(g).calls@.len(),
        final(g).all_hold(r.0@),
        final(g).all_hold(r.1@),
        final(g).arrays(r.0@) == outputs_of(*old(g), *func),
        final(g).arrays(r.1@) == output_grads(*old(g), grads, *func),
        outputs_recorded(*old(g), *final(g), *func, r.0@),
        gradients_recorded(
            *old(g),
            *final(g),
            *func,
            grad_vars(*old(g), grads.len()),
            r.1@,
        ),
{
    let ghost before = *g;
    let ghost call = before.call(*func);
    let ghost ys = outputs_of(before, *func);
    let ghost gs = output_grads(before, grads, *func);
    proof {
        assert(before.call_ok(func.id as int));
    }
    let ghost vars = grad_vars(before, grads.len());
    let live = func.outputs(g);
    let n: usize = live.len();
    let mut outputs: Vec<Variable> = Vec::new();
    let mut gys: Vec<Variable> = Vec::new();
    let mut i: usize = 0;
    while i < n
        invariant
            i <= n,
            g.wf(),
            g.extends(before),
            g.calls@.len() == before.calls@.len(),
            before.knows(*func),
            before.call_ok(func.id as int),
            call == before.call(*func),
            live@ == live_outputs(before, *func),
            n == call.outputs@.len(),
            call_ready(before, *func),
            holds_grads(before, grads),
            forall|k: int|
                0 <= k < call.outputs@.len() ==> (#[trigger] call.outputs@[k]).id < grads.len(),
            grads_hold(before, *func),
            grads_detached(before, grads.len() as int) ==> forall|k: int|
                0 <= k < i ==> g.node(#[trigger] gys@[k]).creator is None,
            ys == outputs_of(before, *func),
            gs == output_grads(before, grads, *func),
            outputs@.len() == i,
            gys@.len() == i,
            forall|k: int|
                0 <= k < i ==> holds(*g, #[trigger] outputs@[k]) && held(*g, outputs@[k]) == ys[k],
            forall|k: int|
                0 <= k < i ==> holds(*g, #[trigger] gys@[k]) && held(*g, gys@[k]) == gs[k],
            vars == grad_vars(before, grads.len()),
            forall|k: int|
                0 <= k < i ==> if before.node(call.outputs@[k]).alive {
                    #[trigger] outputs@[k] == call.outputs@[k]
                } else {
                    stand_in(*g, outputs@[k], call.output_shapes@[k]@)
                },
            forall|k: int|
                0 <= k < i ==> {
                    let y = call.outputs@[k];
                    if before.node(y).alive && vars[y.id as int] is Some {
                        #[trigger] gys@[k] == vars[y.id as int]->0
                    } else {
                        stand_in(*g, gys@[k], ys[k].shape)
                    }
                },
        decreases n - i,
    {
        let ghost g0 = *g;
        let ghost y0 = call.outputs@[i as int];
        proof {
            assert(before.has(y0));
            assert(y0.id < grads.len());
            assert(grads[y0.id as int] == gradients(before)[y0.id as int]);
            let m = before.nodes@[y0.id as int];
            let m2 = g.nodes@[y0.id as int];
        }
        let output: Variable = match live[i] {
            Some(y) => y,
            None => {
                let shape = g.calls[func.id].output_shapes[i].as_slice();
                let zeros = Tensor::full(shape, T::zero());
                Variable::new(g, zeros)
            },
        };
        let ghost g1 = *g;
        proof {
            assert(holds(g1, output) && held(g1, output) == ys[i as int]);
            lemma_nodes_ok(g1);
            lemma_remembers(g0, g1);
            lemma_all_kept(g0, g1);
            if !before.node(y0).alive {
                lemma_constant(g0, g1, output, ys[i as int]);
            }
        }
        let existing = output.grad(g);
        let gy: Variable = match existing {
            Some(gy) => {
                proof {
                    assert(before.nodes@[y0.id as int].grad == Some(gy));
                    assert(grad_holds(before, call.outputs@[i as int]));
                    assert(holds(before, gy));
                    let m3 = g1.nodes@[gy.id as int];
                }
                gy
            },
            None => {
                let shape: Vec<usize> = crate::engine::gradient::shape_held(g, &output);
                let zeros = Tensor::full(shape.as_slice(), T::zero());
                Variable::new(g, zeros)
            },
        };
        proof {
            lemma_remembers(g1, *g);
            lemma_all_kept(g1, *g);
            if existing is None {
                lemma_constant(g1, *g, gy, gs[i as int]);
            }
            assert(holds(*g, gy) && held(*g, gy) == gs[i as int]);
            assert(holds(*g, output) && held(*g, output) == ys[i as int]) by {
                let m4 = g.nodes@[output.id as int];
            }
            assert forall|k: int| 0 <= k < i implies holds(*g, #[trigger] outputs@[k]) && held(
                *g,
                outputs@[k],
            ) == ys[k] by {
                assert(holds(g0, outputs@[k]));
                let m5 = g.nodes@[outputs@[k].id as int];
                let m6 = g1.nodes@[outputs@[k].id as int];
            }
            assert forall|k: int| 0 <= k < i implies holds(*g, #[trigger] gys@[k]) && held(
                *g,
                gys@[k],
            ) == gs[k] by {
                assert(holds(g0, gys@[k]));
                let m5 = g.nodes@[gys@[k].id as int];
                let m6 = g1.nodes@[gys@[k].id as int];
            }
        }
        outputs.push(output);
        gys.push(gy);
        i = i + 1;
    }
    proof {
        assert(g.arrays(outputs@) =~= ys) by {
            assert forall|k: int| 0 <= k < n implies g.arrays(outputs@)[k] == ys[k] by {
                assert(holds(*g, outputs@[k]));
            }
        }
        assert(g.arrays(gys@) =~= gs) by {
            assert forall|k: int| 0 <= k < n implies g.arrays(gys@)[k] == gs[k] by {
                assert(holds(*g, gys@[k]));
            }
        }
        assert forall|k: int| 0 <= k < outputs@.len() implies g.has(#[trigger] outputs@[k])
            && g.node(outputs@[k]).data.is_some() by {
            assert(holds(*g, outputs@[k]));
        }
        assert forall|k: int| 0 <= k < gys@.len() implies g.has(#[trigger] gys@[k]) && g.node(
            gys@[k],
        ).data.is_some() by {
            assert(holds(*g, gys@[k]));
        }
    }
    (outputs, gys)
}

/// A function looks the same in every graph that keeps it.
pub proof fn lemma_call_kept<T: Scalar, O: Op<T>>(
    g0: Graph<T, O>,
    g: Graph<T, O>,
    f: Function,
    grads: Seq<Option<Array<T>>>,
)
    requires
        g0.wf(),
        keeps(g0, g),
        g0.knows(f),
    ensures
        g.knows(f),
        g.call(f) == g0.call(f),
        g.arrays(g.call(f).inputs@) == g0.arrays(g0.call(f).inputs@),
        call_ready(g0, f) ==> call_ready(g, f),
        outputs_of(g, f) == outputs_of(g0, f),
        output_grads(g, grads, f) == output_grads(g0, grads, f),
{
    assert(g0.call_ok(f.id as int));
    let call = g0.call(f);
    assert(g.calls@[f.id as int] == g0.calls@[f.id as int]);
    assert forall|v: Variable| g0.has(v) implies #[trigger] g.node(v) == (Node {
        grad: g.node(v).grad,
        ..g0.node(v)
    }) by {
        let n = g.nodes@[v.id as int];
    }
    assert forall|k: int| 0 <= k < call.inputs@.len() implies g0.has(
        #[trigger] call.inputs@[k],
    ) && g.array(call.inputs@[k]) == g0.array(call.inputs@[k]) by {
        let n = g.node(call.inputs@[k]);
    }
    assert(g.arrays(call.inputs@) =~= g0.arrays(call.inputs@));
    assert forall|k: int| 0 <= k < call.outputs@.len() implies g0.has(
        #[trigger] call.outputs@[k],
    ) && g.array(call.outputs@[k]) == g0.array(call.outputs@[k]) && g.node(
        call.outputs@[k],
    ).alive == g0.node(call.outputs@[k]).alive by {
        let n = g.node(call.outputs@[k]);
    }
    assert(outputs_of(g, f) =~= outputs_of(g0, f));
    assert(output_grads(g, grads, f) =~= output_grads(g0, grads, f)) by {
        assert forall|k: int| 0 <= k < call.outputs@.len() implies output_grads(g, grads, f)[k]
            == output_grads(g0, grads, f)[k] by {
            let n = g.node(call.outputs@[k]);
        }
    }
    if call_ready(g0, f) {
        assert forall|k: int| 0 <= k < call.inputs@.len() implies g.has(#[trigger] call.inputs@[k])
            && g.node(call.inputs@[k]).data.is_some() by {
            assert(g0.has(call.inputs@[k]) && g0.node(call.inputs@[k]).data.is_some());
        }
    }
}

/// Accumulating keeps the number of gradients and the shapes that fit.
proof fn lemma_accumulated<T: Scalar, O>(
    g: Graph<T, O>,
    grads: Seq<Option<Array<T>>>,
    inputs: Seq<Variable>,
    gxs: Seq<Array<T>>,
    n: int,
)
    requires
        0 <= n <= inputs.len(),
        gxs.len() == inputs.len(),
        forall|k: int|
            0 <= k < inputs.len() ==> (#[trigger] inputs[k]).id < grads.len() && gxs[k].shape
                == held(g, inputs[k]).shape,
        forall|k: int| 0 <= k < inputs.len() ==> grad_fits(g, grads, #[trigger] inputs[k]),
    ensures
        accumulated(grads, inputs, gxs, n).len() == grads.len(),
        forall|v: Variable|
            #![trigger grad_fits(g, accumulated(grads, inputs, gxs, n), v)]
            (v.id as int) < grads.len() && grad_fits(g, grads, v) ==> grad_fits(
                g,
                accumulated(grads, inputs, gxs, n),
                v,
            ),
    decreases n,
{
    if n > 0 {
        lemma_accumulated(g, grads, inputs, gxs, n - 1);
        let before = accumulated(grads, inputs, gxs, n - 1);
        let x = inputs[n - 1];
        assert(grad_fits(g, before, x));
        lemma_joint_with_itself(held(g, x).shape);
        let after = accumulated(grads, inputs, gxs, n);
        assert forall|v: Variable|
            #![trigger grad_fits(g, after, v)]
            (v.id as int) < grads.len() && grad_fits(g, grads, v) implies grad_fits(
            g,
            after,
            v,
        ) by {
            assert(grad_fits(g, before, v));
            assert(gxs[n - 1].shape == held(g, inputs[n - 1]).shape);
            if v.id == x.id {
                assert(v == x);
            }
        }
    }
}

/// A step keeps the number of gradients and the shapes that fit.
proof fn lemma_step_fits<T: Scalar, O: Op<T>>(
    g: Graph<T, O>,
    grads: Seq<Option<Array<T>>>,
    f: Function,
    retain_grad: bool,
)
    requires
        g.wf(),
        g.knows(f),
        grads.len() == g.nodes@.len(),
        call_ready(g, f),
        grads_fit(g, grads, f),
        ({
            let call = g.call(f);
            let gxs = O::gradient(
                (*call.op).rule(),
                g.arrays(call.inputs@),
                outputs_of(g, f),
                output_grads(g, grads, f),
            );
            shapes(gxs) == shapes(g.arrays(call.inputs@))
        }),
    ensures
        step(g, grads, f, retain_grad).len() == grads.len(),
        forall|v: Variable|
            #![trigger grad_fits(g, step(g, grads, f, retain_grad), v)]
            g.has(v) && grad_fits(g, grads, v) ==> grad_fits(
                g,
                step(g, grads, f, retain_grad),
                v,
            ),
{
    let call = g.call(f);
    let xs = g.arrays(call.inputs@);
    let gxs = O::gradient(
        (*call.op).rule(),
        xs,
        outputs_of(g, f),
        output_grads(g, grads, f),
    );
    assert(g.call_ok(f.id as int));
    assert(shapes(gxs).len() == shapes(xs).len());
    assert forall|k: int| 0 <= k < call.inputs@.len() implies (#[trigger] call.inputs@[k]).id
        < grads.len() && gxs[k].shape == held(g, call.inputs@[k]).shape by {
        assert(g.has(call.inputs@[k]));
        assert(shapes(gxs)[k] == shapes(xs)[k]);
    }
    lemma_accumulated(g, grads, call.inputs@, gxs, call.inputs@.len() as int);
    let passed = accumulated(grads, call.inputs@, gxs, call.inputs@.len() as int);
    assert forall|v: Variable|
        #![trigger grad_fits(g, step(g, grads, f, retain_grad), v)]
        g.has(v) && grad_fits(g, grads, v) implies grad_fits(
        g,
        step(g, grads, f, retain_grad),
        v,
    ) by {
        assert(grad_fits(g, passed, v));
    }
}

/// A graph that keeps another remembers it.
proof fn lemma_keeps_remembers<T, O>(before: Graph<T, O>, after: Graph<T, O>)
    requires
        keeps(before, after),
    ensures
        remembers(before, after),
{
    assert forall|i: int| 0 <= i < before.nodes@.len() implies {
        &&& (#[trigger] after.nodes@[i]).data == before.nodes@[i].data
        &&& after.nodes@[i].creator == before.nodes@[i].creator
    } by {
        let n = after.nodes@[i];
    }
}

/// Adds the gradients of the inputs of a function to those that the inputs have.
#[verifier::rlimit(40)]
fn receive<T: Scalar, O: Op<T>>(
    g: &mut Graph<T, O>,
    inputs: &Vec<Variable>,
    gxs: &Vec<Variable>,
    Ghost(g0): Ghost<Graph<T, O>>,
    Ghost(grads): Ghost<Seq<Option<Array<T>>>>,
) -> (sums: Ghost<Seq<Variable>>)
    requires
        old(g).wf(),
        g0.wf(),
        keeps(g0, *old(g)),
        g0.all_hold(inputs@),
        old(g).all_hold(gxs@),
        inputs@.len() == gxs@.len(),
        forall|k: int|
            0 <= k < inputs@.len() ==> held(*old(g), #[trigger] gxs@[k]).shape == held(
                g0,
                inputs@[k],
            ).shape,
        grads.len() == g0.nodes@.len(),
        holds_grads(*old(g), grads),
        forall|k: int| 0 <= k < inputs@.len() ==> grad_fits(g0, grads, #[trigger] inputs@[k]),
        forall|k: int| 0 <= k < inputs@.len() ==> grad_holds(*old(g), #[trigger] inputs@[k]),
    ensures
        final(g).wf(),
        forall|v: Variable| #[trigger]
            grad_holds(*final(g), v) <== old(g).has(v) && grad_holds(*old(g), v),
        !old(g).config.enable_backprop && grads_detached(*old(g), grads.len() as int) && (forall|k: int|
            0 <= k < gxs@.len() ==> old(g).node(#[trigger] gxs@[k]).creator is None)
            ==> grads_detached(*final(g), grads.len() as int),
        keeps(*old(g), *final(g)),
        keeps(g0, *final(g)),
        final(g).config == old(g).config,
        !old(g).config.enable_backprop ==> final(g).calls@.len() == old(g).calls@.len(),
        holds_grads(
            *final(g),
            accumulated(grads, inputs@, old(g).arrays(gxs@), inputs@.len() as int),
        ),
        sums@.len() == inputs@.len(),
        grad_vars(*final(g), grads.len()) == received(
            grad_vars(*old(g), grads.len()),
            inputs@,
            sums@,
            inputs@.len() as int,
        ),
        old(g).config.enable_backprop ==> forall|k: int|
            0 <= k < inputs@.len() ==> added(
                *final(g),
                received(
                    grad_vars(*old(g), grads.len()),
                    inputs@,
                    sums@,
                    k,
                )[inputs@[k].id as int],
                gxs@[k],
                #[trigger] sums@[k],
            ),
{
    let ghost g3 = *g;
    let ghost want = g.arrays(gxs@);
    let ghost vars = grad_vars(g3, grads.len());
    let ghost mut made: Seq<Variable> = Seq::empty();
    let ghost loose = !g3.config.enable_backprop && grads_detached(g3, grads.len() as int) && (
    forall|k: int| 0 <= k < gxs@.len() ==> g3.node(#[trigger] gxs@[k]).creator is None);
    let n: usize = inputs.len();
    let mut i: usize = 0;
    while i < n
        invariant
            i <= n,
            n == inputs@.len(),
            n == gxs@.len(),
            n == want.len(),
            g.wf(),
            g0.wf(),
            g0.all_hold(inputs@),
            g3.wf(),
            keeps(g0, g3),
            keeps(g0, *g),
            keeps(g3, *g),
            g.config == g3.config,
            g3.all_hold(gxs@),
            g3.arrays(gxs@) == want,
            !g3.config.enable_backprop ==> g.calls@.len() == g3.calls@.len(),
            grads.len() == g0.nodes@.len(),
            forall|k: int| 0 <= k < inputs@.len() ==> grad_fits(g0, grads, #[trigger] inputs@[k]),
            forall|k: int|
                0 <= k < inputs@.len() ==> (#[trigger] inputs@[k]).id < grads.len()
                    && want[k].shape == held(g0, inputs@[k]).shape,
            holds_grads(*g, accumulated(grads, inputs@, want, i as int)),
            accumulated(grads, inputs@, want, i as int).len() == grads.len(),
            forall|k: int| 0 <= k < inputs@.len() ==> grad_holds(g3, #[trigger] inputs@[k]),
            forall|v: Variable| #[trigger]
                grad_holds(*g, v) <== g3.has(v) && grad_holds(g3, v),
            loose ==> grads_detached(*g, grads.len() as int),
            loose ==> !g3.config.enable_backprop && forall|k: int|
                0 <= k < gxs@.len() ==> g3.node(#[trigger] gxs@[k]).creator is None,
            vars == grad_vars(g3, grads.len()),
            made.len() == i,
            grad_vars(*g, grads.len()) == received(vars, inputs@, made, i as int),
            g3.config.enable_backprop ==> forall|k: int|
                0 <= k < i ==> added(
                    *g,
                    received(vars, inputs@, made, k)[inputs@[k].id as int],
                    gxs@[k],
                    #[trigger] made[k],
                ),
        decreases n - i,
    {
        let x = inputs[i];
        let gx = gxs[i];
        let ghost now = accumulated(grads, inputs@, want, i as int);
        let ghost ga = *g;
        proof {
            assert(x == inputs@[i as int]);
            assert(g0.has(x));
            let nx = g.nodes@[x.id as int];
            assert(g3.has(gxs@[i as int]));
            let ngx = g.nodes@[gx.id as int];
            assert(g3.arrays(gxs@)[i as int] == want[i as int]);
            assert(holds(ga, gx) && held(ga, gx) == want[i as int]);
            assert(now[x.id as int] == gradients(ga)[x.id as int]);
            lemma_accumulated(g0, grads, inputs@, want, i as int);
            lemma_accumulated(g0, grads, inputs@, want, i + 1);
            assert(grad_fits(g0, grads, inputs@[i as int]));
            assert(grad_fits(g0, now, x));
        }
        let current = x.grad(g);
        let sum: Variable = match current {
            None => gx,
            Some(existing) => {
                proof {
                    assert(grad_holds(g3, inputs@[i as int]) && g3.has(x));
                    assert(grad_holds(ga, x));
                    assert(holds(ga, existing));
                    assert(ga.node_ok(gx.id as int));
                    lemma_joint_with_itself(held(g0, x).shape);
                }
                let sum = crate::engine::ops::add(g, &existing, &gx);
                proof {
                    lemma_binary(
                        ga,
                        *g,
                        Rule::Add,
                        existing,
                        gx,
                        sum,
                        Term::Given(existing),
                        Term::Given(gx),
                    );
                    assert(seq![sum][0] == sum);
                }
                sum
            },
        };
        let ghost gb = *g;
        proof {
            lemma_keeps_from_extends(ga, gb);
            lemma_keeps_transitive(g0, ga, gb);
            lemma_keeps_transitive(g3, ga, gb);
            lemma_grads_extended(ga, gb, now);
            if loose {
                assert(g3.node(gxs@[i as int]).creator is None);
                assert(gb.node(sum).creator is None);
            }
            assert(holds(gb, sum) && held(gb, sum) == plus_grad(
                now[x.id as int],
                want[i as int],
            ));
        }
        x.set_grad(g, Some(sum));
        proof {
            lemma_grad_set(gb, *g, now, x, Some(sum));
            lemma_keeps_after_grad(gb, *g, x, Some(sum));
            lemma_keeps_transitive(g0, gb, *g);
            lemma_keeps_transitive(g3, gb, *g);
            lemma_keeps_transitive(ga, gb, *g);
            lemma_keeps_remembers(ga, *g);
            lemma_keeps_remembers(gb, *g);
            lemma_all_kept(ga, *g);
            lemma_all_kept(gb, *g);
            assert forall|v: Variable| g3.has(v) && grad_holds(g3, v) implies #[trigger] grad_holds(
                *g,
                v,
            ) by {
                assert(grad_holds(ga, v));
                assert(ga.has(v) && gb.has(v));
                assert(grad_holds(gb, v));
            }
            let before = made;
            made = made.push(sum);
            assert forall|k: int| 0 <= k <= i implies received(vars, inputs@, made, k) == received(
                vars,
                inputs@,
                before,
                k,
            ) by {
                lemma_received(vars, inputs@, made, before, k);
            }
            assert(grad_vars(ga, grads.len())[x.id as int] == current);
            assert(grad_vars(gb, grads.len()) =~= grad_vars(ga, grads.len())) by {
                assert forall|k: int| 0 <= k < grads.len() implies gb.nodes@[k].grad
                    == ga.nodes@[k].grad by {
                    let m = gb.nodes@[k];
                }
            }
            assert(grad_vars(*g, grads.len()) =~= received(vars, inputs@, made, i + 1));
            if g3.config.enable_backprop {
                assert forall|k: int| 0 <= k < i + 1 implies added(
                    *g,
                    received(vars, inputs@, made, k)[inputs@[k].id as int],
                    gxs@[k],
                    #[trigger] made[k],
                ) by {
                    if k < i {
                        assert(made[k] == before[k]);
                    }
                }
            }
        }
        i = i + 1;
    }
    Ghost(made)
}

/// Later variables do not matter for what the first inputs have received.
proof fn lemma_received(
    vars: Seq<Option<Variable>>,
    inputs: Seq<Variable>,
    a: Seq<Variable>,
    b: Seq<Variable>,
    n: int,
)
    requires
        n <= a.len(),
        n <= b.len(),
        forall|k: int| 0 <= k < n ==> #[trigger] a[k] == b[k],
    ensures
        received(vars, inputs, a, n) == received(vars, inputs, b, n),
    decreases n,
{
    if n > 0 {
        lemma_received(vars, inputs, a, b, n - 1);
        assert(a[n - 1] == b[n - 1]);
    }
}

/// Clears the gradients of the outputs of `func` that somebody still holds.
fn drop_output_grads<T: Scalar, O: Op<T>>(
    g: &mut Graph<T, O>,
    func: &Function,
    Ghost(g0): Ghost<Graph<T, O>>,
    Ghost(passed): Ghost<Seq<Option<Array<T>>>>,
)
    requires
        old(g).wf(),
        g0.wf(),
        keeps(g0, *old(g)),
        g0.knows(*func),
        passed.len() == g0.nodes@.len(),
        holds_grads(*old(g), passed),
    ensures
        final(g).wf(),
        forall|v: Variable| #[trigger]
            grad_holds(*final(g), v) <== old(g).has(v) && grad_holds(*old(g), v),
        grads_detached(*old(g), passed.len() as int) ==> grads_detached(
            *final(g),
            passed.len() as int,
        ),
        keeps(*old(g), *final(g)),
        keeps(g0, *final(g)),
        final(g).config == old(g).config,
        final(g).calls@.len() == old(g).calls@.len(),
        holds_grads(*final(g), cleared(g0, passed, *func)),
        grad_vars(*final(g), passed.len()) == cleared(
            g0,
            grad_vars(*old(g), passed.len()),
            *func,
        ),
{
    let ghost g5 = *g;
    let ghost call = g0.call(*func);
    let ghost vars = grad_vars(g5, passed.len());
    let mut j: usize = 0;
    let live = func.outputs_kept(g, Ghost(g0));
    let count: usize = live.len();
    proof {
        assert(g0.call_ok(func.id as int));
        assert(passed =~= cleared_up_to(g0, passed, *func, 0));
        assert(vars =~= cleared_up_to(g0, vars, *func, 0));
    }
    while j < count
        invariant
            j <= count,
            count == call.outputs@.len(),
            g.wf(),
            g0.wf(),
            g0.call_ok(func.id as int),
            call == g0.call(*func),
            keeps(g0, *g),
            keeps(g5, *g),
            g.config == g5.config,
            g.calls@.len() == g5.calls@.len(),
            live@ == live_outputs(g0, *func),
            passed.len() == g0.nodes@.len(),
            vars.len() == passed.len(),
            forall|v: Variable| #[trigger]
                grad_holds(*g, v) <== g5.has(v) && grad_holds(g5, v),
            grads_detached(g5, passed.len() as int) ==> grads_detached(*g, passed.len() as int),
            holds_grads(*g, cleared_up_to(g0, passed, *func, j as int)),
            grad_vars(*g, passed.len()) == cleared_up_to(g0, vars, *func, j as int),
        decreases count - j,
    {
        let ghost gc = *g;
        let ghost now = cleared_up_to(g0, passed, *func, j as int);
        let ghost y0 = call.outputs@[j as int];
        proof {
            assert(g0.has(y0));
            let ny = g.nodes@[y0.id as int];
            lemma_clear_next(g0, passed, *func, j as int);
            lemma_clear_next(g0, vars, *func, j as int);
        }
        match live[j] {
            Some(y) => {
                y.set_grad(g, None);
                proof {
                    lemma_grad_set(gc, *g, now, y, None);
                    assert forall|v: Variable| g5.has(v) && grad_holds(g5, v) implies #[trigger] grad_holds(
                        *g,
                        v,
                    ) by {
                        assert(gc.has(v) && grad_holds(gc, v));
                    }
                    lemma_keeps_after_grad(gc, *g, y, None);
                    lemma_keeps_transitive(g0, gc, *g);
                    lemma_keeps_transitive(g5, gc, *g);
                    assert(grad_vars(*g, passed.len()) =~= grad_vars(gc, passed.len()).update(
                        y.id as int,
                        None,
                    ));
                }
            },
            None => {},
        }
        j = j + 1;
    }
    proof {
        lemma_all_cleared(g0, passed, *func);
        lemma_all_cleared(g0, vars, *func);
    }
}

/// Passes the gradients of the outputs of `func` on to its inputs.
#[verifier::rlimit(40)]
fn backward_step<T: Scalar, O: Backprop<T>>(
    g: &mut Graph<T, O>,
    func: &Function,
    retain_grad: bool,
    create_graph: bool,
    Ghost(g0): Ghost<Graph<T, O>>,
    Ghost(grads): Ghost<Seq<Option<Array<T>>>>,
)
    requires
        old(g).wf(),
        g0.wf(),
        keeps(g0, *old(g)),
        g0.knows(*func),
        call_ready(g0, *func),
        grads.len() == g0.nodes@.len(),
        holds_grads(*old(g), grads),
        grads_fit(g0, grads, *func),
        grads_hold(*old(g), *func),
    ensures
        final(g).wf(),
        forall|v: Variable| #[trigger]
            grad_holds(*final(g), v) <== g0.has(v) && grad_holds(*old(g), v),
        O::hands_on() && !create_graph && grads_detached(*old(g), grads.len() as int)
            ==> grads_detached(*final(g), grads.len() as int),
        shapes_kept(g0, grads, *func),
        keeps(g0, *final(g)),
        keeps(*old(g), *final(g)),
        final(g).config == old(g).config,
        !create_graph ==> final(g).calls@.len() == old(g).calls@.len(),
        holds_grads(*final(g), step(g0, grads, *func, retain_grad)),
        step(g0, grads, *func, retain_grad).len() == grads.len(),
        forall|v: Variable|
            #![trigger grad_fits(g0, step(g0, grads, *func, retain_grad), v)]
            g0.has(v) && grad_fits(g0, grads, v) ==> grad_fits(
                g0,
                step(g0, grads, *func, retain_grad),
                v,
            ),
        create_graph ==> step_recorded(
            g0,
            *final(g),
            *func,
            retain_grad,
            grad_vars(*old(g), grads.len()),
            grad_vars(*final(g), grads.len()),
        ),
{
    let ghost start = *g;
    let ghost call = g0.call(*func);
    let ghost xs = g0.arrays(call.inputs@);
    let ghost vars = grad_vars(start, grads.len());
    proof {
        assert(g0.call_ok(func.id as int));
        lemma_call_kept(g0, *g, *func, grads);
        assert forall|i: int| 0 <= i < g.call(*func).outputs@.len() implies (
        #[trigger] g.call(*func).outputs@[i]).id < grads.len() by {
            assert(g0.has(call.outputs@[i]));
        }
    }
    let (outputs, gys) = collect_output_grads(g, func, Ghost(grads));
    let ghost g1 = *g;
    proof {
        lemma_keeps_from_extends(start, g1);
        lemma_keeps_transitive(g0, start, g1);
        lemma_call_kept(g0, g1, *func, grads);
        lemma_grads_extended(start, g1, grads);
    }
    let guard = using_enable_backprop(&mut g.config, create_graph);
    let ghost g2 = *g;
    proof {
        lemma_nodes_ok(g1);
        lemma_config_apart(g1, g2);
        lemma_keeps_transitive(start, g1, g2);
        lemma_call_kept(g0, g2, *func, grads);
        lemma_output_shapes(g0, *func, grads);
        assert(g2.arrays(outputs@) =~= g1.arrays(outputs@));
        assert(g2.arrays(gys@) =~= g1.arrays(gys@));
    }
    let inputs = func.inputs(g);
    let op = g.calls[func.id].op.clone();
    let gxs = op.backward(g, &inputs, &outputs, &gys);
    let ghost g3 = *g;
    let ghost want = O::gradient(
        (*call.op).rule(),
        xs,
        outputs_of(g0, *func),
        output_grads(g0, grads, *func),
    );
    proof {
        lemma_keeps_from_extends(g2, g3);
        lemma_keeps_transitive(g0, g2, g3);
        lemma_keeps_transitive(start, g2, g3);
        lemma_grads_extended(g2, g3, grads);
        assert(g3.arrays(gxs@) == want);
        assert(shapes(want) == shapes(xs));
        assert(shapes(want).len() == shapes(xs).len());
        lemma_step_fits(g0, grads, *func, retain_grad);
        assert forall|k: int| 0 <= k < inputs@.len() implies held(
            g3,
            #[trigger] gxs@[k],
        ).shape == held(g0, inputs@[k]).shape by {
            assert(g3.arrays(gxs@)[k] == want[k]);
            assert(shapes(want)[k] == shapes(xs)[k]);
        }
        assert forall|k: int| 0 <= k < inputs@.len() implies grad_fits(
            g0,
            grads,
            #[trigger] inputs@[k],
        ) by {
            assert(grad_fits(g0, grads, call.inputs@[k]));
        }
        assert forall|k: int| 0 <= k < inputs@.len() implies grad_holds(
            g3,
            #[trigger] inputs@[k],
        ) by {
            let x = call.inputs@[k];
            assert(g0.has(x) && start.call(*func).inputs@[k] == x);
            assert(grad_holds(start, start.call(*func).inputs@[k]));
            assert(start.has(x) && g1.has(x) && g2.has(x));
            assert(grad_holds(g1, x));
            assert(g2.nodes@ == g1.nodes@);
            assert(grad_holds(g2, x));
        }
        if O::hands_on() && !create_graph && grads_detached(start, grads.len() as int) {
            assert(grads_detached(g2, grads.len() as int)) by {
                assert(g2.nodes@ == g1.nodes@);
                assert(grads_detached(g1, grads.len() as int));
            }
            assert forall|k: int| 0 <= k < gxs@.len() implies g3.node(
                #[trigger] gxs@[k],
            ).creator is None by {
                let v = gxs@[k];
                assert(g3.has(v));
                if v.id >= g2.nodes@.len() {
                    lemma_gained_without_creator(g2, g3, v);
                } else {
                    let m = gys@.index_of(v);
                    assert(g1.node(gys@[m]).creator is None);
                    assert(g3.nodes@[v.id as int] == g2.nodes@[v.id as int]);
                }
            }
        }
        assert(grad_vars(g3, grads.len()) =~= vars) by {
            assert forall|k: int| 0 <= k < grads.len() implies g3.nodes@[k].grad
                == start.nodes@[k].grad by {
                assert(g1.nodes@[k] == start.nodes@[k]);
                assert(g3.nodes@[k] == g2.nodes@[k]);
            }
        }
    }
    let sums = receive(g, &inputs, &gxs, Ghost(g0), Ghost(grads));
    let ghost passed = accumulated(grads, call.inputs@, want, call.inputs@.len() as int);
    let ghost g4 = *g;
    guard.restore(&mut g.config);
    let ghost g5 = *g;
    proof {
        lemma_config_apart(g4, g5);
        lemma_grads_extended(g4, g5, passed);
        lemma_keeps_transitive(start, g3, g4);
        lemma_keeps_transitive(start, g4, g5);
        assert(g5.config == start.config);
        assert(grad_vars(g5, grads.len()) =~= grad_vars(g4, grads.len()));
    }
    if !retain_grad {
        drop_output_grads(g, func, Ghost(g0), Ghost(passed));
    }
    proof {
        if !retain_grad {
            lemma_keeps_transitive(start, g5, *g);
        }
        assert forall|v: Variable| g0.has(v) && grad_holds(start, v) implies #[trigger] grad_holds(
            *g,
            v,
        ) by {
            assert(start.has(v) && g1.has(v) && g2.has(v) && g3.has(v) && g4.has(v) && g5.has(v));
            assert(grad_holds(g1, v));
            assert(g2.nodes@ == g1.nodes@);
            assert(grad_holds(g2, v));
            assert(grad_holds(g3, v));
            assert(grad_holds(g4, v));
            assert(grad_holds(g5, v));
        }
        if create_graph {
            let p = Passing { outputs: outputs@, gys: gys@, gxs: gxs@, sums: sums@ };
            assert(keeps(g4, *g)) by {
                lemma_keeps_transitive(g4, g5, *g);
            }
            lemma_passing(
                g0,
                start,
                g1,
                g2,
                g3,
                g4,
                *g,
                *func,
                retain_grad,
                vars,
                p,
            );
            assert(passed_on(
                g0,
                *g,
                *func,
                retain_grad,
                vars,
                grad_vars(*g, grads.len()),
                p,
            ));
        }
    }
}

/// What each part of a step records adds up to what the step records.
proof fn lemma_passing<T: Scalar, O: Op<T>>(
    g0: Graph<T, O>,
    start: Graph<T, O>,
    g1: Graph<T, O>,
    g2: Graph<T, O>,
    g3: Graph<T, O>,
    g4: Graph<T, O>,
    last: Graph<T, O>,
    f: Function,
    retain_grad: bool,
    vars: Seq<Option<Variable>>,
    p: Passing,
)
    requires
        g0.wf(),
        g0.knows(f),
        keeps(g0, start),
        keeps(start, g1),
        g2.nodes == g1.nodes,
        g2.calls == g1.calls,
        g2.config.enable_backprop,
        g3.extends(g2),
        keeps(g3, g4),
        keeps(g4, last),
        vars.len() == g0.nodes@.len(),
        g1.all_hold(p.gys),
        outputs_recorded(start, g1, f, p.outputs),
        gradients_recorded(start, g1, f, vars, p.gys),
        p.gxs.len() == g0.call(f).inputs@.len(),
        p.sums.len() == g0.call(f).inputs@.len(),
        written(
            g2,
            g3,
            p.gxs,
            O::expressions(
                (*g0.call(f).op).rule(),
                g0.arrays(g0.call(f).inputs@),
                g2.arrays(p.gys),
                g0.call(f).inputs@,
                p.outputs,
                p.gys,
            ),
        ),
        forall|k: int|
            0 <= k < p.sums.len() ==> added(
                g4,
                received(vars, g0.call(f).inputs@, p.sums, k)[g0.call(f).inputs@[k].id as int],
                p.gxs[k],
                #[trigger] p.sums[k],
            ),
    ensures
        ({
            let all = received(
                vars,
                g0.call(f).inputs@,
                p.sums,
                g0.call(f).inputs@.len() as int,
            );
            passed_on(
                g0,
                last,
                f,
                retain_grad,
                vars,
                if retain_grad {
                    all
                } else {
                    cleared(g0, all, f)
                },
                p,
            )
        }),
{
    let call = g0.call(f);
    assert(g0.call_ok(f.id as int));
    lemma_keeps_from_extends(g2, g3);
    lemma_keeps_transitive(g3, g4, last);
    lemma_keeps_transitive(g2, g3, last);
    assert(keeps(g1, last)) by {
        assert forall|i: int| 0 <= i < g1.nodes@.len() implies (#[trigger] last.nodes@[i]) == (Node {
            grad: last.nodes@[i].grad,
            ..g1.nodes@[i]
        }) by {
            assert(g2.nodes@[i] == g1.nodes@[i]);
        }
    }
    lemma_keeps_remembers(g1, last);
    lemma_keeps_remembers(g3, last);
    lemma_keeps_remembers(g4, last);
    lemma_all_kept(g1, last);
    lemma_all_kept(g3, last);
    lemma_all_kept(g4, last);
    lemma_call_kept(g0, start, f, Seq::new(g0.nodes@.len(), |i: int| None::<Array<T>>));
    assert forall|i: int| 0 <= i < call.outputs@.len() implies start.node(
        #[trigger] call.outputs@[i],
    ).alive == g0.node(call.outputs@[i]).alive by {
        assert(g0.has(call.outputs@[i]));
        let n = start.nodes@[call.outputs@[i].id as int];
    }
    assert(outputs_recorded(g0, last, f, p.outputs)) by {
        assert forall|i: int| 0 <= i < p.outputs.len() implies if g0.node(call.outputs@[i]).alive {
            #[trigger] p.outputs[i] == call.outputs@[i]
        } else {
            stand_in(last, p.outputs[i], call.output_shapes@[i]@)
        } by {
            let y = call.outputs@[i];
            assert(start.node(call.outputs@[i]).alive == g0.node(y).alive);
        }
    }
    assert(gradients_recorded(g0, last, f, vars, p.gys)) by {
        assert forall|i: int| 0 <= i < p.gys.len() implies ({
            let y = call.outputs@[i];
            if g0.node(y).alive && vars[y.id as int] is Some {
                #[trigger] p.gys[i] == vars[y.id as int]->0
            } else {
                stand_in(last, p.gys[i], outputs_of(g0, f)[i].shape)
            }
        }) by {
            let y = call.outputs@[i];
            assert(start.node(call.outputs@[i]).alive == g0.node(y).alive);
        }
    }
    assert forall|i: int| 0 <= i < p.gys.len() implies last.has(#[trigger] p.gys[i]) && last.node(
        p.gys[i],
    ).data == g1.node(p.gys[i]).data by {
        assert(g1.has(p.gys[i]));
        let n = last.nodes@[p.gys[i].id as int];
    }
    assert(last.arrays(p.gys) =~= g2.arrays(p.gys));
    assert(last.all_hold(p.gys)) by {
        assert forall|i: int| 0 <= i < p.gys.len() implies last.has(#[trigger] p.gys[i])
            && last.node(p.gys[i]).data.is_some() by {
            assert(g1.has(p.gys[i]) && g1.node(p.gys[i]).data.is_some());
        }
    }
    assert forall|k: int| 0 <= k < p.sums.len() implies added(
        last,
        received(vars, call.inputs@, p.sums, k)[call.inputs@[k].id as int],
        p.gxs[k],
        #[trigger] p.sums[k],
    ) by {
        assert(added(
            g4,
            received(vars, call.inputs@, p.sums, k)[call.inputs@[k].id as int],
            p.gxs[k],
            p.sums[k],
        ));
    }
}

/// What a step records stays recorded.
proof fn lemma_step_kept<T: Scalar, O: Op<T>>(
    g0: Graph<T, O>,
    before: Graph<T, O>,
    after: Graph<T, O>,
    f: Function,
    retain_grad: bool,
    vars: Seq<Option<Variable>>,
    now: Seq<Option<Variable>>,
)
    requires
        keeps(before, after),
        step_recorded(g0, before, f, retain_grad, vars, now),
    ensures
        step_recorded(g0, after, f, retain_grad, vars, now),
{
    let p = choose|p: Passing| passed_on(g0, before, f, retain_grad, vars, now, p);
    let call = g0.call(f);
    lemma_keeps_remembers(before, after);
    lemma_all_kept(before, after);
    assert forall|i: int| 0 <= i < p.gys.len() implies after.has(#[trigger] p.gys[i]) && after.node(
        p.gys[i],
    ).data == before.node(p.gys[i]).data by {
        assert(before.has(p.gys[i]));
        let n = after.nodes@[p.gys[i].id as int];
    }
    assert(after.arrays(p.gys) =~= before.arrays(p.gys));
    assert forall|i: int| 0 <= i < p.outputs.len() implies if g0.node(call.outputs@[i]).alive {
        #[trigger] p.outputs[i] == call.outputs@[i]
    } else {
        stand_in(after, p.outputs[i], call.output_shapes@[i]@)
    } by {
        let y = before.node(p.outputs[i]);
    }
    assert(outputs_recorded(g0, after, f, p.outputs));
    assert(gradients_recorded(g0, after, f, vars, p.gys));
    assert(passed_on(g0, after, f, retain_grad, vars, now, p));
}

/// The gradients without those of the first `n` outputs of `f`.
spec fn cleared_up_to<T, O, A>(
    g: Graph<T, O>,
    grads: Seq<Option<A>>,
    f: Function,
    n: int,
) -> Seq<Option<A>> {
    Seq::new(
        grads.len(),
        |i: int|
            if g.nodes@[i].alive && g.call(f).outputs@.take(n).contains(
                Variable { id: i as usize },
            ) {
                None
            } else {
                grads[i]
            },
    )
}

proof fn lemma_clear_next<T, O, A>(
    g: Graph<T, O>,
    grads: Seq<Option<A>>,
    f: Function,
    n: int,
)
    requires
        g.wf(),
        g.call_ok(f.id as int),
        0 <= n < g.call(f).outputs@.len(),
        grads.len() == g.nodes@.len(),
    ensures
        cleared_up_to(g, grads, f, n + 1) == (if g.node(g.call(f).outputs@[n]).alive {
            cleared_up_to(g, grads, f, n).update(g.call(f).outputs@[n].id as int, None)
        } else {
            cleared_up_to(g, grads, f, n)
        }),
{
    let outputs = g.call(f).outputs@;
    let y = outputs[n];
    assert(g.has(outputs[n]));
    assert(g.nodes.len() == g.nodes@.len());
    let a = cleared_up_to(g, grads, f, n);
    let b = cleared_up_to(g, grads, f, n + 1);
    let want = if g.node(y).alive {
        a.update(y.id as int, None)
    } else {
        a
    };
    assert forall|i: int| 0 <= i < grads.len() implies b[i] == want[i] by {
        let v = Variable { id: i as usize };
        if outputs.take(n).contains(v) {
            let k = outputs.take(n).index_of(v);
            assert(outputs.take(n + 1)[k] == v);
        }
        if outputs.take(n + 1).contains(v) {
            let k = outputs.take(n + 1).index_of(v);
            if k < n {
                assert(outputs.take(n)[k] == v);
            } else {
                assert(v == y);
            }
        }
        if v == y {
            assert(outputs.take(n + 1)[n] == y);
        }
    }
    assert(b =~= want);
}

proof fn lemma_all_cleared<T, O, A>(g: Graph<T, O>, grads: Seq<Option<A>>, f: Function)
    ensures
        cleared_up_to(g, grads, f, g.call(f).outputs@.len() as int) == cleared(g, grads, f),
{
    let outputs = g.call(f).outputs@;
    assert(outputs.take(outputs.len() as int) =~= outputs);
    assert(cleared_up_to(g, grads, f, outputs.len() as int) =~= cleared(g, grads, f));
}

pub proof fn lemma_keeps_from_extends<T, O>(before: Graph<T, O>, after: Graph<T, O>)
    requires
        after.extends(before),
    ensures
        keeps(before, after),
{
}

/// The switches do not touch what a graph holds.
proof fn lemma_config_apart<T, O>(before: Graph<T, O>, after: Graph<T, O>)
    requires
        before.wf(),
        after.nodes == before.nodes,
        after.calls == before.calls,
    ensures
        after.wf(),
        keeps(before, after),
        forall|g: Graph<T, O>| #[trigger] keeps(g, before) ==> keeps(g, after),
{
    lemma_nodes_ok(before);
    lemma_history_kept(before, after);
}

proof fn lemma_keeps_after_grad<T, O>(
    before: Graph<T, O>,
    after: Graph<T, O>,
    x: Variable,
    grad: Option<Variable>,
)
    requires
        before.has(x),
        after.nodes@ == before.nodes@.update(x.id as int, (Node { grad, ..before.node(x) })),
        after.calls == before.calls,
    ensures
        keeps(before, after),
{
}

/// The outputs of a ready function and their gradients have the recorded shapes.
proof fn lemma_output_shapes<T: Scalar, O: Op<T>>(
    g: Graph<T, O>,
    f: Function,
    grads: Seq<Option<Array<T>>>,
)
    requires
        g.wf(),
        g.knows(f),
        call_ready(g, f),
        grads_fit(g, grads, f),
    ensures
        shapes(outputs_of(g, f)) == O::out_shapes(
            (*g.call(f).op).rule(),
            shapes(g.arrays(g.call(f).inputs@)),
        ),
        shapes(output_grads(g, grads, f)) == O::out_shapes(
            (*g.call(f).op).rule(),
            shapes(g.arrays(g.call(f).inputs@)),
        ),
{
    let call = g.call(f);
    assert(g.call_ok(f.id as int));
    let want = lists(call.output_shapes@);
    assert forall|i: int| 0 <= i < call.outputs@.len() implies shapes(outputs_of(g, f))[i]
        == want[i] && shapes(output_grads(g, grads, f))[i] == want[i] by {
        let y = call.outputs@[i];
        if g.node(y).alive {
            assert(held(g, y).shape == call.output_shapes@[i]@);
            assert(grad_fits(g, grads, y));
        }
    }
    assert(shapes(outputs_of(g, f)) =~= want);
    assert(shapes(output_grads(g, grads, f)) =~= want);
}

impl Function {
    /// The outputs that somebody still holds, in a graph that keeps this function.
    fn outputs_kept<T: Scalar, O: Op<T>>(
        &self,
        g: &Graph<T, O>,
        Ghost(g0): Ghost<Graph<T, O>>,
    ) -> (r: Vec<Option<Variable>>)
        requires
            g.wf(),
            g0.wf(),
            keeps(g0, *g),
            g0.knows(*self),
        ensures
            r@ == live_outputs(g0, *self),
    {
        proof {
            assert(g0.call_ok(self.id as int));
            assert(g.calls@[self.id as int] == g0.calls@[self.id as int]);
            let outputs = g0.call(*self).outputs@;
            assert(live_outputs(*g, *self) =~= live_outputs(g0, *self)) by {
                assert forall|k: int| 0 <= k < outputs.len() implies live_outputs(*g, *self)[k]
                    == live_outputs(g0, *self)[k] by {
                    assert(g0.has(outputs[k]));
                    let n = g.nodes@[outputs[k].id as int];
                }
            }
        }
        self.outputs(g)
    }
}

/// The gradients with which a pass from `root` starts: ones, where `root` has none.
pub open spec fn seeded<T: Scalar, O>(g: Graph<T, O>, root: Variable) -> Seq<Option<Array<T>>> {
    let grads = gradients(g);
    if g.node(root).grad.is_none() {
        grads.update(root.id as int, Some(ones_of(g, root)))
    } else {
        grads
    }
}

/// The gradient that a pass from a variable without one starts with.
pub open spec fn ones_of<T: Scalar, O>(g: Graph<T, O>, root: Variable) -> Array<T> {
    full_spec(held(g, root).shape, T::one_spec())
}

/// Whether a backward pass can start from `root`.
pub open spec fn can_start<T: Scalar, O: Op<T>>(g: Graph<T, O>, root: Variable) -> bool {
    &&& g.has(root)
    &&& g.node(root).grad.is_none() ==> g.node(root).data.is_some()
    &&& forall|f: Function| #[trigger]
        reachable(g, root, f) ==> {
            &&& call_ready(g, f)
            &&& grads_hold(g, f)
            &&& grads_fit(g, seeded(g, root), f)
        }
}

/// A graph that keeps another has the same history behind its variables.
pub proof fn lemma_reach_kept<T, O>(
    g: Graph<T, O>,
    after: Graph<T, O>,
    root: Variable,
    f: Function,
)
    requires
        g.wf(),
        g.has(root),
        keeps(g, after),
    ensures
        reachable(after, root, f) <==> reachable(g, root, f),
{
    let n = after.nodes@[root.id as int];
    if reachable(after, root, f) {
        let p = choose|p: Seq<Function>| #[trigger]
            path(after, p) && after.node(root).creator == Some(p[0]) && p.last() == f;
        lemma_path_kept(g, after, root, p);
    }
    if reachable(g, root, f) {
        let p = choose|p: Seq<Function>| #[trigger]
            path(g, p) && g.node(root).creator == Some(p[0]) && p.last() == f;
        assert(path(after, p)) by {
            assert forall|i: int| 0 < i < p.len() implies feeds(
                after,
                #[trigger] p[i],
                p[i - 1],
            ) by {
                let q = p.take(i);
                assert(path(g, q)) by {
                    assert forall|j: int| 0 < j < q.len() implies feeds(
                        g,
                        #[trigger] q[j],
                        q[j - 1],
                    ) by {
                        assert(feeds(g, p[j], p[j - 1]));
                    }
                }
                assert(q.last() == p[i - 1]);
                assert(reachable(g, root, p[i - 1]));
                reachable_functions_are_recorded(g, root, p[i - 1]);
                assert(feeds(g, p[i], p[i - 1]));
                lemma_feeds_kept(g, after, p[i], p[i - 1]);
            }
        }
    }
}

/// What fed a function still feeds it, and nothing else does.
proof fn lemma_feeds_kept<T, O>(g: Graph<T, O>, after: Graph<T, O>, b: Function, a: Function)
    requires
        g.wf(),
        keeps(g, after),
        g.knows(a),
    ensures
        feeds(after, b, a) <==> feeds(g, b, a),
{
    assert(after.calls@[a.id as int] == g.calls@[a.id as int]);
    assert(g.call_ok(a.id as int));
    let inputs = g.call(a).inputs@;
    assert forall|k: int| 0 <= k < inputs.len() implies after.node(#[trigger] inputs[k]).creator
        == g.node(inputs[k]).creator by {
        assert(g.has(inputs[k]));
        let n = after.nodes@[inputs[k].id as int];
    }
    if feeds(g, b, a) {
        let k = choose|k: int|
            0 <= k < g.call(a).inputs@.len() && g.node(#[trigger] g.call(a).inputs@[k]).creator
                == Some(b);
        assert(after.node(after.call(a).inputs@[k]).creator == Some(b));
    }
    if feeds(after, b, a) {
        let k = choose|k: int|
            0 <= k < after.call(a).inputs@.len() && after.node(
                #[trigger] after.call(a).inputs@[k],
            ).creator == Some(b);
        assert(g.node(g.call(a).inputs@[k]).creator == Some(b));
    }
}

proof fn lemma_path_kept<T, O>(
    g: Graph<T, O>,
    after: Graph<T, O>,
    root: Variable,
    p: Seq<Function>,
)
    requires
        g.wf(),
        g.has(root),
        keeps(g, after),
        path(after, p),
        after.node(root).creator == Some(p[0]),
    ensures
        path(g, p),
        g.node(root).creator == Some(p[0]),
        reachable(g, root, p.last()),
    decreases p.len(),
{
    let n = after.nodes@[root.id as int];
    if p.len() > 1 {
        let q = p.drop_last();
        let i = p.len() - 1;
        assert(path(after, q)) by {
            assert forall|j: int| 0 < j < q.len() implies feeds(
                after,
                #[trigger] q[j],
                q[j - 1],
            ) by {
                assert(feeds(after, p[j], p[j - 1]));
            }
        }
        lemma_path_kept(g, after, root, q);
        assert(q.last() == p[i - 1]);
        reachable_functions_are_recorded(g, root, p[i - 1]);
        assert(feeds(after, p[i], p[i - 1]));
        lemma_feeds_kept(g, after, p[i], p[i - 1]);
        assert forall|j: int| 0 < j < p.len() implies feeds(g, #[trigger] p[j], p[j - 1]) by {
            if j < i {
                assert(feeds(g, q[j], q[j - 1]));
            }
        }
    }
    assert(path(g, p));
}

/// A pass leaves its root as a variable that another pass can start from.
proof fn lemma_ready_again<T: Scalar, O: Op<T>>(
    g: Graph<T, O>,
    after: Graph<T, O>,
    root: Variable,
    grads: Seq<Option<Array<T>>>,
)
    requires
        g.wf(),
        after.wf(),
        keeps(g, after),
        can_start(g, root),
        g.node(root).data is Some,
        grads.len() == g.nodes@.len(),
        holds_grads(after, grads),
        forall|v: Variable| #[trigger] grad_holds(after, v) <== g.has(v) && grad_holds(g, v),
        forall|v: Variable|
            #![trigger grad_fits(g, grads, v)]
            g.has(v) && grad_fits(g, seeded(g, root), v) ==> grad_fits(g, grads, v),
    ensures
        can_start(after, root),
{
    let n = after.nodes@[root.id as int];
    let start = seeded(after, root);
    assert forall|f: Function| #[trigger] reachable(after, root, f) implies call_ready(after, f)
        && grads_hold(after, f) && grads_fit(after, start, f) by {
        lemma_reach_kept(g, after, root, f);
        reachable_functions_are_recorded(g, root, f);
        lemma_call_kept(g, after, f, grads);
        let call = g.call(f);
        assert(g.call_ok(f.id as int));
        assert forall|v: Variable|
            g.has(v) && grad_holds(g, v) && grad_fits(g, seeded(g, root), v) implies grad_holds(
            after,
            v,
        ) && #[trigger] grad_fits(after, start, v) by {
            assert(grad_fits(g, grads, v));
            let m = after.nodes@[v.id as int];
            assert(grads[v.id as int] == gradients(after)[v.id as int]);
        }
        assert forall|k: int| 0 <= k < call.inputs@.len() implies grad_holds(
            after,
            #[trigger] call.inputs@[k],
        ) && grad_fits(after, start, call.inputs@[k]) by {
            assert(g.has(call.inputs@[k]));
            assert(grad_holds(g, call.inputs@[k]));
            assert(grad_fits(g, seeded(g, root), call.inputs@[k]));
        }
        assert forall|k: int|
            0 <= k < call.outputs@.len() && after.node(
                #[trigger] call.outputs@[k],
            ).alive implies grad_holds(after, call.outputs@[k]) && grad_fits(
            after,
            start,
            call.outputs@[k],
        ) by {
            assert(g.has(call.outputs@[k]));
            let m = after.nodes@[call.outputs@[k].id as int];
            assert(grad_holds(g, call.outputs@[k]));
            assert(grad_fits(g, seeded(g, root), call.outputs@[k]));
        }
    }
}

impl Variable {
    /// Computes the gradients of everything behind this variable, keeping only those of
    /// the leaves.
    pub fn backward<T: Scalar, O: Backprop<T>>(&self, g: &mut Graph<T, O>)
        requires
            old(g).wf(),
            can_start(*old(g), *self),
        ensures
            final(g).wf(),
            keeps(*old(g), *final(g)),
            final(g).config == old(g).config,
            final(g).calls@.len() == old(g).calls@.len(),
            O::hands_on() && grads_detached(*old(g), old(g).nodes@.len() as int) ==> grads_detached(
                *final(g),
                old(g).nodes@.len() as int,
            ),
            forall|v: Variable|
                old(g).has(v) && grad_holds(*old(g), v) ==> #[trigger] grad_holds(*final(g), v),
            old(g).node(*self).data is Some ==> can_start(*final(g), *self),
            exists|order: Seq<Function>| #[trigger]
                is_schedule(*old(g), *self, order) && holds_grads(
                    *final(g),
                    run(*old(g), seeded(*old(g), *self), order, order.len() as int, false),
                ) && shapes_kept_throughout(
                    *old(g),
                    seeded(*old(g), *self),
                    order,
                    order.len() as int,
                    false,
                ),
    {
        self.backward_with(g, false, false);
    }

    /// Computes the gradients of everything behind this variable. The gradients of the
    /// variables in between are kept with `retain_grad`, and the computation is recorded
    /// with `create_graph`.
    pub fn backward_with<T: Scalar, O: Backprop<T>>(
        &self,
        g: &mut Graph<T, O>,
        retain_grad: bool,
        create_graph: bool,
    )
        requires
            old(g).wf(),
            can_start(*old(g), *self),
        ensures
            final(g).wf(),
            keeps(*old(g), *final(g)),
            final(g).config == old(g).config,
            !create_graph ==> final(g).calls@.len() == old(g).calls@.len(),
            O::hands_on() && !create_graph && grads_detached(*old(g), old(g).nodes@.len() as int)
                ==> grads_detached(*final(g), old(g).nodes@.len() as int),
            forall|v: Variable|
                old(g).has(v) && grad_holds(*old(g), v) ==> #[trigger] grad_holds(*final(g), v),
            old(g).node(*self).data is Some ==> can_start(*final(g), *self),
            exists|order: Seq<Function>| #[trigger]
                is_schedule(*old(g), *self, order) && holds_grads(
                    *final(g),
                    run(
                        *old(g),
                        seeded(*old(g), *self),
                        order,
                        order.len() as int,
                        retain_grad,
                    ),
                ) && shapes_kept_throughout(
                    *old(g),
                    seeded(*old(g), *self),
                    order,
                    order.len() as int,
                    retain_grad,
                ) && (create_graph ==> exists|trail: Seq<Seq<Option<Variable>>>|
                    pass_recorded(*old(g), *final(g), *self, order, retain_grad, trail)),
    {
        let ghost g0 = *g;
        let ghost start = seeded(g0, *self);
        let ghost total = g0.nodes@.len();
        let ghost first = grad_vars(g0, total);
        let ghost mut seed_var = *self;
        let order = schedule(g, self);
        proof {
            lemma_nodes_ok(g0);
            assert(holds_grads(g0, gradients(g0)));
        }
        if self.grad(g).is_none() {
            let shape = crate::engine::gradient::shape_held(g, self);
            let ones = Tensor::full(shape.as_slice(), T::one());
            let seed = Variable::new(g, ones);
            let ghost g1 = *g;
            proof {
                lemma_keeps_from_extends(g0, g1);
                lemma_grads_extended(g0, g1, gradients(g0));
                lemma_constant(g0, g1, seed, ones_of(g0, *self));
                seed_var = seed;
            }
            self.set_grad(g, Some(seed));
            proof {
                lemma_grad_set(g1, *g, gradients(g0), *self, Some(seed));
                assert forall|v: Variable| g0.has(v) && grad_holds(g0, v) implies #[trigger] grad_holds(
                    *g,
                    v,
                ) by {
                    assert(g1.has(v) && grad_holds(g1, v));
                }
                lemma_keeps_after_grad(g1, *g, *self, Some(seed));
                lemma_keeps_transitive(g0, g1, *g);
                lemma_keeps_remembers(g1, *g);
                lemma_all_kept(g1, *g);
                assert(grad_vars(*g, total) =~= first.update(self.id as int, Some(seed)));
            }
        }
        let ghost mut trail = seq![grad_vars(*g, total)];
        let n: usize = order.len();
        let mut i: usize = 0;
        while i < n
            invariant
                i <= n,
                n == order@.len(),
                g.wf(),
                g0.wf(),
                keeps(g0, *g),
                g.config == g0.config,
                !create_graph ==> g.calls@.len() == g0.calls@.len(),
                g0.has(*self),
                is_schedule(g0, *self, order@),
                can_start(g0, *self),
                start == seeded(g0, *self),
                start.len() == g0.nodes@.len(),
                run(g0, start, order@, i as int, retain_grad).len() == start.len(),
                shapes_kept_throughout(g0, start, order@, i as int, retain_grad),
                holds_grads(*g, run(g0, start, order@, i as int, retain_grad)),
                forall|v: Variable| #[trigger]
                    grad_holds(*g, v) <== g0.has(v) && grad_holds(g0, v),
                O::hands_on() && !create_graph && grads_detached(g0, total as int)
                    ==> grads_detached(*g, total as int),
                forall|v: Variable|
                    #![trigger grad_fits(g0, run(g0, start, order@, i as int, retain_grad), v)]
                    g0.has(v) && grad_fits(g0, start, v) ==> grad_fits(
                        g0,
                        run(g0, start, order@, i as int, retain_grad),
                        v,
                    ),
                total == g0.nodes@.len(),
                first == grad_vars(g0, total),
                trail.len() == i + 1,
                trail[0] == (if g0.node(*self).grad is Some {
                    first
                } else {
                    first.update(self.id as int, Some(seed_var))
                }),
                g0.node(*self).grad is None ==> means(
                    *g,
                    seed_var,
                    Term::Constant(ones_of(g0, *self)),
                ),
                create_graph ==> forall|k: int|
                    0 <= k < i ==> step_recorded(
                        g0,
                        *g,
                        #[trigger] order@[k],
                        retain_grad,
                        trail[k],
                        trail[k + 1],
                    ),
                trail[i as int] == grad_vars(*g, total),
            decreases n - i,
        {
            let func = order[i];
            let ghost here = *g;
            let ghost now = run(g0, start, order@, i as int, retain_grad);
            proof {
                assert(order@.contains(func));
                assert(reachable(g0, *self, func));
                reachable_functions_are_recorded(g0, *self, func);
                assert(g0.call_ok(func.id as int));
                let call = g0.call(func);
                assert(grads_fit(g0, start, func));
                assert(grads_hold(*g, func)) by {
                    assert(grads_hold(g0, func));
                    assert(g.calls@[func.id as int] == g0.calls@[func.id as int]);
                    assert forall|k: int| 0 <= k < call.inputs@.len() implies grad_holds(
                        *g,
                        #[trigger] call.inputs@[k],
                    ) by {
                        assert(g0.has(call.inputs@[k]));
                        assert(grad_holds(g0, call.inputs@[k]));
                    }
                    assert forall|k: int|
                        0 <= k < call.outputs@.len() && g.node(
                            #[trigger] call.outputs@[k],
                        ).alive implies grad_holds(*g, call.outputs@[k]) by {
                        assert(g0.has(call.outputs@[k]));
                        let m = g.nodes@[call.outputs@[k].id as int];
                        assert(grad_holds(g0, call.outputs@[k]));
                    }
                }
                assert(grads_fit(g0, now, func)) by {
                    assert forall|k: int| 0 <= k < call.inputs@.len() implies grad_fits(
                        g0,
                        now,
                        #[trigger] call.inputs@[k],
                    ) by {
                        assert(g0.has(call.inputs@[k]));
                        assert(grad_fits(g0, start, call.inputs@[k]));
                    }
                    assert forall|k: int|
                        0 <= k < call.outputs@.len() && g0.node(
                            #[trigger] call.outputs@[k],
                        ).alive implies grad_fits(g0, now, call.outputs@[k]) by {
                        assert(g0.has(call.outputs@[k]));
                        assert(grad_fits(g0, start, call.outputs@[k]));
                    }
                }
            }
            backward_step(g, &func, retain_grad, create_graph, Ghost(g0), Ghost(now));
            proof {
                let next = run(g0, start, order@, i + 1, retain_grad);
                assert(next == step(g0, now, func, retain_grad));
                assert forall|v: Variable|
                    #![trigger grad_fits(g0, next, v)]
                    g0.has(v) && grad_fits(g0, start, v) implies grad_fits(g0, next, v) by {
                    assert(grad_fits(g0, now, v));
                    assert(grad_fits(g0, step(g0, now, func, retain_grad), v));
                }
                assert forall|v: Variable| g0.has(v) && grad_holds(g0, v) implies #[trigger] grad_holds(
                    *g,
                    v,
                ) by {
                    assert(grad_holds(here, v));
                }
                let was = trail;
                trail = trail.push(grad_vars(*g, total));
                lemma_keeps_remembers(here, *g);
                lemma_all_kept(here, *g);
                if create_graph {
                    assert forall|k: int| 0 <= k < i + 1 implies step_recorded(
                        g0,
                        *g,
                        #[trigger] order@[k],
                        retain_grad,
                        trail[k],
                        trail[k + 1],
                    ) by {
                        if k < i {
                            assert(trail[k] == was[k] && trail[k + 1] == was[k + 1]);
                            lemma_step_kept(
                                g0,
                                here,
                                *g,
                                order@[k],
                                retain_grad,
                                was[k],
                                was[k + 1],
                            );
                        }
                    }
                }
            }
            i = i + 1;
        }
        proof {
            if g0.node(*self).data is Some {
                lemma_ready_again(g0, *g, *self, run(g0, start, order@, n as int, retain_grad));
            }
            if create_graph {
                assert(pass_recorded(g0, *g, *self, order@, retain_grad, trail));
            }
        }
    }
}

} // verus!
