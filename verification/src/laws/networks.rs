//! Perceptrons and pipelines, layer by layer.
use crate::engine::builtin::{held, holds};
use crate::engine::function::Op;
use crate::engine::graph::{Graph, Variable};
use crate::engine::trace::{a_run_computes_its_steps, a_run_only_adds, outcome_of, runs, Step};
use crate::laws::elements::is_affine;
use crate::laws::layers::{
    bias_of, lemma_linear_step, lemma_still_held, lemma_whole, made_of, weight_of,
};
use crate::layers::linear::Linear;
use crate::layers::rnn::{linear_step, made, nth, pointwise};
use crate::models::mlp::{chain_shape, chain_steps, mlp_input, passed, Mlp, Sequential};
use crate::models::{result_of, Model};
use crate::scalar::Scalar;
use crate::tensor::Array;
use vstd::prelude::*;

verus! {

// ---------------------------------------------------------------------------
// words
// ---------------------------------------------------------------------------
/// Whether fully connected layers that read `ins` give `outs`, the first one reading `x`,
/// and every other one the activation of what the layer before it gave.
pub open spec fn in_turn<T: Scalar, O: Op<T>>(
    g: Graph<T, O>,
    ls: Seq<Linear>,
    activation: O::Rule,
    x: Array<T>,
    ins: Seq<Array<T>>,
    outs: Seq<Array<T>>,
) -> bool {
    &&& ins.len() == ls.len()
    &&& outs.len() == ls.len()
    &&& ins[0] == x
    &&& forall|k: int|
        1 <= k < ls.len() ==> #[trigger] ins[k] == made_of::<T, O>(activation, outs[k - 1])
    &&& forall|k: int|
        0 <= k < ls.len() ==> is_affine(
            #[trigger] outs[k],
            ins[k],
            weight_of(g, ls[k]),
            bias_of(g, ls[k]),
        )
}

/// Whether `y` is what a perceptron makes of `x`: what the last of its layers gives when they
/// are run in turn.
pub open spec fn is_perceptron<T: Scalar, O: Op<T>>(
    g: Graph<T, O>,
    ls: Seq<Linear>,
    activation: O::Rule,
    x: Array<T>,
    y: Array<T>,
) -> bool {
    exists|ins: Seq<Array<T>>, outs: Seq<Array<T>>|
        #[trigger] in_turn::<T, O>(g, ls, activation, x, ins, outs) && y == outs[ls.len() - 1]
}

/// Whether the layers of a pipeline were run one after the other: `gs` are the graphs, and
/// `vs` the variables, before the first layer, between each two, and behind the last.
pub open spec fn one_after_another<T: Scalar, O: Op<T>, L: Model<T, O>>(
    ls: Seq<L>,
    gs: Seq<Graph<T, O>>,
    vs: Seq<Variable>,
) -> bool {
    &&& gs.len() == ls.len() + 1
    &&& vs.len() == ls.len() + 1
    &&& forall|k: int|
        0 <= k < ls.len() ==> {
            let steps = (#[trigger] ls[k]).steps(gs[k].nodes@.len(), vs[k]);
            &&& runs(gs[k], gs[k + 1], steps)
            &&& vs[k + 1] == result_of(gs[k], steps.len() as int, vs[k])
        }
}

/// Whether running layers one after another goes from `before` to `after`, and hands `x` on
/// to `y`.
pub open spec fn is_pipeline<T: Scalar, O: Op<T>, L: Model<T, O>>(
    before: Graph<T, O>,
    after: Graph<T, O>,
    ls: Seq<L>,
    x: Variable,
    y: Variable,
) -> bool {
    exists|gs: Seq<Graph<T, O>>, vs: Seq<Variable>|
        {
            &&& #[trigger] one_after_another(ls, gs, vs)
            &&& gs[0] == before && vs[0] == x
            &&& gs[ls.len() as int] == after && vs[ls.len() as int] == y
        }
}

// ---------------------------------------------------------------------------
// laws
// ---------------------------------------------------------------------------
proof fn lemma_perceptron<T: Scalar, O: Op<T>, A: Fn() -> O>(
    before: Graph<T, O>,
    after: Graph<T, O>,
    net: Mlp<A>,
    x: Variable,
    k: int,
)
    requires
        before.wf(),
        after.wf(),
        holds(before, x),
        Model::<T, O>::takes(&net, before, held(before, x).shape),
        runs(before, after, Model::<T, O>::steps(&net, before.nodes@.len(), x)),
        0 <= k < net.layers@.len(),
    ensures
        ({
            let n = before.nodes@.len();
            let (from, to) = (mlp_input(n, x, k), outcome_of(before, 2 * k));
            &&& holds(after, from)
            &&& holds(after, to)
            &&& held(after, from).shape == chain_shape(net.layers@, before, held(before, x).shape, k)
            &&& is_affine(
                held(after, to),
                held(after, from),
                weight_of(before, net.layers@[k]),
                bias_of(before, net.layers@[k]),
            )
            &&& k > 0 ==> held(after, from) == made_of::<T, O>(
                made::<T, O, A>(net.activation),
                held(after, outcome_of(before, 2 * k - 2)),
            )
        }),
    decreases k,
{
    let n = before.nodes@.len();
    let ls = net.layers@;
    let rule = made::<T, O, A>(net.activation);
    let s = held(before, x).shape;
    let steps = Model::<T, O>::steps(&net, n, x);
    let from = mlp_input(n, x, k);
    a_run_only_adds(before, after, steps);
    lemma_whole(before, after);
    assert(after.nodes.len() == after.nodes@.len());
    if k == 0 {
        lemma_still_held(before, after, x);
    } else {
        lemma_perceptron(before, after, net, x, k - 1);
        let last = outcome_of(before, 2 * k - 2);
        assert(last == nth(n, 2 * k - 2));
        a_run_computes_its_steps(before, after, steps, 2 * k - 1);
        assert((2 * k - 1) % 2 == 1);
        assert(steps[2 * k - 1] == (Step { rule, inputs: seq![last] }));
        let a = held(after, last);
        assert(after.arrays(seq![last]) =~= seq![a]);
        assert(after.node_ok(last.id as int));
        assert(from == outcome_of(before, 2 * k - 1));
        assert(held(after, from) == made_of::<T, O>(rule, a));
        assert(pointwise::<T, O>(rule));
        assert(a.shape =~= chain_shape(ls, before, s, k));
    }
    assert((2 * k) % 2 == 0 && (2 * k) / 2 == k);
    assert(steps[2 * k] == linear_step::<T, O>(ls[k], from));
    assert(ls[k].takes(before, chain_shape(ls, before, s, k)));
    lemma_linear_step(before, after, steps, 2 * k, ls[k], from);
}

/// A perceptron gives what its last layer makes of the activation of what the layer before
/// gave, and so on back to its input: the activation stands behind every layer but the last.
pub proof fn a_perceptron_activates_between_its_layers<T: Scalar, O: Op<T>, A: Fn() -> O>(
    before: Graph<T, O>,
    after: Graph<T, O>,
    net: Mlp<A>,
    x: Variable,
    y: Variable,
)
    requires
        before.wf(),
        after.wf(),
        holds(before, x),
        Model::<T, O>::takes(&net, before, held(before, x).shape),
        runs(before, after, Model::<T, O>::steps(&net, before.nodes@.len(), x)),
        y == result_of(
            before,
            Model::<T, O>::steps(&net, before.nodes@.len(), x).len() as int,
            x,
        ),
    ensures
        holds(after, y),
        is_perceptron::<T, O>(
            before,
            net.layers@,
            made::<T, O, A>(net.activation),
            held(before, x),
            held(after, y),
        ),
{
    let n = before.nodes@.len();
    let ls = net.layers@;
    let rule = made::<T, O, A>(net.activation);
    let ins = Seq::new(ls.len(), |k: int| held(after, mlp_input(n, x, k)));
    let outs = Seq::new(ls.len(), |k: int| held(after, outcome_of(before, 2 * k)));
    a_run_only_adds(before, after, Model::<T, O>::steps(&net, n, x));
    lemma_still_held(before, after, x);
    assert forall|k: int| 1 <= k < ls.len() implies #[trigger] ins[k] == made_of::<T, O>(
        rule,
        outs[k - 1],
    ) by {
        lemma_perceptron(before, after, net, x, k);
    }
    assert forall|k: int| 0 <= k < ls.len() implies is_affine(
        #[trigger] outs[k],
        ins[k],
        weight_of(before, ls[k]),
        bias_of(before, ls[k]),
    ) by {
        lemma_perceptron(before, after, net, x, k);
    }
    lemma_perceptron(before, after, net, x, ls.len() - 1);
    assert(in_turn::<T, O>(before, ls, rule, held(before, x), ins, outs));
}

/// What a run of two parts did, part by part.
pub proof fn lemma_cut<T: Scalar, O: Op<T>>(
    before: Graph<T, O>,
    after: Graph<T, O>,
    first: Seq<Step<O::Rule>>,
    second: Seq<Step<O::Rule>>,
) -> (mid: Graph<T, O>)
    requires
        runs(before, after, first + second),
    ensures
        runs(before, mid, first),
        runs(mid, after, second),
    decreases second.len(),
{
    let all = first + second;
    if second.len() == 0 {
        assert(all =~= first);
        after
    } else {
        let late = choose|late: Graph<T, O>|
            runs(before, late, all.drop_last()) && #[trigger] crate::engine::trace::took(
                late,
                after,
                all.last(),
            );
        assert(all.drop_last() =~= first + second.drop_last());
        assert(all.last() == second.last());
        let mid = lemma_cut(before, late, first, second.drop_last());
        assert(runs(mid, late, second.drop_last()));
        mid
    }
}

proof fn lemma_pipeline<T: Scalar, O: Op<T>, L: Model<T, O>>(
    before: Graph<T, O>,
    after: Graph<T, O>,
    ls: Seq<L>,
    x: Variable,
    k: int,
) -> (r: (Seq<Graph<T, O>>, Seq<Variable>))
    requires
        0 <= k <= ls.len(),
        runs(before, after, chain_steps::<T, O, L>(ls, before.nodes@.len(), x, k)),
    ensures
        one_after_another(ls.take(k), r.0, r.1),
        r.0[0] == before,
        r.0[k] == after,
        r.1[0] == x,
        r.1[k] == result_of(
            before,
            chain_steps::<T, O, L>(ls, before.nodes@.len(), x, k).len() as int,
            x,
        ),
    decreases k,
{
    let n = before.nodes@.len();
    if k == 0 {
        (seq![before], seq![x])
    } else {
        let done = chain_steps::<T, O, L>(ls, n, x, k - 1);
        let from = passed(n, done.len() as int, x);
        let more = ls[k - 1].steps(n + done.len(), from);
        let mid = lemma_cut(before, after, done, more);
        a_run_only_adds(before, mid, done);
        let (gs, vs) = lemma_pipeline(before, mid, ls, x, k - 1);
        a_run_only_adds(before, after, done + more);
        let to = result_of(mid, more.len() as int, from);
        let (hs, ws) = (gs.push(after), vs.push(to));
        let all = ls.take(k);
        assert forall|j: int| 0 <= j < all.len() implies ({
            let steps = (#[trigger] all[j]).steps(hs[j].nodes@.len(), ws[j]);
            &&& runs(hs[j], hs[j + 1], steps)
            &&& ws[j + 1] == result_of(hs[j], steps.len() as int, ws[j])
        }) by {
            if j < k - 1 {
                assert(ls.take(k - 1)[j] == all[j]);
            }
        }
        (hs, ws)
    }
}

/// A pipeline runs each of its layers on what the layer before it gave, and gives what the
/// last one does; without layers it hands its input back.
pub proof fn a_pipeline_runs_its_layers_in_order<T: Scalar, O: Op<T>, L: Model<T, O>>(
    before: Graph<T, O>,
    after: Graph<T, O>,
    net: Sequential<L>,
    x: Variable,
    y: Variable,
)
    requires
        runs(before, after, Model::<T, O>::steps(&net, before.nodes@.len(), x)),
        y == result_of(
            before,
            Model::<T, O>::steps(&net, before.nodes@.len(), x).len() as int,
            x,
        ),
    ensures
        is_pipeline(before, after, net.layers@, x, y),
{
    let ls = net.layers@;
    let (gs, vs) = lemma_pipeline(before, after, ls, x, ls.len() as int);
    assert(ls.take(ls.len() as int) =~= ls);
    assert(one_after_another(ls, gs, vs));
}

} // verus!
