//! Several operations applied one after the other.

use vstd::prelude::*;

use crate::engine::function::{applied, Op};
use crate::engine::graph::{Graph, Variable};
use crate::scalar::Scalar;

verus! {

/// One operation applied to some variables, giving one more variable.
pub ghost struct Step<R> {
    pub rule: R,
    pub inputs: Seq<Variable>,
}

/// The variable that step `k` gives, counted from a graph on.
pub open spec fn outcome_of<T, O>(before: Graph<T, O>, k: int) -> Variable {
    Variable { id: (before.nodes@.len() + k) as usize }
}

/// Whether `after` is what becomes of `before` when the steps are taken in their
/// order, and nothing else is done.
pub open spec fn runs<T: Scalar, O: Op<T>>(
    before: Graph<T, O>,
    after: Graph<T, O>,
    steps: Seq<Step<O::Rule>>,
) -> bool
    decreases steps.len(),
{
    if steps.len() == 0 {
        after == before
    } else {
        exists|mid: Graph<T, O>|
            runs(before, mid, steps.drop_last()) && #[trigger] took(mid, after, steps.last())
    }
}

/// Whether `after` is `before` with one step taken.
pub open spec fn took<T: Scalar, O: Op<T>>(
    before: Graph<T, O>,
    after: Graph<T, O>,
    step: Step<O::Rule>,
) -> bool {
    &&& before.all_hold(step.inputs)
    &&& applied(before, after, step.rule, step.inputs, seq![outcome_of(before, 0)])
}

/// A graph that extends an extension extends what that extended.
pub proof fn lemma_extends<T, O>(a: Graph<T, O>, b: Graph<T, O>, c: Graph<T, O>)
    requires
        b.extends(a),
        c.extends(b),
    ensures
        c.extends(a),
{
    assert forall|i: int| 0 <= i < a.nodes@.len() implies #[trigger] c.nodes@[i] == a.nodes@[i] by {
        assert(b.nodes@[i] == a.nodes@[i]);
    }
    assert forall|i: int| 0 <= i < a.calls@.len() implies #[trigger] c.calls@[i] == a.calls@[i] by {
        assert(b.calls@[i] == a.calls@[i]);
    }
}

/// No steps change nothing.
pub proof fn lemma_no_steps<T: Scalar, O: Op<T>>(g: Graph<T, O>)
    ensures
        runs::<T, O>(g, g, Seq::empty()),
{
}

/// One step more.
pub proof fn lemma_one_step_more<T: Scalar, O: Op<T>>(
    before: Graph<T, O>,
    mid: Graph<T, O>,
    after: Graph<T, O>,
    steps: Seq<Step<O::Rule>>,
    step: Step<O::Rule>,
)
    requires
        runs(before, mid, steps),
        took(mid, after, step),
    ensures
        runs(before, after, steps.push(step)),
{
    let all = steps.push(step);
    assert(all.drop_last() =~= steps);
    assert(all.last() == step);
    assert(runs(before, mid, all.drop_last()) && took(mid, after, all.last()));
}

/// One run after another is one run.
pub proof fn lemma_runs_chain<T: Scalar, O: Op<T>>(
    before: Graph<T, O>,
    mid: Graph<T, O>,
    after: Graph<T, O>,
    first: Seq<Step<O::Rule>>,
    second: Seq<Step<O::Rule>>,
)
    requires
        runs(before, mid, first),
        runs(mid, after, second),
    ensures
        runs(before, after, first + second),
    decreases second.len(),
{
    if second.len() == 0 {
        assert(first + second =~= first);
    } else {
        let late = choose|late: Graph<T, O>|
            runs(mid, late, second.drop_last()) && #[trigger] took(late, after, second.last());
        lemma_runs_chain(before, mid, late, first, second.drop_last());
        lemma_one_step_more(before, late, after, first + second.drop_last(), second.last());
        assert((first + second.drop_last()).push(second.last()) =~= first + second);
    }
}

/// Every step adds one variable and leaves what was there alone.
pub proof fn a_run_only_adds<T: Scalar, O: Op<T>>(
    before: Graph<T, O>,
    after: Graph<T, O>,
    steps: Seq<Step<O::Rule>>,
)
    requires
        runs(before, after, steps),
    ensures
        after.extends(before),
        after.nodes@.len() == before.nodes@.len() + steps.len(),
        before.config.enable_backprop ==> after.calls@.len() == before.calls@.len() + steps.len(),
        !before.config.enable_backprop ==> after.calls@.len() == before.calls@.len(),
    decreases steps.len(),
{
    if steps.len() > 0 {
        let mid = choose|mid: Graph<T, O>|
            runs(before, mid, steps.drop_last()) && #[trigger] took(mid, after, steps.last());
        a_run_only_adds(before, mid, steps.drop_last());
        lemma_extends(before, mid, after);
    }
}

/// Every variable that a run adds holds what its step makes of the variables that
/// the step reads, and all of them are there.
pub proof fn a_run_computes_its_steps<T: Scalar, O: Op<T>>(
    before: Graph<T, O>,
    after: Graph<T, O>,
    steps: Seq<Step<O::Rule>>,
    k: int,
)
    requires
        runs(before, after, steps),
        0 <= k < steps.len(),
    ensures
        after.all_hold(steps[k].inputs),
        O::value(steps[k].rule, after.arrays(steps[k].inputs)).len() == 1,
        after.array(outcome_of(before, k)) == Some(
            O::value(steps[k].rule, after.arrays(steps[k].inputs))[0],
        ),
    decreases steps.len(),
{
    let mid = choose|mid: Graph<T, O>|
        runs(before, mid, steps.drop_last()) && #[trigger] took(mid, after, steps.last());
    a_run_only_adds(before, mid, steps.drop_last());
    let inputs = steps[k].inputs;
    if k == steps.len() - 1 {
        assert(steps[k] == steps.last());
        let v = outcome_of(mid, 0);
        assert(v == outcome_of(before, k));
        assert(seq![v][0] == v);
        assert forall|i: int| 0 <= i < inputs.len() implies after.has(#[trigger] inputs[i])
            && after.node(inputs[i]) == mid.node(inputs[i]) by {
            assert(mid.has(inputs[i]));
            assert(after.nodes@[inputs[i].id as int] == mid.nodes@[inputs[i].id as int]);
        }
        assert(after.arrays(inputs) =~= mid.arrays(inputs));
    } else {
        a_run_computes_its_steps(before, mid, steps.drop_last(), k);
        assert(steps.drop_last()[k] == steps[k]);
        assert forall|i: int| 0 <= i < inputs.len() implies after.has(#[trigger] inputs[i])
            && after.node(inputs[i]) == mid.node(inputs[i]) by {
            assert(mid.has(inputs[i]));
            assert(after.nodes@[inputs[i].id as int] == mid.nodes@[inputs[i].id as int]);
        }
        assert(after.arrays(inputs) =~= mid.arrays(inputs));
        let v = outcome_of(before, k);
        assert(after.nodes@[v.id as int] == mid.nodes@[v.id as int]);
    }
}

/// An operation applied at the end of a run is one step more of it.
pub proof fn lemma_apply<T: Scalar, O: Op<T>>(
    before: Graph<T, O>,
    mid: Graph<T, O>,
    after: Graph<T, O>,
    steps: Seq<Step<O::Rule>>,
    rule: O::Rule,
    inputs: Seq<Variable>,
    r: Variable,
)
    requires
        runs(before, mid, steps),
        mid.all_hold(inputs),
        applied(mid, after, rule, inputs, seq![r]),
    ensures
        runs(before, after, steps.push(Step { rule, inputs })),
        r == outcome_of(before, steps.len() as int),
        after.extends(mid),
        after.extends(before),
{
    a_run_only_adds(before, mid, steps);
    assert(seq![r][0] == r);
    assert(seq![outcome_of(mid, 0)] =~= seq![r]);
    lemma_one_step_more(before, mid, after, steps, Step { rule, inputs });
    lemma_extends(before, mid, after);
}

} // verus!
