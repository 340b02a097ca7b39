//! Operations, and the recording of the functions that apply them.
use crate::engine::builtin::Builtin;
use crate::engine::config::enable_backprop;
use crate::engine::graph::{
    lemma_history_kept, lemma_nodes_ok, lists, next_generation, views, Call, Function, Graph, Node,
    Variable,
};
use crate::engine::rule::{shapes, Rule};
use crate::engine::term::{written, Term};
use crate::index::volume;
use crate::scalar::Scalar;
use crate::tensor::{copy_of, Array, Tensor};
use std::rc::Rc;
use vstd::prelude::*;

verus! {

/// A differentiable operation.
///
/// The framework's own operations are the [`Builtin`] ones. A program adds its own by
/// implementing this trait for a type that can also stand for every built-in
/// operation.
pub trait Op<T: Scalar>: Sized {
    /// The mathematical content of an operation.
    type Rule;

    closed spec fn rule(&self) -> Self::Rule {
        arbitrary()
    }

    /// Whether the operation is defined on inputs of these shapes.
    closed spec fn accepts(rule: Self::Rule, s: Seq<Seq<usize>>) -> bool {
        arbitrary()
    }

    /// Whether its gradients have the shapes of its inputs.
    closed spec fn differentiable(rule: Self::Rule, s: Seq<Seq<usize>>) -> bool {
        arbitrary()
    }

    /// The shapes of the outputs.
    closed spec fn out_shapes(rule: Self::Rule, s: Seq<Seq<usize>>) -> Seq<Seq<usize>> {
        arbitrary()
    }

    /// The outputs.
    closed spec fn value(rule: Self::Rule, xs: Seq<Array<T>>) -> Seq<Array<T>> {
        arbitrary()
    }

    /// The rule once the operation has run on `xs`, where it remembers something of it.
    closed spec fn recorded(rule: Self::Rule, xs: Seq<Array<T>>) -> Self::Rule {
        arbitrary()
    }

    /// The gradients of the inputs `xs`, given the outputs and their gradients.
    closed spec fn gradient(
        rule: Self::Rule,
        xs: Seq<Array<T>>,
        ys: Seq<Array<T>>,
        gys: Seq<Array<T>>,
    ) -> Seq<Array<T>> {
        arbitrary()
    }

    /// The operations that make up those gradients, over the variables that hold the
    /// inputs, the outputs and the gradients of the outputs.
    closed spec fn expressions(
        rule: Self::Rule,
        xs: Seq<Array<T>>,
        gys: Seq<Array<T>>,
        inputs: Seq<Variable>,
        outputs: Seq<Variable>,
        grads: Seq<Variable>,
    ) -> Seq<Term<T, Self::Rule>> {
        arbitrary()
    }

    /// What the operation is called.
    closed spec fn title(rule: Self::Rule) -> Seq<char> {
        arbitrary()
    }

    /// The rule that stands for a built-in operation.
    closed spec fn embed(rule: Rule) -> Self::Rule {
        arbitrary()
    }

    /// An embedded rule behaves as the built-in one.
    proof fn embedding(rule: Rule)
        ensures
            forall|s: Seq<Seq<usize>>| #[trigger]
                Self::accepts(Self::embed(rule), s) == rule.accepts(s),
            forall|s: Seq<Seq<usize>>| #[trigger]
                Self::differentiable(Self::embed(rule), s) == rule.differentiable(s),
            forall|s: Seq<Seq<usize>>| #[trigger]
                Self::out_shapes(Self::embed(rule), s) == seq![rule.out_shape(s)],
            forall|xs: Seq<Array<T>>| #[trigger]
                Self::value(Self::embed(rule), xs) == seq![rule.value(xs)],
            forall|xs: Seq<Array<T>>| #[trigger]
                Self::recorded(Self::embed(rule), xs) == Self::embed(rule.recorded(xs)),
            forall|xs: Seq<Array<T>>, ys: Seq<Array<T>>, gys: Seq<Array<T>>| #[trigger]
                Self::gradient(Self::embed(rule), xs, ys, gys) == rule.gradient(xs, gys[0]),
            forall|
                xs: Seq<Array<T>>,
                gys: Seq<Array<T>>,
                inputs: Seq<Variable>,
                outputs: Seq<Variable>,
                grads: Seq<Variable>,
            | #[trigger]
                Self::expressions(Self::embed(rule), xs, gys, inputs, outputs, grads)
                    == rule.expressions::<T, Self::Rule>(xs, gys[0], inputs, grads[0]),
            Self::title(Self::embed(rule)) == rule.title(),
    ;

    /// The operation that stands for a built-in one.
    fn from_builtin(op: Builtin) -> (r: Self)
        ensures
            r.rule() == Self::embed(op.meaning()),
    ;

    fn op_name(&self) -> (r: String)
        ensures
            r@ == Self::title(self.rule()),
    ;

    /// Computes the outputs, remembering what the gradient will need.
    fn forward(&mut self, xs: &Vec<Tensor<T>>) -> (ys: Vec<Tensor<T>>)
        requires
            forall|i: int| 0 <= i < xs@.len() ==> (#[trigger] xs@[i]).wf(),
            Self::accepts(old(self).rule(), shapes(views(xs@))),
        ensures
            views(ys@) == Self::value(old(self).rule(), views(xs@)),
            forall|i: int| 0 <= i < ys@.len() ==> (#[trigger] ys@[i]).wf(),
            final(self).rule() == Self::recorded(old(self).rule(), views(xs@)),
            shapes(views(ys@)) == Self::out_shapes(final(self).rule(), shapes(views(xs@))),
    ;
}

/// Whether each of the listed variables is one of `given` or came after `before`.
pub open spec fn made_or_given<T, O>(
    before: Graph<T, O>,
    vs: Seq<Variable>,
    given: Seq<Variable>,
) -> bool {
    forall|k: int|
        0 <= k < vs.len() ==> (#[trigger] vs[k]).id >= before.nodes@.len() || given.contains(vs[k])
}

/// An operation that can compute its gradients.
pub trait Backprop<T: Scalar>: Op<T> {
    /// Whether the gradients that come out are made on the way or handed in, and never an
    /// input or output of the function.
    closed spec fn hands_on() -> bool {
        arbitrary()
    }

    /// Computes the gradients of the inputs as new variables of the graph.
    fn backward(
        &self,
        g: &mut Graph<T, Self>,
        inputs: &Vec<Variable>,
        outputs: &Vec<Variable>,
        gys: &Vec<Variable>,
    ) -> (gxs: Vec<Variable>)
        requires
            old(g).wf(),
            old(g).all_hold(inputs@),
            old(g).all_hold(outputs@),
            old(g).all_hold(gys@),
            Self::differentiable(self.rule(), shapes(old(g).arrays(inputs@))),
            shapes(old(g).arrays(outputs@)) == Self::out_shapes(
                self.rule(),
                shapes(old(g).arrays(inputs@)),
            ),
            shapes(old(g).arrays(gys@)) == Self::out_shapes(
                self.rule(),
                shapes(old(g).arrays(inputs@)),
            ),
        ensures
            final(g).wf(),
            final(g).extends(*old(g)),
            final(g).all_hold(gxs@),
            final(g).arrays(gxs@) == Self::gradient(
                self.rule(),
                old(g).arrays(inputs@),
                old(g).arrays(outputs@),
                old(g).arrays(gys@),
            ),
            shapes(final(g).arrays(gxs@)) == shapes(old(g).arrays(inputs@)),
            Self::hands_on() ==> made_or_given(*old(g), gxs@, gys@),
            written(
                *old(g),
                *final(g),
                gxs@,
                Self::expressions(
                    self.rule(),
                    old(g).arrays(inputs@),
                    old(g).arrays(gys@),
                    inputs@,
                    outputs@,
                    gys@,
                ),
            ),
    ;
}

/// The greatest of the first `n` generations, or 0 where there are none.
pub open spec fn top_generation(gens: Seq<u32>, n: int) -> u32
    decreases n,
{
    if n <= 0 {
        0
    } else if gens[n - 1] > top_generation(gens, n - 1) {
        gens[n - 1]
    } else {
        top_generation(gens, n - 1)
    }
}

/// The generations of the listed variables.
pub open spec fn generations<T, O>(g: Graph<T, O>, vs: Seq<Variable>) -> Seq<u32> {
    Seq::new(vs.len(), |i: int| g.node(vs[i]).generation)
}

pub proof fn lemma_top_generation(gens: Seq<u32>, n: int)
    requires
        n <= gens.len(),
    ensures
        forall|i: int| 0 <= i < n ==> #[trigger] gens[i] <= top_generation(gens, n),
    decreases n,
{
    if n > 0 {
        lemma_top_generation(gens, n - 1);
    }
}

/// What applying an operation does to a graph: the outputs are new variables that
/// hold its values, and, while recording is on, one new function ties them to the
/// inputs.
pub open spec fn applied<T: Scalar, O: Op<T>>(
    before: Graph<T, O>,
    after: Graph<T, O>,
    rule: O::Rule,
    inputs: Seq<Variable>,
    outputs: Seq<Variable>,
) -> bool {
    let xs = before.arrays(inputs);
    let ys = O::value(rule, xs);
    let f = Function { id: before.calls@.len() as usize };
    let generation = top_generation(generations(before, inputs), inputs.len() as int);
    &&& after.extends(before)
    &&& after.nodes@.len() == before.nodes@.len() + ys.len()
    &&& outputs.len() == ys.len()
    &&& forall|i: int|
        0 <= i < ys.len() ==> {
            let v = #[trigger] outputs[i];
            let node = after.node(v);
            &&& v.id == before.nodes@.len() + i
            &&& after.array(v) == Some(ys[i])
            &&& node.grad.is_none()
            &&& node.name.is_none()
            &&& node.alive
            &&& before.config.enable_backprop ==> node.creator == Some(f) && node.generation
                == next_generation(generation)
            &&& !before.config.enable_backprop ==> node.creator.is_none() && node.generation == 0
        }
    &&& before.config.enable_backprop ==> {
        let call = after.call(f);
        &&& after.calls@.len() == before.calls@.len() + 1
        &&& (*call.op).rule() == O::recorded(rule, xs)
        &&& call.inputs@ == inputs
        &&& call.outputs@ == outputs
        &&& lists(call.output_shapes@) == shapes(ys)
        &&& call.generation == generation
    }
    &&& !before.config.enable_backprop ==> after.calls@.len() == before.calls@.len()
}

/// A copy of a list of handles.
pub fn copy_handles(vs: &[Variable]) -> (r: Vec<Variable>)
    ensures
        r@ == vs@,
{
    let n: usize = vs.len();
    let mut r: Vec<Variable> = Vec::new();
    let mut i: usize = 0;
    while i < n
        invariant
            n == vs@.len(),
            i <= n,
            r@ == vs@.take(i as int),
        decreases n - i,
    {
        r.push(vs[i]);
        proof {
            assert(vs@.take(i + 1) =~= vs@.take(i as int).push(vs@[i as int]));
        }
        i = i + 1;
    }
    proof {
        assert(vs@.take(n as int) =~= vs@);
    }
    r
}

/// Copies of the arrays that the listed variables hold.
fn read_all<T: Scalar, O>(g: &Graph<T, O>, vs: &[Variable]) -> (r: Vec<Tensor<T>>)
    requires
        g.wf(),
        g.all_hold(vs@),
    ensures
        views(r@) == g.arrays(vs@),
        forall|i: int| 0 <= i < r@.len() ==> (#[trigger] r@[i]).wf(),
{
    let n: usize = vs.len();
    let mut r: Vec<Tensor<T>> = Vec::new();
    let mut i: usize = 0;
    proof {
        lemma_nodes_ok(*g);
    }
    while i < n
        invariant
            n == vs@.len(),
            i <= n,
            g.wf(),
            g.all_hold(vs@),
            forall|k: int|
                0 <= k < g.nodes@.len() ==> ((#[trigger] g.nodes@[k]).data matches Some(t)
                    ==> t.wf()),
            r@.len() == i,
            forall|k: int|
                0 <= k < i ==> (#[trigger] r@[k]).wf() && Some(r@[k]@) == g.array(vs@[k]),
        decreases n - i,
    {
        let ghost v = vs@[i as int];
        assert(g.has(v) && g.node(v).data.is_some());
        match &g.nodes[vs[i].id].data {
            Some(t) => {
                r.push(t.duplicate());
            },
            None => {},
        }
        i = i + 1;
    }
    proof {
        assert(views(r@) =~= g.arrays(vs@)) by {
            assert forall|k: int| 0 <= k < n implies views(r@)[k] == g.arrays(vs@)[k] by {
                assert(r@[k].wf());
            }
        }
    }
    r
}

/// Applies an operation, and records it while recording is on.
pub fn apply<T: Scalar, O: Op<T>>(g: &mut Graph<T, O>, op: O, inputs: &[Variable]) -> (outputs: Vec<
    Variable,
>)
    requires
        old(g).wf(),
        old(g).all_hold(inputs@),
        O::accepts(op.rule(), shapes(old(g).arrays(inputs@))),
    ensures
        final(g).wf(),
        applied(*old(g), *final(g), op.rule(), inputs@, outputs@),
{
    let ghost before = *g;
    let ghost rule = op.rule();
    let mut op = op;
    let xs = read_all(g, inputs);
    let mut ys = op.forward(&xs);
    let ghost arrays = views(ys@);
    let ghost tensors = ys@;
    let count: usize = ys.len();
    let first: usize = g.nodes.len();
    let mut shapes_out: Vec<Vec<usize>> = Vec::new();
    let mut outputs: Vec<Variable> = Vec::new();
    let mut i: usize = 0;
    proof {
        lemma_nodes_ok(before);
        assert(tensors.skip(0) =~= tensors);
    }
    while i < count
        invariant
            i <= count,
            count == tensors.len(),
            count == arrays.len(),
            arrays == views(tensors),
            first == before.nodes@.len(),
            ys@ == tensors.skip(i as int),
            forall|k: int| 0 <= k < count ==> (#[trigger] tensors[k]).wf(),
            before.wf(),
            g.calls == before.calls,
            g.config == before.config,
            g.nodes@.len() == first + i,
            outputs@.len() == i,
            shapes_out@.len() == i,
            forall|k: int| 0 <= k < first ==> #[trigger] g.nodes@[k] == before.nodes@[k],
            forall|k: int|
                0 <= k < i ==> {
                    let node = g.nodes@[first + k];
                    &&& (#[trigger] outputs@[k]).id == first + k
                    &&& node.data == Some(tensors[k])
                    &&& node.grad.is_none()
                    &&& node.creator.is_none()
                    &&& node.generation == 0
                    &&& node.name.is_none()
                    &&& node.alive
                },
            forall|k: int| 0 <= k < i ==> (#[trigger] shapes_out@[k])@ == tensors[k]@.shape,
        decreases count - i,
    {
        let y: Tensor<T> = ys.remove(0);
        proof {
            assert(y == tensors[i as int]);
            assert(ys@ =~= tensors.skip(i + 1));
        }
        shapes_out.push(copy_of(y.shape.as_slice()));
        let ghost nodes = g.nodes@;
        let ghost made = outputs@;
        let id: usize = g.nodes.len();
        g.nodes.push(
            Node {
                data: Some(y),
                grad: None,
                creator: None,
                generation: 0,
                name: None,
                alive: true,
            },
        );
        outputs.push(Variable { id });
        proof {
            assert forall|k: int| 0 <= k < i implies g.nodes@[first + k] == nodes[first + k]
                && #[trigger] outputs@[k] == made[k] by {}
            assert(g.nodes@[first + i].data == Some(tensors[i as int]));
            assert(outputs@[i as int].id == first + i);
        }
        i = i + 1;
    }
    proof {
        assert forall|k: int| first <= k < g.nodes@.len() implies (
        #[trigger] g.nodes@[k]).creator.is_none() && g.nodes@[k].grad.is_none() && (
        g.nodes@[k].data matches Some(t) ==> t.wf()) by {
            let o = outputs@[k - first];
            assert(tensors[k - first].wf());
        }
        lemma_history_kept(before, *g);
    }
    let ghost mid = *g;
    if enable_backprop(&g.config) {
        let mut generation: u32 = 0;
        let n: usize = inputs.len();
        let mut j: usize = 0;
        let ghost gens = generations(before, inputs@);
        while j < n
            invariant
                j <= n,
                n == inputs@.len(),
                before.all_hold(inputs@),
                gens == generations(before, inputs@),
                first == before.nodes@.len(),
                *g == mid,
                first <= mid.nodes@.len(),
                forall|k: int| 0 <= k < first ==> #[trigger] mid.nodes@[k] == before.nodes@[k],
                generation == top_generation(gens, j as int),
            decreases n - j,
        {
            assert(before.has(inputs@[j as int]));
            let got: u32 = g.nodes[inputs[j].id].generation;
            assert(got == gens[j as int]);
            if got > generation {
                generation = got;
            }
            j = j + 1;
        }
        let func = Function { id: g.calls.len() };
        g.calls.push(
            Call {
                op: Rc::new(op),
                inputs: copy_handles(inputs),
                outputs: copy_handles(outputs.as_slice()),
                output_shapes: shapes_out,
                generation,
            },
        );
        proof {
            assert forall|k: int| 0 <= k < outputs@.len() implies volume(
                (#[trigger] g.calls@.last().output_shapes@[k])@,
            ) <= usize::MAX by {
                assert(tensors[k].wf());
            }
            lemma_call_added(before, mid, *g, inputs@, outputs@);
        }
        let ghost recorded = *g;
        let mut k: usize = 0;
        while k < count
            invariant
                k <= count,
                count == outputs@.len(),
                g.wf(),
                func.id == before.calls@.len(),
                g.calls@ == recorded.calls@,
                g.config == before.config,
                g.knows(func),
                g.call(func).outputs@ == outputs@,
                g.call(func).generation == generation,
                recorded.nodes@ == mid.nodes@,
                g.nodes@.len() == first + count,
                mid.nodes@.len() == first + count,
                forall|m: int|
                    0 <= m < count ==> (#[trigger] outputs@[m]).id == first + m,
                forall|m: int|
                    0 <= m < g.calls@.len() ==> forall|q: int|
                        0 <= q < (#[trigger] g.calls@[m]).inputs@.len()
                            ==> (#[trigger] g.calls@[m].inputs@[q]).id < first,
                forall|m: int| 0 <= m < first ==> #[trigger] g.nodes@[m] == mid.nodes@[m],
                forall|m: int|
                    k <= m < count ==> g.nodes@[first + m] == #[trigger] mid.nodes@[first + m],
                forall|m: int|
                    0 <= m < k ==> g.nodes@[first + m] == (Node {
                        creator: Some(func),
                        generation: next_generation(generation),
                        ..#[trigger] mid.nodes@[first + m]
                    }),
            decreases count - k,
        {
            let v = outputs[k];
            proof {
                assert(outputs@[k as int].id == first + k);
                assert(outputs@.contains(v));
                assert forall|m: int| 0 <= m < g.calls@.len() implies !(
                #[trigger] g.calls@[m]).inputs@.contains(v) by {
                    if g.calls@[m].inputs@.contains(v) {
                        let q = g.calls@[m].inputs@.index_of(v);
                        assert(g.calls@[m].inputs@[q].id < first);
                    }
                }
                assert(g.nodes@[first + k] == mid.nodes@[first + k]);
            }
            v.set_creator(g, func);
            k = k + 1;
        }
    }
    proof {
        let ys = O::value(rule, before.arrays(inputs@));
        assert(ys == arrays);
        assert(before.config.enable_backprop ==> lists(
            g.call(Function { id: before.calls@.len() as usize }).output_shapes@,
        ) =~= shapes(ys)) by {
            if before.config.enable_backprop {
                let out = g.call(Function { id: before.calls@.len() as usize }).output_shapes@;
                assert forall|m: int| 0 <= m < count implies lists(out)[m] == shapes(ys)[m] by {
                    assert(out[m]@ == tensors[m]@.shape);
                }
            }
        }
        assert forall|m: int| 0 <= m < ys.len() implies g.array(#[trigger] outputs@[m]) == Some(
            ys[m],
        ) by {
            assert(outputs@[m].id == first + m);
            let t = mid.nodes@[first + m];
        }
    }
    outputs
}

/// Recording a function whose outputs are new keeps the graph well formed.
proof fn lemma_call_added<T, O>(
    before: Graph<T, O>,
    mid: Graph<T, O>,
    after: Graph<T, O>,
    inputs: Seq<Variable>,
    outputs: Seq<Variable>,
)
    requires
        before.wf(),
        mid.wf(),
        before.all_hold(inputs),
        before.nodes@.len() <= mid.nodes@.len(),
        mid.calls == before.calls,
        forall|k: int|
            0 <= k < before.nodes@.len() ==> #[trigger] mid.nodes@[k] == before.nodes@[k],
        after.nodes == mid.nodes,
        after.calls@.len() == mid.calls@.len() + 1,
        forall|k: int| 0 <= k < mid.calls@.len() ==> #[trigger] after.calls@[k] == mid.calls@[k],
        after.calls@.last().inputs@ == inputs,
        after.calls@.last().outputs@ == outputs,
        after.calls@.last().output_shapes@.len() == outputs.len(),
        forall|k: int|
            0 <= k < outputs.len() ==> volume(
                (#[trigger] after.calls@.last().output_shapes@[k])@,
            ) <= usize::MAX,
        after.calls@.last().generation == top_generation(
            generations(before, inputs),
            inputs.len() as int,
        ),
        forall|m: int| 0 <= m < outputs.len() ==> mid.has(#[trigger] outputs[m]),
    ensures
        after.wf(),
        forall|m: int|
            0 <= m < after.calls@.len() ==> forall|q: int|
                0 <= q < (#[trigger] after.calls@[m]).inputs@.len()
                    ==> (#[trigger] after.calls@[m].inputs@[q]).id < before.nodes@.len(),
{
    assert forall|i: int| 0 <= i < after.nodes@.len() implies #[trigger] after.node_ok(i) by {
        assert(mid.node_ok(i));
        if let Some(f) = after.nodes@[i].creator {
            assert(after.calls@[f.id as int] == mid.calls@[f.id as int]);
        }
    }
    assert forall|i: int| 0 <= i < after.calls@.len() implies #[trigger] after.call_ok(i) by {
        if i < mid.calls@.len() {
            assert(mid.call_ok(i));
            assert(after.calls@[i] == mid.calls@[i]);
        } else {
            let gens = generations(before, inputs);
            lemma_top_generation(gens, inputs.len() as int);
            let call = after.calls@[i];
            assert forall|k: int| 0 <= k < call.inputs@.len() implies {
                let x = #[trigger] call.inputs@[k];
                &&& after.has(x)
                &&& after.node(x).generation <= call.generation
                &&& after.node(x).creator matches Some(f) ==> f.id < i
            } by {
                let x = call.inputs@[k];
                assert(before.has(inputs[k]));
                assert(gens[k] == before.node(x).generation);
                assert(mid.nodes@[x.id as int] == before.nodes@[x.id as int]);
                assert(before.node_ok(x.id as int));
            }
        }
    }
    assert forall|m: int, q: int|
        0 <= m < after.calls@.len() && 0 <= q < after.calls@[m].inputs@.len() implies (
    #[trigger] after.calls@[m].inputs@[q]).id < before.nodes@.len() by {
        if m < before.calls@.len() {
            assert(before.call_ok(m));
            assert(after.calls@[m] == before.calls@[m]);
            assert(before.has(before.calls@[m].inputs@[q]));
        } else {
            assert(before.has(inputs[q]));
        }
    }
}

/// Applies an operation that has a single output.
pub fn apply1<T: Scalar, O: Op<T>>(g: &mut Graph<T, O>, op: O, inputs: &[Variable]) -> (output:
    Variable)
    requires
        old(g).wf(),
        old(g).all_hold(inputs@),
        O::accepts(op.rule(), shapes(old(g).arrays(inputs@))),
        O::value(op.rule(), old(g).arrays(inputs@)).len() == 1,
    ensures
        final(g).wf(),
        applied(*old(g), *final(g), op.rule(), inputs@, seq![output]),
{
    let outputs = apply(g, op, inputs);
    let output = outputs[0];
    proof {
        assert(outputs@ =~= seq![output]);
    }
    output
}

impl Function {
    /// A number that tells this function apart from every other one of its graph.
    pub fn id(&self) -> (r: usize)
        ensures
            r == self.id,
    {
        self.id
    }

    pub fn generation<T, O>(&self, g: &Graph<T, O>) -> (r: u32)
        requires
            g.knows(*self),
        ensures
            r == g.call(*self).generation,
    {
        g.calls[self.id].generation
    }

    pub fn inputs<T, O>(&self, g: &Graph<T, O>) -> (r: Vec<Variable>)
        requires
            g.knows(*self),
        ensures
            r@ == g.call(*self).inputs@,
    {
        copy_handles(g.calls[self.id].inputs.as_slice())
    }

    pub fn output_count<T, O>(&self, g: &Graph<T, O>) -> (r: usize)
        requires
            g.knows(*self),
        ensures
            r == g.call(*self).output_shapes@.len(),
    {
        g.calls[self.id].output_shapes.len()
    }

    /// What the operation is called.
    pub fn op_name<T: Scalar, O: Op<T>>(&self, g: &Graph<T, O>) -> (r: String)
        requires
            g.knows(*self),
        ensures
            r@ == O::title((*g.call(*self).op).rule()),
    {
        g.calls[self.id].op.op_name()
    }

    /// The outputs, and `None` in place of those that nobody holds any more.
    pub fn outputs<T, O>(&self, g: &Graph<T, O>) -> (r: Vec<Option<Variable>>)
        requires
            g.wf(),
            g.knows(*self),
        ensures
            r@ == live_outputs(*g, *self),
    {
        proof {
            assert(g.call_ok(self.id as int));
        }
        let n: usize = g.calls[self.id].outputs.len();
        let mut r: Vec<Option<Variable>> = Vec::new();
        let mut i: usize = 0;
        while i < n
            invariant
                i <= n,
                g.knows(*self),
                g.call_ok(self.id as int),
                n == g.call(*self).outputs@.len(),
                r@ == live_outputs(*g, *self).take(i as int),
            decreases n - i,
        {
            let v = g.calls[self.id].outputs[i];
            assert(g.has(g.call(*self).outputs@[i as int]));
            if g.nodes[v.id].alive {
                r.push(Some(v));
            } else {
                r.push(None);
            }
            proof {
                let all = live_outputs(*g, *self);
                assert(all.take(i + 1) =~= all.take(i as int).push(all[i as int]));
            }
            i = i + 1;
        }
        proof {
            let all = live_outputs(*g, *self);
            assert(all.take(n as int) =~= all);
        }
        r
    }

    /// The shape that an output had when it was recorded.
    pub fn output_shape<T, O>(&self, g: &Graph<T, O>, index: usize) -> (r: Option<Vec<usize>>)
        requires
            g.knows(*self),
        ensures
            r.is_some() <==> index < g.call(*self).output_shapes@.len(),
            r matches Some(s) ==> s@ == g.call(*self).output_shapes@[index as int]@,
    {
        if index < g.calls[self.id].output_shapes.len() {
            Some(copy_of(g.calls[self.id].output_shapes[index].as_slice()))
        } else {
            None
        }
    }
}

/// The outputs of a function that somebody still holds.
pub open spec fn live_outputs<T, O>(g: Graph<T, O>, f: Function) -> Seq<Option<Variable>> {
    let outputs = g.call(f).outputs@;
    Seq::new(
        outputs.len(),
        |i: int|
            if g.node(outputs[i]).alive {
                Some(outputs[i])
            } else {
                None
            },
    )
}

} // verus!
