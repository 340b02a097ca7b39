//! The computation graph: variables, the functions that produced them, and the
//! recording of one as the other is computed.
//!
//! A graph owns its variables and functions, and [`Variable`] and [`Function`] are
//! handles into it. Handles are given out in order, and a function is recorded after
//! everything it reads, so a recorded graph never holds a cycle.
use crate::engine::config::Config;
use crate::engine::rule::shapes;
use crate::index::volume;
use crate::scalar::Scalar;
use crate::tensor::{copy_of, full_spec, scalar_spec, Array, Tensor};
use crate::text::{indented, indented_text};
use std::rc::Rc;
use vstd::prelude::*;
use vstd::string::*;

verus! {

/// A handle to a variable of a graph.
#[derive(Debug, Clone, Copy, PartialEq, Eq, Hash, Structural)]
pub struct Variable {
    pub id: usize,
}

/// A handle to a recorded function of a graph.
#[derive(Debug, Clone, Copy, PartialEq, Eq, Hash, Structural)]
pub struct Function {
    pub id: usize,
}

/// What a graph holds of a variable.
pub struct Node<T> {
    pub data: Option<Tensor<T>>,
    pub grad: Option<Variable>,
    pub creator: Option<Function>,
    pub generation: u32,
    pub name: Option<String>,
    /// Whether anybody still holds the variable. A function does not keep its outputs
    /// alive.
    pub alive: bool,
}

/// What a graph holds of a function: the operation, what it read and what it wrote.
pub struct Call<O> {
    pub op: Rc<O>,
    pub inputs: Vec<Variable>,
    pub outputs: Vec<Variable>,
    pub output_shapes: Vec<Vec<usize>>,
    pub generation: u32,
}

/// A computation graph over elements `T` and operations `O`.
pub struct Graph<T, O> {
    pub nodes: Vec<Node<T>>,
    pub calls: Vec<Call<O>>,
    pub config: Config,
}

/// The generation of what a function of generation `g` produces.
pub open spec fn next_generation(g: u32) -> u32 {
    if g == u32::MAX {
        u32::MAX
    } else {
        (g + 1) as u32
    }
}

/// The shapes of a list of lists of axis lengths.
pub open spec fn lists(s: Seq<Vec<usize>>) -> Seq<Seq<usize>> {
    Seq::new(s.len(), |i: int| s[i]@)
}

/// The arrays that a list of tensors holds.
pub open spec fn views<T>(xs: Seq<Tensor<T>>) -> Seq<Array<T>> {
    Seq::new(xs.len(), |i: int| xs[i]@)
}

impl<T, O> Graph<T, O> {
    pub open spec fn has(&self, v: Variable) -> bool {
        v.id < self.nodes@.len()
    }

    pub open spec fn knows(&self, f: Function) -> bool {
        f.id < self.calls@.len()
    }

    pub open spec fn node(&self, v: Variable) -> Node<T> {
        self.nodes@[v.id as int]
    }

    pub open spec fn call(&self, f: Function) -> Call<O> {
        self.calls@[f.id as int]
    }

    /// The array that a variable holds.
    pub open spec fn array(&self, v: Variable) -> Option<Array<T>> {
        match self.node(v).data {
            Some(t) => Some(t@),
            None => None,
        }
    }

    /// Whether every listed variable exists and holds data.
    pub open spec fn all_hold(&self, vs: Seq<Variable>) -> bool {
        forall|i: int|
            0 <= i < vs.len() ==> self.has(#[trigger] vs[i]) && self.node(vs[i]).data.is_some()
    }

    /// The arrays that the listed variables hold.
    pub open spec fn arrays(&self, vs: Seq<Variable>) -> Seq<Array<T>> {
        Seq::new(vs.len(), |i: int| self.array(vs[i])->0)
    }

    pub open spec fn node_ok(&self, i: int) -> bool {
        let node = self.nodes@[i];
        &&& node.data matches Some(t) ==> t.wf()
        &&& node.grad matches Some(g) ==> self.has(g)
        &&& node.creator matches Some(f) ==> {
            &&& self.knows(f)
            &&& self.call(f).outputs@.contains(Variable { id: i as usize })
            &&& node.generation == next_generation(self.call(f).generation)
        }
    }

    pub open spec fn call_ok(&self, i: int) -> bool {
        let call = self.calls@[i];
        &&& forall|k: int|
            0 <= k < call.inputs@.len() ==> {
                let x = #[trigger] call.inputs@[k];
                &&& self.has(x)
                &&& self.node(x).generation <= call.generation
                &&& self.node(x).creator matches Some(f) ==> f.id < i
            }
        &&& forall|k: int| 0 <= k < call.outputs@.len() ==> self.has(#[trigger] call.outputs@[k])
        &&& call.outputs@.len() == call.output_shapes@.len()
        &&& forall|k: int|
            0 <= k < call.output_shapes@.len() ==> volume((#[trigger] call.output_shapes@[k])@)
                <= usize::MAX
    }

    /// Every handle points into the graph, every array is whole, and generations grow
    /// from what a function reads to what it writes.
    pub open spec fn wf(&self) -> bool {
        &&& forall|i: int| 0 <= i < self.nodes@.len() ==> #[trigger] self.node_ok(i)
        &&& forall|i: int| 0 <= i < self.calls@.len() ==> #[trigger] self.call_ok(i)
    }

    /// Whether the graph holds everything that `before` held, unchanged, and no more
    /// functions unless they are being recorded.
    pub open spec fn extends(&self, before: Graph<T, O>) -> bool {
        &&& before.nodes@.len() <= self.nodes@.len()
        &&& before.calls@.len() <= self.calls@.len()
        &&& forall|i: int|
            0 <= i < before.nodes@.len() ==> #[trigger] self.nodes@[i] == before.nodes@[i]
        &&& forall|i: int|
            0 <= i < before.calls@.len() ==> #[trigger] self.calls@[i] == before.calls@[i]
        &&& self.config == before.config
        &&& !before.config.enable_backprop ==> self.calls@.len() == before.calls@.len()
    }

    pub fn new() -> (r: Graph<T, O>)
        ensures
            r.wf(),
            r.nodes@.len() == 0,
            r.calls@.len() == 0,
            r.config == (Config { enable_backprop: true, train: true }),
    {
        Graph { nodes: Vec::new(), calls: Vec::new(), config: Config::new() }
    }
}

/// A variable that has just been made.
pub open spec fn fresh_node<T>(node: Node<T>) -> bool {
    &&& node.grad.is_none()
    &&& node.creator.is_none()
    &&& node.generation == 0
    &&& node.name.is_none()
    &&& node.alive
}

/// Whether `after` is `before` with one more variable.
pub open spec fn one_more<T, O>(before: Graph<T, O>, after: Graph<T, O>, v: Variable) -> bool {
    &&& after.extends(before)
    &&& after.calls@.len() == before.calls@.len()
    &&& after.nodes@.len() == before.nodes@.len() + 1
    &&& v.id == before.nodes@.len()
    &&& fresh_node(after.node(v))
}

/// Changing data, gradients and names, adding variables without history and cutting
/// histories short keeps the graph well formed.
pub proof fn lemma_history_kept<T, O>(before: Graph<T, O>, after: Graph<T, O>)
    requires
        before.wf(),
        after.calls == before.calls,
        before.nodes@.len() <= after.nodes@.len(),
        forall|i: int|
            0 <= i < before.nodes@.len() ==> {
                &&& (#[trigger] after.nodes@[i]).generation == before.nodes@[i].generation
                &&& after.nodes@[i].creator.is_none() || after.nodes@[i].creator
                    == before.nodes@[i].creator
            },
        forall|i: int|
            before.nodes@.len() <= i < after.nodes@.len() ==> (
            #[trigger] after.nodes@[i]).creator.is_none(),
        forall|i: int|
            0 <= i < after.nodes@.len() ==> {
                &&& (#[trigger] after.nodes@[i]).data matches Some(t) ==> t.wf()
                &&& after.nodes@[i].grad matches Some(g) ==> after.has(g)
            },
    ensures
        after.wf(),
{
    assert forall|i: int| 0 <= i < after.nodes@.len() implies #[trigger] after.node_ok(i) by {
        let node = after.nodes@[i];
        if i < before.nodes@.len() {
            assert(before.node_ok(i));
        }
    }
    assert forall|i: int| 0 <= i < after.calls@.len() implies #[trigger] after.call_ok(i) by {
        assert(before.call_ok(i));
        let call = after.calls@[i];
        assert forall|k: int| 0 <= k < call.inputs@.len() implies {
            let x = #[trigger] call.inputs@[k];
            &&& after.has(x)
            &&& after.node(x).generation <= call.generation
            &&& after.node(x).creator matches Some(f) ==> f.id < i
        } by {
            let x = call.inputs@[k];
            assert(before.has(x));
            let node = after.nodes@[x.id as int];
        }
    }
}

/// What holds of every variable of a well-formed graph.
pub proof fn lemma_nodes_ok<T, O>(g: Graph<T, O>)
    requires
        g.wf(),
    ensures
        forall|i: int|
            0 <= i < g.nodes@.len() ==> {
                &&& (#[trigger] g.nodes@[i]).data matches Some(t) ==> t.wf()
                &&& g.nodes@[i].grad matches Some(v) ==> g.has(v)
            },
{
    assert forall|i: int| 0 <= i < g.nodes@.len() implies {
        &&& (#[trigger] g.nodes@[i]).data matches Some(t) ==> t.wf()
        &&& g.nodes@[i].grad matches Some(v) ==> g.has(v)
    } by {
        assert(g.node_ok(i));
    }
}

/// Whether `after` differs from `before` in what it holds of `v` alone.
pub open spec fn only_node<T, O>(
    before: Graph<T, O>,
    after: Graph<T, O>,
    v: Variable,
    node: Node<T>,
) -> bool {
    &&& after.nodes@ == before.nodes@.update(v.id as int, node)
    &&& after.calls == before.calls
    &&& after.config == before.config
}

impl Variable {
    fn from_option<T, O>(g: &mut Graph<T, O>, data: Option<Tensor<T>>) -> (v: Variable)
        requires
            old(g).wf(),
            data matches Some(t) ==> t.wf(),
        ensures
            final(g).wf(),
            one_more(*old(g), *final(g), v),
            final(g).node(v).data == data,
    {
        let id: usize = g.nodes.len();
        g.nodes.push(
            Node { data, grad: None, creator: None, generation: 0, name: None, alive: true },
        );
        proof {
            lemma_nodes_ok(*old(g));
            lemma_history_kept(*old(g), *g);
        }
        Variable { id }
    }

    /// A variable that holds `data`.
    pub fn new<T, O>(g: &mut Graph<T, O>, data: Tensor<T>) -> (v: Variable)
        requires
            old(g).wf(),
            data.wf(),
        ensures
            final(g).wf(),
            one_more(*old(g), *final(g), v),
            final(g).array(v) == Some(data@),
    {
        Variable::from_option(g, Some(data))
    }

    /// A variable that holds no data yet.
    pub fn empty<T, O>(g: &mut Graph<T, O>) -> (v: Variable)
        requires
            old(g).wf(),
        ensures
            final(g).wf(),
            one_more(*old(g), *final(g), v),
            final(g).array(v).is_none(),
    {
        Variable::from_option(g, None)
    }

    /// A variable without axes that holds `value`.
    pub fn from_scalar<T: Scalar, O>(g: &mut Graph<T, O>, value: T) -> (v: Variable)
        requires
            old(g).wf(),
        ensures
            final(g).wf(),
            one_more(*old(g), *final(g), v),
            final(g).array(v) == Some(scalar_spec(value)),
    {
        Variable::new(g, Tensor::scalar(value))
    }

    /// A new variable of the same shape with `value` everywhere, or `None` where this
    /// one holds no data.
    pub fn full_like<T: Scalar, O>(&self, g: &mut Graph<T, O>, value: T) -> (r: Option<Variable>)
        requires
            old(g).wf(),
            old(g).has(*self),
        ensures
            final(g).wf(),
            r.is_some() <==> old(g).array(*self).is_some(),
            r.is_none() ==> *final(g) == *old(g),
            r matches Some(v) ==> one_more(*old(g), *final(g), v) && final(g).array(v) == Some(
                full_spec(old(g).array(*self)->0.shape, value),
            ),
    {
        proof {
            lemma_nodes_ok(*g);
        }
        let shape: Vec<usize> = match &g.nodes[self.id].data {
            Some(t) => copy_of(t.shape.as_slice()),
            None => {
                return None;
            },
        };
        Some(Variable::new(g, Tensor::full(shape.as_slice(), value)))
    }

    /// The variable as text, given its data as text: later lines line up under the first.
    pub fn to_string<T, O>(&self, g: &Graph<T, O>, body: &str) -> (r: String)
        requires
            g.has(*self),
        ensures
            r@ == if g.node(*self).data.is_some() {
                "variable("@ + indented_text(body@, "         "@) + ")"@
            } else {
                "variable(None)"@
            },
    {
        if g.nodes[self.id].data.is_some() {
            let mut s: String = "variable(".to_owned();
            s.append(indented(body, "         ").as_str());
            s.append(")");
            s
        } else {
            "variable(None)".to_owned()
        }
    }

    /// A number that tells this variable apart from every other one of its graph.
    pub fn id(&self) -> (r: usize)
        ensures
            r == self.id,
    {
        self.id
    }

    pub fn data<'a, T, O>(&self, g: &'a Graph<T, O>) -> (r: Option<&'a Tensor<T>>)
        requires
            g.has(*self),
        ensures
            r.is_some() <==> g.node(*self).data.is_some(),
            r matches Some(t) ==> g.node(*self).data == Some(*t),
    {
        g.nodes[self.id].data.as_ref()
    }

    pub fn set_data<T, O>(&self, g: &mut Graph<T, O>, data: Tensor<T>)
        requires
            old(g).wf(),
            old(g).has(*self),
            data.wf(),
        ensures
            final(g).wf(),
            only_node(
                *old(g),
                *final(g),
                *self,
                (Node { data: Some(data), ..old(g).node(*self) }),
            ),
    {
        g.nodes[self.id].data = Some(data);
        proof {
            assert(g.nodes@ =~= old(g).nodes@.update(
                self.id as int,
                (Node { data: Some(data), ..old(g).node(*self) }),
            ));
            lemma_nodes_ok(*old(g));
            lemma_history_kept(*old(g), *g);
        }
    }

    pub fn grad<T, O>(&self, g: &Graph<T, O>) -> (r: Option<Variable>)
        requires
            g.has(*self),
        ensures
            r == g.node(*self).grad,
    {
        g.nodes[self.id].grad
    }

    pub fn set_grad<T, O>(&self, g: &mut Graph<T, O>, grad: Option<Variable>)
        requires
            old(g).wf(),
            old(g).has(*self),
            grad matches Some(v) ==> old(g).has(v),
        ensures
            final(g).wf(),
            only_node(*old(g), *final(g), *self, (Node { grad, ..old(g).node(*self) })),
    {
        g.nodes[self.id].grad = grad;
        proof {
            assert(g.nodes@ =~= old(g).nodes@.update(
                self.id as int,
                (Node { grad, ..old(g).node(*self) }),
            ));
            lemma_nodes_ok(*old(g));
            lemma_history_kept(*old(g), *g);
        }
    }

    pub fn cleargrad<T, O>(&self, g: &mut Graph<T, O>)
        requires
            old(g).wf(),
            old(g).has(*self),
        ensures
            final(g).wf(),
            only_node(*old(g), *final(g), *self, (Node { grad: None, ..old(g).node(*self) })),
    {
        self.set_grad(g, None);
    }

    /// The function that produced this variable, unless it was cut off.
    pub fn creator<T, O>(&self, g: &Graph<T, O>) -> (r: Option<Function>)
        requires
            g.has(*self),
        ensures
            r == g.node(*self).creator,
    {
        g.nodes[self.id].creator
    }

    /// Makes `func` the creator of one of its outputs, one generation later. The functions
    /// that read the variable already came after `func`, and are no older.
    pub fn set_creator<T, O>(&self, g: &mut Graph<T, O>, func: Function)
        requires
            old(g).wf(),
            old(g).has(*self),
            old(g).knows(func),
            old(g).call(func).outputs@.contains(*self),
            forall|i: int|
                0 <= i < old(g).calls@.len() && (
                #[trigger] old(g).calls@[i]).inputs@.contains(*self) ==> func.id < i
                    && next_generation(old(g).call(func).generation) <= old(
                    g,
                ).calls@[i].generation,
        ensures
            final(g).wf(),
            only_node(
                *old(g),
                *final(g),
                *self,
                (Node {
                    creator: Some(func),
                    generation: next_generation(old(g).call(func).generation),
                    ..old(g).node(*self)
                }),
            ),
    {
        let generation: u32 = g.calls[func.id].generation;
        let next: u32 = if generation == u32::MAX {
            u32::MAX
        } else {
            generation + 1
        };
        g.nodes[self.id].generation = next;
        g.nodes[self.id].creator = Some(func);
        proof {
            assert(g.nodes@ =~= old(g).nodes@.update(
                self.id as int,
                (Node {
                    creator: Some(func),
                    generation: next_generation(old(g).call(func).generation),
                    ..old(g).node(*self)
                }),
            ));
            assert forall|i: int| 0 <= i < g.nodes@.len() implies #[trigger] g.node_ok(i) by {
                assert(old(g).node_ok(i));
            }
            assert forall|i: int| 0 <= i < g.calls@.len() implies #[trigger] g.call_ok(i) by {
                assert(old(g).call_ok(i));
                let call = g.calls@[i];
                assert forall|k: int| 0 <= k < call.inputs@.len() implies {
                    let x = #[trigger] call.inputs@[k];
                    &&& g.has(x)
                    &&& g.node(x).generation <= call.generation
                    &&& g.node(x).creator matches Some(f) ==> f.id < i
                } by {
                    let x = call.inputs@[k];
                    assert(old(g).has(x));
                    assert(old(g).calls@[i].inputs@.contains(x));
                }
            }
        }
    }

    pub fn generation<T, O>(&self, g: &Graph<T, O>) -> (r: u32)
        requires
            g.has(*self),
        ensures
            r == g.node(*self).generation,
    {
        g.nodes[self.id].generation
    }

    /// Forgets which function produced this variable.
    pub fn unchain<T, O>(&self, g: &mut Graph<T, O>)
        requires
            old(g).wf(),
            old(g).has(*self),
        ensures
            final(g).wf(),
            only_node(*old(g), *final(g), *self, (Node { creator: None, ..old(g).node(*self) })),
    {
        g.nodes[self.id].creator = None;
        proof {
            assert(g.nodes@ =~= old(g).nodes@.update(
                self.id as int,
                (Node { creator: None, ..old(g).node(*self) }),
            ));
            lemma_nodes_ok(*old(g));
            lemma_history_kept(*old(g), *g);
        }
    }

    pub fn name<'a, T, O>(&self, g: &'a Graph<T, O>) -> (r: Option<&'a String>)
        requires
            g.has(*self),
        ensures
            r.is_some() <==> g.node(*self).name.is_some(),
            r matches Some(n) ==> g.node(*self).name == Some(*n),
    {
        g.nodes[self.id].name.as_ref()
    }

    pub fn set_name<T, O>(&self, g: &mut Graph<T, O>, name: Option<String>)
        requires
            old(g).wf(),
            old(g).has(*self),
        ensures
            final(g).wf(),
            only_node(*old(g), *final(g), *self, (Node { name, ..old(g).node(*self) })),
    {
        g.nodes[self.id].name = name;
        proof {
            assert(g.nodes@ =~= old(g).nodes@.update(
                self.id as int,
                (Node { name, ..old(g).node(*self) }),
            ));
            lemma_nodes_ok(*old(g));
            lemma_history_kept(*old(g), *g);
        }
    }

    /// Gives the variable up: the function that produced it no longer sees it among
    /// its outputs.
    pub fn release<T, O>(&self, g: &mut Graph<T, O>)
        requires
            old(g).wf(),
            old(g).has(*self),
        ensures
            final(g).wf(),
            only_node(*old(g), *final(g), *self, (Node { alive: false, ..old(g).node(*self) })),
    {
        g.nodes[self.id].alive = false;
        proof {
            assert(g.nodes@ =~= old(g).nodes@.update(
                self.id as int,
                (Node { alive: false, ..old(g).node(*self) }),
            ));
            lemma_nodes_ok(*old(g));
            lemma_history_kept(*old(g), *g);
        }
    }

    /// The shape of the data.
    pub fn shape<T, O>(&self, g: &Graph<T, O>) -> (r: Option<Vec<usize>>)
        requires
            g.has(*self),
        ensures
            r.is_some() <==> g.array(*self).is_some(),
            r matches Some(s) ==> s@ == g.array(*self)->0.shape,
    {
        match &g.nodes[self.id].data {
            Some(t) => Some(copy_of(t.shape.as_slice())),
            None => None,
        }
    }

    /// The number of axes of the data.
    pub fn ndim<T, O>(&self, g: &Graph<T, O>) -> (r: Option<usize>)
        requires
            g.has(*self),
        ensures
            r.is_some() <==> g.array(*self).is_some(),
            r matches Some(n) ==> n == g.array(*self)->0.shape.len(),
    {
        match &g.nodes[self.id].data {
            Some(t) => Some(t.shape.len()),
            None => None,
        }
    }

    /// The number of elements of the data.
    pub fn size<T, O>(&self, g: &Graph<T, O>) -> (r: Option<usize>)
        requires
            g.has(*self),
        ensures
            r.is_some() <==> g.array(*self).is_some(),
            r matches Some(n) ==> n == g.array(*self)->0.data.len(),
    {
        match &g.nodes[self.id].data {
            Some(t) => Some(t.data.len()),
            None => None,
        }
    }

    /// The length of the leading axis, where there is one.
    pub fn len<T, O>(&self, g: &Graph<T, O>) -> (r: Option<usize>)
        requires
            g.has(*self),
        ensures
            r.is_some() <==> g.array(*self).is_some() && g.array(*self)->0.shape.len() > 0,
            r matches Some(n) ==> n == g.array(*self)->0.shape[0],
    {
        match &g.nodes[self.id].data {
            Some(t) => {
                if t.shape.len() > 0 {
                    Some(t.shape[0])
                } else {
                    None
                }
            },
            None => None,
        }
    }
}

} // verus!
