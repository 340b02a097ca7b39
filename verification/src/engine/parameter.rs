//! Variables that a layer owns and an optimizer may update.

use vstd::prelude::*;
use vstd::std_specs::convert::FromSpecImpl;
use vstd::string::*;

use crate::engine::graph::{Graph, Variable};
use crate::tensor::{Array, Tensor};

verus! {

/// A variable that is trained. A copy is the same parameter: a layer and an
/// optimizer can each hold one and see each other's writes.
#[derive(Debug, Clone, Copy, PartialEq, Eq, Hash, Structural)]
pub struct Parameter {
    pub variable: Variable,
}

/// The name of a variable.
pub open spec fn name_of<T, O>(g: Graph<T, O>, v: Variable) -> Option<Seq<char>> {
    match g.node(v).name {
        Some(name) => Some(name@),
        None => None,
    }
}

/// Whether `after` is `before` with one more variable, which is a parameter that
/// nothing has been computed with.
pub open spec fn one_more_parameter<T, O>(
    before: Graph<T, O>,
    after: Graph<T, O>,
    p: Parameter,
    data: Option<Array<T>>,
    name: Option<Seq<char>>,
) -> bool {
    let node = after.node(p.variable);
    &&& after.wf()
    &&& after.extends(before)
    &&& after.calls@.len() == before.calls@.len()
    &&& after.nodes@.len() == before.nodes@.len() + 1
    &&& p.variable.id == before.nodes@.len()
    &&& after.array(p.variable) == data
    &&& name_of(after, p.variable) == name
    &&& node.grad is None
    &&& node.creator is None
    &&& node.generation == 0
    &&& node.alive
}

impl Parameter {
    /// A parameter that holds `data`.
    #[must_use]
    pub fn new<T, O>(g: &mut Graph<T, O>, data: Tensor<T>) -> (p: Parameter)
        requires
            old(g).wf(),
            data.wf(),
        ensures
            one_more_parameter(*old(g), *final(g), p, Some(data@), None),
    {
        Parameter { variable: Variable::new(g, data) }
    }

    /// A parameter that holds nothing yet. It is the same parameter once it does, so
    /// an optimizer may take it up before.
    #[must_use]
    pub fn empty<T, O>(g: &mut Graph<T, O>) -> (p: Parameter)
        requires
            old(g).wf(),
        ensures
            one_more_parameter(*old(g), *final(g), p, None, None),
    {
        Parameter { variable: Variable::empty(g) }
    }

    /// A parameter with a name, by which its weights are saved and loaded.
    #[must_use]
    pub fn named<T, O>(g: &mut Graph<T, O>, data: Option<Tensor<T>>, name: &str) -> (p: Parameter)
        requires
            old(g).wf(),
            data matches Some(t) ==> t.wf(),
        ensures
            one_more_parameter(
                *old(g),
                *final(g),
                p,
                match data {
                    Some(t) => Some(t@),
                    None => None,
                },
                Some(name@),
            ),
    {
        let p = match data {
            Some(t) => Parameter::new(g, t),
            None => Parameter::empty(g),
        };
        p.variable.set_name(g, Some(name.to_owned()));
        p
    }

    /// An existing variable as a parameter; both are the same variable.
    #[must_use]
    pub fn wrap(variable: Variable) -> (p: Parameter)
        ensures
            p.variable == variable,
    {
        Parameter { variable }
    }

    /// The variable that the parameter is.
    #[must_use]
    pub fn as_variable(&self) -> (v: &Variable)
        ensures
            *v == self.variable,
    {
        &self.variable
    }

    /// The variable that the parameter is.
    #[must_use]
    pub fn into_variable(self) -> (v: Variable)
        ensures
            v == self.variable,
    {
        self.variable
    }
}

impl From<Variable> for Parameter {
    fn from(variable: Variable) -> (p: Parameter) {
        Parameter { variable }
    }
}

impl FromSpecImpl<Variable> for Parameter {
    open spec fn obeys_from_spec() -> bool {
        true
    }

    open spec fn from_spec(variable: Variable) -> Parameter {
        Parameter { variable }
    }
}

impl From<Parameter> for Variable {
    fn from(parameter: Parameter) -> (v: Variable) {
        parameter.variable
    }
}

impl FromSpecImpl<Parameter> for Variable {
    open spec fn obeys_from_spec() -> bool {
        true
    }

    open spec fn from_spec(parameter: Parameter) -> Variable {
        parameter.variable
    }
}

} // verus!
