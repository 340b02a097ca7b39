//! A graph written out in the DOT language.

use vstd::prelude::*;
use vstd::set_lib::*;
use vstd::string::*;

use crate::engine::function::{live_outputs, Op};
use crate::engine::graph::{Function, Graph, Variable};
use crate::engine::parameter::name_of;
use crate::engine::schedule::{
    feeds, lemma_closed, lemma_distinct_bound, lemma_reach_further, path, reachable,
};
use crate::scalar::Scalar;
use crate::text::{decimal, decimal_text, joined, joined_text};

verus! {

/// The label of a variable: its name, and its shape where that is asked for.
pub open spec fn label_text<T, O>(g: Graph<T, O>, v: Variable, verbose: bool) -> Seq<char> {
    let name = match name_of(g, v) {
        Some(name) => name,
        None => ""@,
    };
    match g.array(v) {
        Some(a) => if verbose {
            if name.len() > 0 {
                name + ": "@ + "("@ + joined_text(a.shape) + ")"@
            } else {
                name + "("@ + joined_text(a.shape) + ")"@
            }
        } else {
            name
        },
        None => name,
    }
}

/// The line of a variable.
pub open spec fn var_text<T, O>(g: Graph<T, O>, v: Variable, verbose: bool) -> Seq<char> {
    decimal_text(v.id as int) + " [label=\""@ + label_text(g, v, verbose)
        + "\", color=orange, style=filled]\n"@
}

/// The number of a function in the picture, where functions are counted on behind the
/// variables.
pub open spec fn function_number<T, O>(g: Graph<T, O>, f: Function) -> int {
    g.nodes@.len() + f.id
}

/// The lines of the edges into a function from its first `k` inputs.
pub open spec fn in_edges_text<T, O>(g: Graph<T, O>, f: Function, k: int) -> Seq<char>
    decreases k,
{
    if k <= 0 {
        ""@
    } else {
        in_edges_text(g, f, k - 1) + decimal_text(g.call(f).inputs@[k - 1].id as int) + " -> "@
            + decimal_text(function_number(g, f)) + "\n"@
    }
}

/// The lines of the edges out of a function to those of its first `k` outputs that
/// somebody still holds.
pub open spec fn out_edges_text<T, O>(g: Graph<T, O>, f: Function, k: int) -> Seq<char>
    decreases k,
{
    if k <= 0 {
        ""@
    } else {
        match live_outputs(g, f)[k - 1] {
            Some(y) => out_edges_text(g, f, k - 1) + decimal_text(function_number(g, f)) + " -> "@
                + decimal_text(y.id as int) + "\n"@,
            None => out_edges_text(g, f, k - 1),
        }
    }
}

/// The lines of a function and of its edges.
pub open spec fn func_text<T: Scalar, O: Op<T>>(g: Graph<T, O>, f: Function) -> Seq<char> {
    decimal_text(function_number(g, f)) + " [label=\""@ + O::title((*g.call(f).op).rule())
        + "\", color=lightblue, style=filled, shape=box]\n"@ + in_edges_text(
        g,
        f,
        g.call(f).inputs@.len() as int,
    ) + out_edges_text(g, f, live_outputs(g, f).len() as int)
}

/// The lines of the first `k` inputs of a function.
pub open spec fn inputs_text<T, O>(g: Graph<T, O>, f: Function, verbose: bool, k: int) -> Seq<char>
    decreases k,
{
    if k <= 0 {
        ""@
    } else {
        inputs_text(g, f, verbose, k - 1) + var_text(g, g.call(f).inputs@[k - 1], verbose)
    }
}

/// The lines of the first `k` functions of a list, each with its inputs.
pub open spec fn functions_text<T: Scalar, O: Op<T>>(
    g: Graph<T, O>,
    verbose: bool,
    order: Seq<Function>,
    k: int,
) -> Seq<char>
    decreases k,
{
    if k <= 0 {
        ""@
    } else {
        let f = order[k - 1];
        functions_text(g, verbose, order, k - 1) + func_text(g, f) + inputs_text(
            g,
            f,
            verbose,
            g.call(f).inputs@.len() as int,
        )
    }
}

/// What is stacked up and what has been seen once the producers of the first `k`
/// inputs of a function have been noted.
pub open spec fn noted<T, O>(
    g: Graph<T, O>,
    f: Function,
    k: int,
    stack: Seq<Function>,
    seen: Set<Function>,
) -> (Seq<Function>, Set<Function>)
    decreases k,
{
    if k <= 0 {
        (stack, seen)
    } else {
        let (s, n) = noted(g, f, k - 1, stack, seen);
        match g.node(g.call(f).inputs@[k - 1]).creator {
            Some(c) => if n.contains(c) {
                (s, n)
            } else {
                (s.push(c), n.insert(c))
            },
            None => (s, n),
        }
    }
}

/// The functions that a walk visits from a stack on, in at most so many visits.
pub open spec fn visits<T, O>(
    g: Graph<T, O>,
    stack: Seq<Function>,
    seen: Set<Function>,
    limit: nat,
) -> Seq<Function>
    decreases limit,
{
    if limit == 0 || stack.len() == 0 {
        Seq::empty()
    } else {
        let f = stack.last();
        let (s, n) = noted(g, f, g.call(f).inputs@.len() as int, stack.drop_last(), seen);
        seq![f] + visits(g, s, n, (limit - 1) as nat)
    }
}

/// The functions behind a variable, in the order in which they are drawn.
pub open spec fn dot_order<T, O>(g: Graph<T, O>, root: Variable) -> Seq<Function> {
    match g.node(root).creator {
        Some(c) => visits(g, seq![c], set![c], g.calls@.len()),
        None => Seq::empty(),
    }
}

/// The picture of what a variable was computed from.
pub open spec fn dot_text<T: Scalar, O: Op<T>>(
    g: Graph<T, O>,
    output: Variable,
    verbose: bool,
) -> Seq<char> {
    let order = dot_order(g, output);
    "digraph g {\n"@ + (var_text(g, output, verbose) + functions_text(
        g,
        verbose,
        order,
        order.len() as int,
    )) + "}"@
}

/// The line of a variable.
pub fn dot_var<T, O>(g: &Graph<T, O>, v: &Variable, verbose: bool) -> (r: String)
    requires
        g.has(*v),
    ensures
        r@ == var_text(*g, *v, verbose),
{
    let mut label: String = match v.name(g) {
        Some(name) => name.as_str().to_owned(),
        None => "".to_owned(),
    };
    if verbose {
        if let Some(shape) = v.shape(g) {
            if label.as_str().unicode_len() > 0 {
                label.append(": ");
            }
            label.append("(");
            label.append(joined(shape.as_slice()).as_str());
            label.append(")");
        }
    }
    let mut s: String = decimal(v.id);
    s.append(" [label=\"");
    s.append(label.as_str());
    s.append("\", color=orange, style=filled]\n");
    s
}

/// The lines of a function and of its edges.
pub fn dot_func<T: Scalar, O: Op<T>>(g: &Graph<T, O>, f: &Function) -> (r: String)
    requires
        g.wf(),
        g.knows(*f),
        g.nodes@.len() + g.calls@.len() <= usize::MAX,
    ensures
        r@ == func_text(*g, *f),
{
    let number: usize = g.nodes.len() + f.id;
    let mut s: String = decimal(number);
    s.append(" [label=\"");
    s.append(f.op_name(g).as_str());
    s.append("\", color=lightblue, style=filled, shape=box]\n");
    let ghost head = s@;
    let inputs = f.inputs(g);
    let n: usize = inputs.len();
    let mut i: usize = 0;
    proof {
        reveal_strlit("");
        assert(s@ =~= head + in_edges_text(*g, *f, 0));
    }
    while i < n
        invariant
            i <= n,
            n == inputs@.len(),
            inputs@ == g.call(*f).inputs@,
            number == function_number(*g, *f),
            s@ == head + in_edges_text(*g, *f, i as int),
        decreases n - i,
    {
        s.append(decimal(inputs[i].id).as_str());
        s.append(" -> ");
        s.append(decimal(number).as_str());
        s.append("\n");
        assert(s@ =~= head + in_edges_text(*g, *f, i + 1));
        i = i + 1;
    }
    let ghost middle = s@;
    let outputs = f.outputs(g);
    let m: usize = outputs.len();
    let mut k: usize = 0;
    proof {
        reveal_strlit("");
        assert(s@ =~= middle + out_edges_text(*g, *f, 0));
    }
    while k < m
        invariant
            k <= m,
            m == outputs@.len(),
            outputs@ == live_outputs(*g, *f),
            number == function_number(*g, *f),
            s@ == middle + out_edges_text(*g, *f, k as int),
        decreases m - k,
    {
        match outputs[k] {
            Some(y) => {
                s.append(decimal(number).as_str());
                s.append(" -> ");
                s.append(decimal(y.id).as_str());
                s.append("\n");
                assert(s@ =~= middle + out_edges_text(*g, *f, k + 1));
            },
            None => {},
        }
        k = k + 1;
    }
    s
}

proof fn lemma_seen_bound(seen: Set<Function>, n: nat)
    requires
        seen.finite(),
        forall|f: Function| #[trigger] seen.contains(f) ==> f.id < n,
    ensures
        seen.len() <= n,
{
    let number = |f: Function| f.id as int;
    let ids = seen.map(number);
    assert(vstd::relations::injective_on(number, seen));
    lemma_map_size(seen, ids, number);
    lemma_int_range(0, n as int);
    assert(ids.subset_of(set_int_range(0, n as int)));
    lemma_len_subset(ids, set_int_range(0, n as int));
}

/// The functions behind a variable, in the order in which they are drawn.
fn walk<T, O>(g: &Graph<T, O>, root: &Variable) -> (order: Vec<Function>)
    requires
        g.wf(),
        g.has(*root),
    ensures
        order@ == dot_order(*g, *root),
        forall|i: int| 0 <= i < order@.len() ==> g.knows(#[trigger] order@[i]),
{
    let n: usize = g.calls.len();
    let mut flags: Vec<bool> = Vec::new();
    let mut z: usize = 0;
    while z < n
        invariant
            z <= n,
            flags@.len() == z,
            forall|i: int| 0 <= i < z ==> !(#[trigger] flags@[i]),
        decreases n - z,
    {
        flags.push(false);
        z = z + 1;
    }
    let mut order: Vec<Function> = Vec::new();
    let mut stack: Vec<Function> = Vec::new();
    let ghost mut seen: Set<Function> = Set::empty();
    assert(g.node_ok(root.id as int));
    match g.nodes[root.id].creator {
        Some(c) => {
            flags.set(c.id, true);
            stack.push(c);
            proof {
                seen = set![c];
                assert(stack@ =~= seq![c]);
            }
        },
        None => {
            return order;
        },
    }
    assert(order@ + visits(*g, stack@, seen, n as nat) =~= dot_order(*g, *root));
    while stack.len() > 0
        invariant
            n == g.calls@.len(),
            g.wf(),
            seen.finite(),
            flags@.len() == n,
            forall|f: Function| #[trigger] seen.contains(f) <==> f.id < n && flags@[f.id as int],
            seen.len() == order@.len() + stack@.len(),
            forall|i: int| 0 <= i < stack@.len() ==> g.knows(#[trigger] stack@[i]),
            forall|i: int| 0 <= i < order@.len() ==> g.knows(#[trigger] order@[i]),
            order@.len() <= n,
            order@ + visits(*g, stack@, seen, (n - order@.len()) as nat) == dot_order(*g, *root),
        decreases n - order@.len(),
    {
        proof {
            lemma_seen_bound(seen, n as nat);
        }
        let ghost waiting = stack@;
        let ghost done = order@;
        let f: Function = stack[stack.len() - 1];
        stack.pop();
        let ghost below = stack@;
        let ghost seen0 = seen;
        order.push(f);
        proof {
            assert(f == waiting.last());
            assert(below =~= waiting.drop_last());
            assert(g.knows(waiting[waiting.len() - 1]));
            assert(g.call_ok(f.id as int));
        }
        let m: usize = g.calls[f.id].inputs.len();
        let mut k: usize = 0;
        while k < m
            invariant
                k <= m,
                n == g.calls@.len(),
                g.wf(),
                g.knows(f),
                g.call_ok(f.id as int),
                m == g.call(f).inputs@.len(),
                seen.finite(),
                flags@.len() == n,
                forall|f: Function| #[trigger] seen.contains(f) <==> f.id < n && flags@[f.id as int],
                seen.len() == order@.len() + stack@.len(),
                forall|i: int| 0 <= i < stack@.len() ==> g.knows(#[trigger] stack@[i]),
                noted(*g, f, k as int, below, seen0) == (stack@, seen),
            decreases m - k,
        {
            let x: Variable = g.calls[f.id].inputs[k];
            assert(g.has(g.call(f).inputs@[k as int]));
            assert(g.node_ok(x.id as int));
            if let Some(c) = g.nodes[x.id].creator {
                if !flags[c.id] {
                    flags.set(c.id, true);
                    stack.push(c);
                    proof {
                        seen = seen.insert(c);
                    }
                }
            }
            k = k + 1;
        }
        proof {
            assert(done + visits(*g, waiting, seen0, (n - done.len()) as nat) =~= order@ + visits(
                *g,
                stack@,
                seen,
                (n - order@.len()) as nat,
            ));
        }
    }
    assert(order@ + visits(*g, stack@, seen, (n - order@.len()) as nat) =~= order@);
    order
}

/// Draws what a variable was computed from.
#[must_use]
pub fn get_dot_graph<T: Scalar, O: Op<T>>(
    g: &Graph<T, O>,
    output: &Variable,
    verbose: bool,
) -> (r: String)
    requires
        g.wf(),
        g.has(*output),
        g.nodes@.len() + g.calls@.len() <= usize::MAX,
    ensures
        r@ == dot_text(*g, *output, verbose),
{
    let order = walk(g, output);
    let n: usize = order.len();
    let mut txt: String = dot_var(g, output, verbose);
    let ghost head = txt@;
    let mut i: usize = 0;
    proof {
        reveal_strlit("");
        assert(txt@ =~= head + functions_text(*g, verbose, order@, 0));
    }
    while i < n
        invariant
            i <= n,
            n == order@.len(),
            g.wf(),
            g.nodes@.len() + g.calls@.len() <= usize::MAX,
            forall|i: int| 0 <= i < order@.len() ==> g.knows(#[trigger] order@[i]),
            txt@ == head + functions_text(*g, verbose, order@, i as int),
        decreases n - i,
    {
        let f: Function = order[i];
        assert(g.knows(order@[i as int]));
        assert(g.call_ok(f.id as int));
        txt.append(dot_func(g, &f).as_str());
        let ghost middle = txt@;
        let inputs = f.inputs(g);
        let m: usize = inputs.len();
        let mut k: usize = 0;
        proof {
            reveal_strlit("");
            assert(txt@ =~= middle + inputs_text(*g, f, verbose, 0));
        }
        while k < m
            invariant
                k <= m,
                m == inputs@.len(),
                inputs@ == g.call(f).inputs@,
                g.call_ok(f.id as int),
                txt@ == middle + inputs_text(*g, f, verbose, k as int),
            decreases m - k,
        {
            assert(g.has(g.call(f).inputs@[k as int]));
            txt.append(dot_var(g, &inputs[k], verbose).as_str());
            assert(txt@ =~= middle + inputs_text(*g, f, verbose, k + 1));
            k = k + 1;
        }
        assert(txt@ =~= head + functions_text(*g, verbose, order@, i + 1));
        i = i + 1;
    }
    let mut s: String = "digraph g {\n".to_owned();
    s.append(txt.as_str());
    s.append("}");
    s
}

/// The state of a walk: what has been visited, what is stacked up, and what was seen.
spec fn walking<T, O>(
    g: Graph<T, O>,
    root: Variable,
    done: Seq<Function>,
    stack: Seq<Function>,
    seen: Set<Function>,
) -> bool {
    &&& (done + stack).no_duplicates()
    &&& forall|f: Function| #[trigger] seen.contains(f) <==> (done + stack).contains(f)
    &&& forall|i: int|
        0 <= i < (done + stack).len() ==> g.knows(#[trigger] (done + stack)[i]) && reachable(
            g,
            root,
            (done + stack)[i],
        )
}

/// The producers of the first `k` inputs of a function have been seen.
spec fn producers_in<T, O>(g: Graph<T, O>, f: Function, k: int, seen: Set<Function>) -> bool {
    forall|i: int|
        0 <= i < k ==> (g.node(#[trigger] g.call(f).inputs@[i]).creator matches Some(c)
            ==> seen.contains(c))
}

proof fn lemma_noted<T, O>(
    g: Graph<T, O>,
    root: Variable,
    done: Seq<Function>,
    stack: Seq<Function>,
    seen: Set<Function>,
    f: Function,
    k: int,
)
    requires
        g.wf(),
        g.knows(f),
        reachable(g, root, f),
        0 <= k <= g.call(f).inputs@.len(),
        walking(g, root, done, stack, seen),
    ensures
        ({
            let (s, n) = noted(g, f, k, stack, seen);
            &&& walking(g, root, done, s, n)
            &&& seen.subset_of(n)
            &&& producers_in(g, f, k, n)
        }),
    decreases k,
{
    if k > 0 {
        lemma_noted(g, root, done, stack, seen, f, k - 1);
        let (s, n) = noted(g, f, k - 1, stack, seen);
        let x = g.call(f).inputs@[k - 1];
        assert(g.call_ok(f.id as int));
        assert(g.has(x));
        assert(g.node_ok(x.id as int));
        if let Some(c) = g.node(x).creator {
            assert(feeds(g, c, f));
            lemma_reach_further(g, root, f, c);
            if !n.contains(c) {
                let all = done + s;
                let now = done + s.push(c);
                assert(now =~= all.push(c));
                assert(!all.contains(c));
                assert forall|q: Function| #[trigger] n.insert(c).contains(q) <==> now.contains(
                    q,
                ) by {
                    if all.contains(q) {
                        let i = choose|i: int| 0 <= i < all.len() && all[i] == q;
                        assert(now[i] == q);
                    }
                    assert(now[all.len() as int] == c);
                    if now.contains(q) && q != c {
                        let i = choose|i: int| 0 <= i < now.len() && now[i] == q;
                        assert(all[i] == q);
                    }
                    assert(n.contains(q) <==> all.contains(q));
                }
                assert forall|i: int| 0 <= i < now.len() implies g.knows(#[trigger] now[i])
                    && reachable(g, root, now[i]) by {
                    if i < all.len() {
                        assert(now[i] == all[i]);
                    }
                }
                assert(now.no_duplicates()) by {
                    assert forall|i: int, j: int|
                        0 <= i < now.len() && 0 <= j < now.len() && i != j implies now[i]
                        != now[j] by {
                        if i < all.len() && j < all.len() {
                            assert(all[i] != all[j]);
                        } else if i < all.len() {
                            assert(all.contains(all[i]));
                        } else if j < all.len() {
                            assert(all.contains(all[j]));
                        }
                    }
                }
            }
        }
    }
}

proof fn lemma_visits<T, O>(
    g: Graph<T, O>,
    root: Variable,
    done: Seq<Function>,
    stack: Seq<Function>,
    seen: Set<Function>,
    limit: nat,
)
    requires
        g.wf(),
        walking(g, root, done, stack, seen),
        g.node(root).creator matches Some(c) && seen.contains(c),
        forall|i: int|
            0 <= i < done.len() ==> producers_in(
                g,
                #[trigger] done[i],
                g.call(done[i]).inputs@.len() as int,
                seen,
            ),
        limit + done.len() >= g.calls@.len(),
    ensures
        ({
            let all = done + visits(g, stack, seen, limit);
            &&& all.no_duplicates()
            &&& forall|f: Function| #[trigger] all.contains(f) <==> reachable(g, root, f)
        }),
    decreases limit,
{
    lemma_distinct_bound(done + stack, g.calls@.len());
    if stack.len() == 0 || limit == 0 {
        assert(stack.len() == 0);
        let all = done + visits(g, stack, seen, limit);
        assert(all =~= done);
        assert(done + stack =~= done);
        let c = g.node(root).creator->0;
        assert(done.contains(c));
        assert forall|a: Function, b: Function|
            done.contains(a) && #[trigger] feeds(g, b, a) implies done.contains(b) by {
            let i = choose|i: int| 0 <= i < done.len() && done[i] == a;
            assert(producers_in(g, done[i], g.call(done[i]).inputs@.len() as int, seen));
            let k = choose|k: int|
                0 <= k < g.call(a).inputs@.len() && g.node(#[trigger] g.call(a).inputs@[k]).creator
                    == Some(b);
            assert(seen.contains(b));
        }
        assert forall|f: Function| #[trigger] all.contains(f) <==> reachable(g, root, f) by {
            if reachable(g, root, f) {
                let p = choose|p: Seq<Function>| #[trigger]
                    path(g, p) && g.node(root).creator == Some(p[0]) && p.last() == f;
                lemma_closed(g, root, done, p);
            }
            if all.contains(f) {
                let i = choose|i: int| 0 <= i < all.len() && all[i] == f;
                assert((done + stack)[i] == f);
            }
        }
    } else {
        let f = stack.last();
        let rest = stack.drop_last();
        let visited = done.push(f);
        let all = done + stack;
        assert(all[all.len() - 1] == f);
        let now = visited + rest;
        assert(walking(g, root, visited, rest, seen)) by {
            assert forall|i: int, j: int|
                0 <= i < now.len() && 0 <= j < now.len() && i != j implies now[i] != now[j] by {
                let a = if i < done.len() {
                    i
                } else if i == done.len() {
                    all.len() - 1
                } else {
                    i - 1
                };
                let b = if j < done.len() {
                    j
                } else if j == done.len() {
                    all.len() - 1
                } else {
                    j - 1
                };
                assert(now[i] == all[a] && now[j] == all[b] && a != b);
            }
            assert forall|q: Function| #[trigger] seen.contains(q) <==> now.contains(q) by {
                if all.contains(q) {
                    let i = choose|i: int| 0 <= i < all.len() && all[i] == q;
                    let a = if i < done.len() {
                        i
                    } else if i == all.len() - 1 {
                        done.len() as int
                    } else {
                        i + 1
                    };
                    assert(now[a] == q);
                }
                if now.contains(q) {
                    let i = choose|i: int| 0 <= i < now.len() && now[i] == q;
                    let a = if i < done.len() {
                        i
                    } else if i == done.len() {
                        all.len() - 1
                    } else {
                        i - 1
                    };
                    assert(all[a] == q);
                }
            }
            assert forall|i: int| 0 <= i < now.len() implies g.knows(#[trigger] now[i])
                && reachable(g, root, now[i]) by {
                let a = if i < done.len() {
                    i
                } else if i == done.len() {
                    all.len() - 1
                } else {
                    i - 1
                };
                assert(now[i] == all[a]);
            }
        }
        let m = g.call(f).inputs@.len() as int;
        lemma_noted(g, root, visited, rest, seen, f, m);
        let (s, n) = noted(g, f, m, rest, seen);
        assert forall|i: int| 0 <= i < visited.len() implies producers_in(
            g,
            #[trigger] visited[i],
            g.call(visited[i]).inputs@.len() as int,
            n,
        ) by {
            if i < done.len() {
                assert(producers_in(g, done[i], g.call(done[i]).inputs@.len() as int, seen));
            }
        }
        lemma_visits(g, root, visited, s, n, (limit - 1) as nat);
        assert(done + visits(g, stack, seen, limit) =~= visited + visits(
            g,
            s,
            n,
            (limit - 1) as nat,
        ));
    }
}

/// The picture shows every function that the variable was computed by, and each of
/// them once, however many paths lead to it.
pub proof fn every_function_is_drawn_once<T, O>(g: Graph<T, O>, root: Variable, f: Function)
    requires
        g.wf(),
        g.has(root),
    ensures
        dot_order(g, root).no_duplicates(),
        dot_order(g, root).contains(f) <==> reachable(g, root, f),
{
    assert(g.node_ok(root.id as int));
    match g.node(root).creator {
        None => {
            if reachable(g, root, f) {
                let p = choose|p: Seq<Function>| #[trigger]
                    path(g, p) && g.node(root).creator == Some(p[0]) && p.last() == f;
                assert(false);
            }
        },
        Some(c) => {
            let none = Seq::<Function>::empty();
            assert(none + seq![c] =~= seq![c]);
            assert(path(g, seq![c]));
            assert(seq![c].last() == c);
            assert forall|q: Function| #[trigger] set![c].contains(q) <==> (none
                + seq![c]).contains(q) by {
                assert(seq![c][0] == c);
            }
            lemma_visits(g, root, none, seq![c], set![c], g.calls@.len());
            assert(none + dot_order(g, root) =~= dot_order(g, root));
        },
    }
}

} // verus!
