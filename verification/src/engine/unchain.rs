//! Cutting the history behind a variable.
use crate::engine::graph::{Function, Graph, Node, Variable};
use crate::engine::schedule::{
    feeds, lemma_closed, lemma_reach_further, path, reachable, reachable_functions_are_recorded,
};
use vstd::prelude::*;

verus! {

/// Whether a function behind `root` reads variable `i`.
pub open spec fn read_behind<T, O>(g: Graph<T, O>, root: Variable, i: int) -> bool {
    exists|f: Function| #[trigger]
        reachable(g, root, f) && g.call(f).inputs@.contains(Variable { id: i as usize })
}

/// How many of the first `n` variables have a creator.
spec fn creators<T>(nodes: Seq<Node<T>>, n: int) -> nat
    decreases n,
{
    if n <= 0 {
        0
    } else if nodes[n - 1].creator.is_some() {
        creators(nodes, n - 1) + 1
    } else {
        creators(nodes, n - 1)
    }
}

proof fn lemma_creators_cut<T>(nodes: Seq<Node<T>>, x: int, n: int)
    requires
        0 <= x < nodes.len(),
        0 <= n <= nodes.len(),
        nodes[x].creator.is_some(),
    ensures
        creators(nodes.update(x, (Node { creator: None, ..nodes[x] })), n) == (if x < n {
            creators(nodes, n) - 1
        } else {
            creators(nodes, n) as int
        }),
    decreases n,
{
    if n > 0 {
        lemma_creators_cut(nodes, x, n - 1);
    }
}

/// Whether `now` is `before` or `before` without its creator.
spec fn cut_or_kept<T>(before: Node<T>, now: Node<T>) -> bool {
    now == before || now == (Node { creator: None, ..before })
}

/// The state of a cut: what was visited, and what still waits.
spec fn cutting<T, O>(
    g0: Graph<T, O>,
    g: Graph<T, O>,
    root: Variable,
    visited: Seq<Function>,
    stack: Seq<Function>,
) -> bool {
    &&& g.calls == g0.calls
    &&& g.config == g0.config
    &&& g.nodes@.len() == g0.nodes@.len()
    &&& forall|i: int|
        0 <= i < g0.nodes@.len() ==> cut_or_kept(g0.nodes@[i], #[trigger] g.nodes@[i])
    &&& forall|i: int|
        0 <= i < g0.nodes@.len() && (#[trigger] g.nodes@[i]) != g0.nodes@[i] ==> read_behind(
            g0,
            root,
            i,
        )
    &&& forall|i: int| 0 <= i < stack.len() ==> reachable(g0, root, #[trigger] stack[i])
    &&& forall|i: int| 0 <= i < visited.len() ==> reachable(g0, root, #[trigger] visited[i])
    &&& forall|i: int|
        0 <= i < g0.nodes@.len() && (#[trigger] g.nodes@[i]).creator != g0.nodes@[i].creator ==> (
        g0.nodes@[i].creator matches Some(b) && (visited.contains(b) || stack.contains(b)))
    &&& g0.node(root).creator matches Some(c) ==> visited.contains(c) || stack.contains(c)
}

/// Whether the first `n` inputs of `f` have no creator any more.
spec fn inputs_cut<T, O>(g: Graph<T, O>, f: Function, n: int) -> bool {
    forall|k: int|
        0 <= k < n ==> g.has(#[trigger] g.call(f).inputs@[k]) && g.node(
            g.call(f).inputs@[k],
        ).creator.is_none()
}

proof fn lemma_contains_push(s: Seq<Function>, f: Function)
    ensures
        s.push(f).contains(f),
        forall|b: Function| s.contains(b) ==> #[trigger] s.push(f).contains(b),
{
    assert(s.push(f)[s.len() as int] == f);
    assert forall|b: Function| s.contains(b) implies #[trigger] s.push(f).contains(b) by {
        let i = s.index_of(b);
        assert(s.push(f)[i] == b);
    }
}

impl Variable {
    /// Cuts the history behind this variable: whatever the functions behind it read
    /// forgets its creator. The variable itself keeps the function that produced it.
    pub fn unchain_backward<T, O>(&self, g: &mut Graph<T, O>)
        requires
            old(g).wf(),
            old(g).has(*self),
        ensures
            final(g).wf(),
            final(g).calls == old(g).calls,
            final(g).config == old(g).config,
            final(g).nodes@.len() == old(g).nodes@.len(),
            forall|i: int|
                0 <= i < old(g).nodes@.len() ==> #[trigger] final(g).nodes@[i] == (if read_behind(
                    *old(g),
                    *self,
                    i,
                ) {
                    (Node { creator: None, ..old(g).nodes@[i] })
                } else {
                    old(g).nodes@[i]
                }),
    {
        let ghost g0 = *g;
        let ghost mut visited: Seq<Function> = Seq::empty();
        let mut stack: Vec<Function> = Vec::new();
        proof {
            assert(g0.node_ok(self.id as int));
        }
        match g.nodes[self.id].creator {
            Some(creator) => {
                stack.push(creator);
                proof {
                    let p = seq![creator];
                    assert(path(g0, p));
                    assert(p.last() == creator);
                    assert(stack@[0] == creator);
                }
            },
            None => {},
        }
        while stack.len() > 0
            invariant
                g.wf(),
                g0.wf(),
                g0.has(*self),
                cutting(g0, *g, *self, visited, stack@),
                forall|i: int|
                    0 <= i < visited.len() ==> inputs_cut(
                        *g,
                        #[trigger] visited[i],
                        g0.call(visited[i]).inputs@.len() as int,
                    ),
            decreases stack@.len() + creators(g.nodes@, g.nodes@.len() as int),
        {
            let ghost waiting = stack@;
            let ghost measure = stack@.len() + creators(g.nodes@, g.nodes@.len() as int);
            match stack.pop() {
                Some(func) => {
                    let ghost earlier = visited;
                    proof {
                        assert(func == waiting[waiting.len() - 1]);
                        assert(reachable(g0, *self, func));
                        reachable_functions_are_recorded(g0, *self, func);
                        assert(g0.call_ok(func.id as int));
                        visited = visited.push(func);
                        lemma_contains_push(earlier, func);
                        assert(stack@ =~= waiting.drop_last());
                        assert forall|b: Function| waiting.contains(b) implies visited.contains(b)
                            || stack@.contains(b) by {
                            let i = waiting.index_of(b);
                            if i < waiting.len() - 1 {
                                assert(stack@[i] == b);
                            }
                        }
                        assert forall|i: int| 0 <= i < visited.len() implies reachable(
                            g0,
                            *self,
                            #[trigger] visited[i],
                        ) by {
                            if i < earlier.len() {
                                assert(reachable(g0, *self, earlier[i]));
                            }
                        }
                        assert(cutting(g0, *g, *self, visited, stack@));
                    }
                    let n: usize = g.calls[func.id].inputs.len();
                    let mut k: usize = 0;
                    while k < n
                        invariant
                            k <= n,
                            g.wf(),
                            g0.wf(),
                            g0.has(*self),
                            g0.knows(func),
                            g0.call_ok(func.id as int),
                            reachable(g0, *self, func),
                            n == g0.call(func).inputs@.len(),
                            visited == earlier.push(func),
                            cutting(g0, *g, *self, visited, stack@),
                            inputs_cut(*g, func, k as int),
                            forall|i: int|
                                0 <= i < earlier.len() ==> inputs_cut(
                                    *g,
                                    #[trigger] earlier[i],
                                    g0.call(earlier[i]).inputs@.len() as int,
                                ),
                            stack@.len() + creators(g.nodes@, g.nodes@.len() as int) < measure,
                        decreases n - k,
                    {
                        let input = g.calls[func.id].inputs[k];
                        let ghost ga = *g;
                        let ghost sa = stack@;
                        proof {
                            assert(g0.has(g0.call(func).inputs@[k as int]));
                            assert(g.nodes.len() == g.nodes@.len());
                            let nx = g.nodes@[input.id as int];
                        }
                        match g.nodes[input.id].creator {
                            Some(upstream) => {
                                proof {
                                    assert(g0.nodes@[input.id as int].creator == Some(upstream));
                                    assert(feeds(g0, upstream, func));
                                    lemma_reach_further(g0, *self, func, upstream);
                                    assert(g0.call(func).inputs@.contains(input));
                                    assert(Variable { id: input.id } == input);
                                    assert(read_behind(g0, *self, input.id as int));
                                }
                                stack.push(upstream);
                                input.unchain(g);
                                proof {
                                    lemma_contains_push(sa, upstream);
                                    lemma_creators_cut(
                                        ga.nodes@,
                                        input.id as int,
                                        ga.nodes@.len() as int,
                                    );
                                    assert forall|i: int| 0 <= i < stack@.len() implies reachable(
                                        g0,
                                        *self,
                                        #[trigger] stack@[i],
                                    ) by {
                                        if i < sa.len() {
                                            assert(reachable(g0, *self, sa[i]));
                                        }
                                    }
                                    assert forall|i: int| 0 <= i < g0.nodes@.len() implies cut_or_kept(
                                    g0.nodes@[i], #[trigger] g.nodes@[i]) by {
                                        let na = ga.nodes@[i];
                                    }
                                    assert forall|i: int|
                                        0 <= i < g0.nodes@.len() && (#[trigger] g.nodes@[i])
                                            != g0.nodes@[i] implies read_behind(g0, *self, i) by {
                                        let na = ga.nodes@[i];
                                    }
                                    assert forall|i: int|
                                        0 <= i < g0.nodes@.len() && (
                                        #[trigger] g.nodes@[i]).creator
                                            != g0.nodes@[i].creator implies (
                                    g0.nodes@[i].creator matches Some(b) && (visited.contains(b)
                                        || stack@.contains(b))) by {
                                        let na = ga.nodes@[i];
                                    }
                                    assert forall|i: int| 0 <= i < earlier.len() implies inputs_cut(
                                        *g,
                                        #[trigger] earlier[i],
                                        g0.call(earlier[i]).inputs@.len() as int,
                                    ) by {
                                        lemma_inputs_stay_cut(
                                            ga,
                                            *g,
                                            earlier[i],
                                            g0.call(earlier[i]).inputs@.len() as int,
                                            input,
                                        );
                                    }
                                    lemma_inputs_stay_cut(ga, *g, func, k as int, input);
                                }
                            },
                            None => {},
                        }
                        k = k + 1;
                    }
                    proof {
                        assert forall|i: int| 0 <= i < visited.len() implies inputs_cut(
                            *g,
                            #[trigger] visited[i],
                            g0.call(visited[i]).inputs@.len() as int,
                        ) by {
                            if i < earlier.len() {
                                assert(visited[i] == earlier[i]);
                            }
                        }
                    }
                },
                None => {},
            }
        }
        proof {
            lemma_all_cut(g0, *g, *self, visited, stack@);
        }
    }
}

proof fn lemma_inputs_stay_cut<T, O>(
    before: Graph<T, O>,
    after: Graph<T, O>,
    f: Function,
    n: int,
    x: Variable,
)
    requires
        inputs_cut(before, f, n),
        after.calls == before.calls,
        before.has(x),
        after.nodes@ == before.nodes@.update(
            x.id as int,
            (Node { creator: None, ..before.node(x) }),
        ),
    ensures
        inputs_cut(after, f, n),
{
    assert forall|k: int| 0 <= k < n implies after.has(#[trigger] after.call(f).inputs@[k])
        && after.node(after.call(f).inputs@[k]).creator.is_none() by {
        assert(before.has(before.call(f).inputs@[k]));
    }
}

proof fn lemma_all_cut<T, O>(
    g0: Graph<T, O>,
    g: Graph<T, O>,
    root: Variable,
    visited: Seq<Function>,
    stack: Seq<Function>,
)
    requires
        g0.wf(),
        g0.has(root),
        cutting(g0, g, root, visited, stack),
        stack.len() == 0,
        forall|i: int|
            0 <= i < visited.len() ==> inputs_cut(
                g,
                #[trigger] visited[i],
                g0.call(visited[i]).inputs@.len() as int,
            ),
    ensures
        forall|i: int|
            0 <= i < g0.nodes@.len() ==> #[trigger] g.nodes@[i] == (if read_behind(g0, root, i) {
                (Node { creator: None, ..g0.nodes@[i] })
            } else {
                g0.nodes@[i]
            }),
{
    assert(g0.nodes.len() == g0.nodes@.len());
    assert forall|a: Function, b: Function|
        visited.contains(a) && #[trigger] feeds(g0, b, a) implies visited.contains(b) by {
        let i = visited.index_of(a);
        assert(visited[i] == a);
        assert(reachable(g0, root, visited[i]));
        reachable_functions_are_recorded(g0, root, a);
        assert(g0.call_ok(a.id as int));
        assert(inputs_cut(g, visited[i], g0.call(visited[i]).inputs@.len() as int));
        let k = choose|k: int|
            0 <= k < g0.call(a).inputs@.len() && g0.node(
                #[trigger] g0.call(a).inputs@[k],
            ).creator == Some(b);
        let x = g0.call(a).inputs@[k];
        assert(g0.has(x));
        assert(g.call(a).inputs@[k] == x);
        assert(g.node(x).creator.is_none());
        assert(g.nodes@[x.id as int].creator != g0.nodes@[x.id as int].creator);
    }
    assert forall|i: int| 0 <= i < g0.nodes@.len() implies #[trigger] g.nodes@[i] == (
    if read_behind(g0, root, i) {
        (Node { creator: None, ..g0.nodes@[i] })
    } else {
        g0.nodes@[i]
    }) by {
        if read_behind(g0, root, i) {
            let v = Variable { id: i as usize };
            let f = choose|f: Function| #[trigger]
                reachable(g0, root, f) && g0.call(f).inputs@.contains(v);
            let p = choose|p: Seq<Function>| #[trigger]
                path(g0, p) && g0.node(root).creator == Some(p[0]) && p.last() == f;
            lemma_closed(g0, root, visited, p);
            let m = visited.index_of(f);
            assert(visited[m] == f);
            assert(inputs_cut(g, visited[m], g0.call(visited[m]).inputs@.len() as int));
            let k = g0.call(f).inputs@.index_of(v);
            assert(g.call(f).inputs@[k] == v);
            assert(g.node(v).creator.is_none());
        }
    }
}

} // verus!
