//! The order in which a backward pass visits functions.
use crate::engine::graph::{Function, Graph, Variable};
use vstd::prelude::*;
use vstd::set_lib::*;

verus! {

/// Whether `b` produced something that `a` reads.
pub open spec fn feeds<T, O>(g: Graph<T, O>, b: Function, a: Function) -> bool {
    exists|k: int|
        0 <= k < g.call(a).inputs@.len() && g.node(#[trigger] g.call(a).inputs@[k]).creator
            == Some(b)
}

/// Whether each function on the path reads something that the next one produced.
pub open spec fn path<T, O>(g: Graph<T, O>, p: Seq<Function>) -> bool {
    &&& p.len() > 0
    &&& forall|i: int| 0 < i < p.len() ==> feeds(g, #[trigger] p[i], p[i - 1])
}

/// Whether a path leads from the creator of `root` to `f`.
pub open spec fn reachable<T, O>(g: Graph<T, O>, root: Variable, f: Function) -> bool {
    exists|p: Seq<Function>| #[trigger]
        path(g, p) && g.node(root).creator == Some(p[0]) && p.last() == f
}

/// Whether `a` is visited before `b`: it is of a later generation, or of the same one and
/// recorded later.
pub open spec fn outranks<T, O>(g: Graph<T, O>, a: Function, b: Function) -> bool {
    ||| g.call(a).generation > g.call(b).generation
    ||| g.call(a).generation == g.call(b).generation && a.id > b.id
}

/// Whether `order` lists every function behind `root` exactly once, later generations
/// first, and within a generation the functions recorded later first.
pub open spec fn is_schedule<T, O>(g: Graph<T, O>, root: Variable, order: Seq<Function>) -> bool {
    &&& order.no_duplicates()
    &&& forall|f: Function| #[trigger] order.contains(f) <==> reachable(g, root, f)
    &&& forall|i: int, j: int|
        0 <= i < j < order.len() ==> outranks(g, #[trigger] order[i], #[trigger] order[j])
}

proof fn lemma_reachable_known<T, O>(g: Graph<T, O>, root: Variable, p: Seq<Function>)
    requires
        g.wf(),
        g.has(root),
        path(g, p),
        g.node(root).creator == Some(p[0]),
    ensures
        g.knows(p.last()),
    decreases p.len(),
{
    assert(g.node_ok(root.id as int));
    if p.len() > 1 {
        let q = p.drop_last();
        assert(path(g, q)) by {
            assert forall|i: int| 0 < i < q.len() implies feeds(g, #[trigger] q[i], q[i - 1]) by {
                assert(feeds(g, p[i], p[i - 1]));
            }
        }
        lemma_reachable_known(g, root, q);
        let i = p.len() - 1;
        assert(feeds(g, p[i], p[i - 1]));
        let a = p[i - 1];
        let k = choose|k: int|
            0 <= k < g.call(a).inputs@.len() && g.node(#[trigger] g.call(a).inputs@[k]).creator
                == Some(p[i]);
        assert(g.call_ok(a.id as int));
        let x = g.call(a).inputs@[k];
        assert(g.has(x));
        assert(g.node_ok(x.id as int));
    }
}

/// Every function behind a variable is one of the graph.
pub proof fn reachable_functions_are_recorded<T, O>(g: Graph<T, O>, root: Variable, f: Function)
    requires
        g.wf(),
        g.has(root),
        reachable(g, root, f),
    ensures
        g.knows(f),
{
    let p = choose|p: Seq<Function>| #[trigger]
        path(g, p) && g.node(root).creator == Some(p[0]) && p.last() == f;
    lemma_reachable_known(g, root, p);
}

/// What reads from a reachable function's inputs is reachable too.
pub proof fn lemma_reach_further<T, O>(g: Graph<T, O>, root: Variable, a: Function, b: Function)
    requires
        reachable(g, root, a),
        feeds(g, b, a),
    ensures
        reachable(g, root, b),
{
    let p = choose|p: Seq<Function>| #[trigger]
        path(g, p) && g.node(root).creator == Some(p[0]) && p.last() == a;
    let q = p.push(b);
    assert(path(g, q)) by {
        assert forall|i: int| 0 < i < q.len() implies feeds(g, #[trigger] q[i], q[i - 1]) by {
            if i < p.len() {
                assert(feeds(g, p[i], p[i - 1]));
            }
        }
    }
    assert(q.last() == b);
}

/// A set of functions that holds the creator of `root` and the producers of whatever
/// its members read holds every reachable function.
pub proof fn lemma_closed<T, O>(g: Graph<T, O>, root: Variable, order: Seq<Function>, p: Seq<Function>)
    requires
        path(g, p),
        g.node(root).creator == Some(p[0]),
        order.contains(p[0]),
        forall|a: Function, b: Function|
            order.contains(a) && #[trigger] feeds(g, b, a) ==> order.contains(b),
    ensures
        order.contains(p.last()),
    decreases p.len(),
{
    if p.len() > 1 {
        let q = p.drop_last();
        assert(path(g, q)) by {
            assert forall|i: int| 0 < i < q.len() implies feeds(g, #[trigger] q[i], q[i - 1]) by {
                assert(feeds(g, p[i], p[i - 1]));
            }
        }
        lemma_closed(g, root, order, q);
        let i = p.len() - 1;
        assert(feeds(g, p[i], p[i - 1]));
    }
}

/// A list of distinct functions of a graph is no longer than the graph has functions.
pub proof fn lemma_distinct_bound(order: Seq<Function>, n: nat)
    requires
        order.no_duplicates(),
        forall|i: int| 0 <= i < order.len() ==> (#[trigger] order[i]).id < n,
    ensures
        order.len() <= n,
{
    let ids = order.map_values(|f: Function| f.id as int);
    assert(ids.no_duplicates()) by {
        assert forall|i: int, j: int| 0 <= i < ids.len() && 0 <= j < ids.len() && i != j implies ids[i]
            != ids[j] by {
            assert(order[i] != order[j]);
        }
    }
    ids.unique_seq_to_set();
    let all = set_int_range(0, n as int);
    lemma_int_range(0, n as int);
    assert(ids.to_set().subset_of(all)) by {
        assert forall|v: int| ids.to_set().contains(v) implies all.contains(v) by {
            let i = choose|i: int| 0 <= i < ids.len() && ids[i] == v;
            assert(order[i].id < n);
        }
    }
    lemma_len_subset(ids.to_set(), all);
}

/// The position of the pending function that is to be visited next.
fn latest<T, O>(g: &Graph<T, O>, pending: &Vec<Function>) -> (r: usize)
    requires
        pending@.len() > 0,
        forall|i: int| 0 <= i < pending@.len() ==> g.knows(#[trigger] pending@[i]),
    ensures
        r < pending@.len(),
        forall|i: int|
            0 <= i < pending@.len() ==> #[trigger] pending@[i] == pending@[r as int] || outranks(
                *g,
                pending@[r as int],
                pending@[i],
            ),
{
    let n: usize = pending.len();
    let mut best: usize = 0;
    let mut i: usize = 1;
    while i < n
        invariant
            n == pending@.len(),
            1 <= i <= n,
            best < n,
            forall|k: int| 0 <= k < n ==> g.knows(#[trigger] pending@[k]),
            forall|k: int|
                0 <= k < i ==> #[trigger] pending@[k] == pending@[best as int] || outranks(
                    *g,
                    pending@[best as int],
                    pending@[k],
                ),
        decreases n - i,
    {
        assert(g.knows(pending@[i as int]));
        assert(g.knows(pending@[best as int]));
        let (here, there): (u32, u32) = (
            g.calls[pending[i].id].generation,
            g.calls[pending[best].id].generation,
        );
        if here > there || (here == there && pending[i].id > pending[best].id) {
            best = i;
        }
        i = i + 1;
    }
    best
}

/// The state of a traversal: what has been visited, what waits, and what was seen.
spec fn traversal<T, O>(
    g: Graph<T, O>,
    root: Variable,
    order: Seq<Function>,
    pending: Seq<Function>,
    seen: Seq<bool>,
) -> bool {
    &&& seen.len() == g.calls@.len()
    &&& order.no_duplicates()
    &&& pending.no_duplicates()
    &&& forall|i: int|
        0 <= i < order.len() ==> g.knows(#[trigger] order[i]) && seen[order[i].id as int]
    &&& forall|i: int|
        0 <= i < pending.len() ==> g.knows(#[trigger] pending[i]) && seen[pending[i].id as int]
    &&& forall|i: int, j: int|
        0 <= i < order.len() && 0 <= j < pending.len() ==> #[trigger] order[i]
            != #[trigger] pending[j]
    &&& forall|f: Function|
        g.knows(f) && #[trigger] seen[f.id as int] ==> order.contains(f) || pending.contains(f)
    &&& forall|i: int| 0 <= i < order.len() ==> reachable(g, root, #[trigger] order[i])
    &&& forall|i: int| 0 <= i < pending.len() ==> reachable(g, root, #[trigger] pending[i])
    &&& g.node(root).creator matches Some(c) ==> order.contains(c) || pending.contains(c)
    &&& forall|i: int, j: int|
        0 <= i < j < order.len() ==> outranks(g, #[trigger] order[i], #[trigger] order[j])
    &&& forall|i: int, j: int|
        0 <= i < order.len() && 0 <= j < pending.len() ==> outranks(
            g,
            #[trigger] order[i],
            #[trigger] pending[j],
        )
}

/// Whether the producers of what the first `n` inputs of `a` hold have been seen.
spec fn producers_seen<T, O>(g: Graph<T, O>, a: Function, n: int, seen: Seq<bool>) -> bool {
    forall|k: int|
        0 <= k < n ==> (g.node(#[trigger] g.call(a).inputs@[k]).creator matches Some(b)
            ==> b.id < seen.len() && seen[b.id as int])
}

/// Adds a function to the pending ones unless it was seen before.
fn enqueue(pending: &mut Vec<Function>, seen: &mut Vec<bool>, func: Function)
    requires
        func.id < old(seen)@.len(),
    ensures
        final(seen)@ == old(seen)@.update(func.id as int, true),
        final(pending)@ == (if old(seen)@[func.id as int] {
            old(pending)@
        } else {
            old(pending)@.push(func)
        }),
{
    if !seen[func.id] {
        seen.set(func.id, true);
        pending.push(func);
    } else {
        proof {
            assert(seen@ =~= seen@.update(func.id as int, true));
        }
    }
}

/// The functions behind `root`, in the order in which a backward pass visits them.
pub fn schedule<T, O>(g: &Graph<T, O>, root: &Variable) -> (order: Vec<Function>)
    requires
        g.wf(),
        g.has(*root),
    ensures
        is_schedule(*g, *root, order@),
        forall|i: int| 0 <= i < order@.len() ==> g.knows(#[trigger] order@[i]),
{
    let n: usize = g.calls.len();
    let mut seen: Vec<bool> = Vec::new();
    let mut z: usize = 0;
    while z < n
        invariant
            z <= n,
            seen@.len() == z,
            forall|i: int| 0 <= i < z ==> !(#[trigger] seen@[i]),
        decreases n - z,
    {
        seen.push(false);
        z = z + 1;
    }
    let mut order: Vec<Function> = Vec::new();
    let mut pending: Vec<Function> = Vec::new();
    proof {
        assert(g.node_ok(root.id as int));
    }
    match g.nodes[root.id].creator {
        Some(creator) => {
            enqueue(&mut pending, &mut seen, creator);
            proof {
                let p = seq![creator];
                assert(path(*g, p));
                assert(p.last() == creator);
                assert(pending@[0] == creator);
                assert forall|f: Function| g.knows(f) && #[trigger] seen@[f.id as int] implies order@.contains(
                f) || pending@.contains(f) by {
                    assert(f.id == creator.id);
                }
            }
        },
        None => {},
    }
    while pending.len() > 0
        invariant
            n == g.calls@.len(),
            g.wf(),
            g.has(*root),
            traversal(*g, *root, order@, pending@, seen@),
            forall|i: int|
                0 <= i < order@.len() ==> producers_seen(
                    *g,
                    #[trigger] order@[i],
                    g.call(order@[i]).inputs@.len() as int,
                    seen@,
                ),
        decreases n - order@.len(),
    {
        let at: usize = latest(g, &pending);
        let ghost waiting = pending@;
        let ghost visited = order@;
        let func = pending.remove(at);
        proof {
            assert(func == waiting[at as int]);
            assert(pending@ =~= waiting.remove(at as int));
            lemma_visit(*g, *root, visited, waiting, seen@, at as int);
        }
        order.push(func);
        proof {
            lemma_distinct_bound(order@, n as nat);
            assert(g.call_ok(func.id as int));
        }
        let m: usize = g.calls[func.id].inputs.len();
        let mut k: usize = 0;
        while k < m
            invariant
                k <= m,
                n == g.calls@.len(),
                g.wf(),
                g.has(*root),
                g.knows(func),
                g.call_ok(func.id as int),
                m == g.call(func).inputs@.len(),
                order@ == visited.push(func),
                traversal(*g, *root, order@, pending@, seen@),
                producers_seen(*g, func, k as int, seen@),
                forall|i: int|
                    0 <= i < visited.len() ==> producers_seen(
                        *g,
                        #[trigger] visited[i],
                        g.call(visited[i]).inputs@.len() as int,
                        seen@,
                    ),
            decreases m - k,
        {
            let x = g.calls[func.id].inputs[k];
            assert(g.has(g.call(func).inputs@[k as int]));
            let ghost seen0 = seen@;
            let ghost pending0 = pending@;
            match g.nodes[x.id].creator {
                Some(upstream) => {
                    proof {
                        assert(g.node_ok(x.id as int));
                        assert(feeds(*g, upstream, func));
                        assert(order@[order@.len() - 1] == func);
                        assert(order@.contains(func));
                        lemma_reach_further(*g, *root, func, upstream);
                    }
                    enqueue(&mut pending, &mut seen, upstream);
                    proof {
                        lemma_seen(*g, *root, order@, pending0, seen0, func, upstream);
                        assert forall|i: int| 0 <= i < visited.len() implies producers_seen(
                            *g,
                            #[trigger] visited[i],
                            g.call(visited[i]).inputs@.len() as int,
                            seen@,
                        ) by {
                            lemma_producers_kept(
                                *g,
                                visited[i],
                                g.call(visited[i]).inputs@.len() as int,
                                seen0,
                                upstream,
                            );
                        }
                        lemma_producers_kept(*g, func, k as int, seen0, upstream);
                    }
                },
                None => {},
            }
            k = k + 1;
        }
        proof {
            assert forall|i: int| 0 <= i < order@.len() implies producers_seen(
                *g,
                #[trigger] order@[i],
                g.call(order@[i]).inputs@.len() as int,
                seen@,
            ) by {
                if i < visited.len() {
                    assert(order@[i] == visited[i]);
                }
            }
        }
    }
    proof {
        lemma_complete(*g, *root, order@, pending@, seen@);
    }
    order
}

proof fn lemma_producers_kept<T, O>(
    g: Graph<T, O>,
    a: Function,
    n: int,
    seen: Seq<bool>,
    b: Function,
)
    requires
        producers_seen(g, a, n, seen),
        b.id < seen.len(),
    ensures
        producers_seen(g, a, n, seen.update(b.id as int, true)),
{
    let after = seen.update(b.id as int, true);
    assert forall|k: int| 0 <= k < n implies (g.node(
        #[trigger] g.call(a).inputs@[k],
    ).creator matches Some(c) ==> c.id < after.len() && after[c.id as int]) by {
        if let Some(c) = g.node(g.call(a).inputs@[k]).creator {
            assert(seen[c.id as int]);
        }
    }
}

/// Moving the pending function that outranks the others to the visited ones.
proof fn lemma_visit<T, O>(
    g: Graph<T, O>,
    root: Variable,
    order: Seq<Function>,
    pending: Seq<Function>,
    seen: Seq<bool>,
    at: int,
)
    requires
        traversal(g, root, order, pending, seen),
        0 <= at < pending.len(),
        forall|i: int|
            0 <= i < pending.len() ==> #[trigger] pending[i] == pending[at] || outranks(
                g,
                pending[at],
                pending[i],
            ),
    ensures
        traversal(g, root, order.push(pending[at]), pending.remove(at), seen),
{
    let func = pending[at];
    let o = order.push(func);
    let p = pending.remove(at);
    assert forall|f: Function| order.contains(f) implies o.contains(f) by {
        let i = order.index_of(f);
        assert(order[i] == f);
        assert(o[i] == f);
    }
    assert(o[order.len() as int] == func);
    assert forall|f: Function| pending.contains(f) && f != func implies p.contains(f) by {
        let i = pending.index_of(f);
        assert(pending[i] == f);
        if i < at {
            assert(p[i] == f);
        } else {
            assert(p[i - 1] == f);
        }
    }
    assert forall|i: int| 0 <= i < p.len() implies #[trigger] p[i] == pending[if i < at {
        i
    } else {
        i + 1
    }] by {}
    assert(o.no_duplicates()) by {
        assert forall|i: int, j: int| 0 <= i < o.len() && 0 <= j < o.len() && i != j implies o[i]
            != o[j] by {
            if i < order.len() && j < order.len() {
                assert(order[i] != order[j]);
            } else if i < order.len() {
                assert(order[i] != pending[at]);
            } else {
                assert(order[j] != pending[at]);
            }
        }
    }
    assert(p.no_duplicates()) by {
        assert forall|i: int, j: int| 0 <= i < p.len() && 0 <= j < p.len() && i != j implies p[i]
            != p[j] by {
            let a = if i < at {
                i
            } else {
                i + 1
            };
            let b = if j < at {
                j
            } else {
                j + 1
            };
            assert(pending[a] != pending[b]);
        }
    }
    assert forall|i: int, j: int| 0 <= i < o.len() && 0 <= j < p.len() implies #[trigger] o[i]
        != #[trigger] p[j] by {
        let b = if j < at {
            j
        } else {
            j + 1
        };
        if i < order.len() {
            assert(order[i] != pending[b]);
        } else {
            assert(pending[at] != pending[b]);
        }
    }
    assert forall|f: Function| g.knows(f) && #[trigger] seen[f.id as int] implies o.contains(f)
        || p.contains(f) by {
        assert(order.contains(f) || pending.contains(f));
    }
    assert forall|i: int| 0 <= i < o.len() implies reachable(g, root, #[trigger] o[i]) by {
        if i < order.len() {
            assert(reachable(g, root, order[i]));
        } else {
            assert(reachable(g, root, pending[at]));
        }
    }
    assert forall|i: int, j: int| 0 <= i < j < o.len() implies outranks(
        g,
        #[trigger] o[i],
        #[trigger] o[j],
    ) by {
        if j < order.len() {
            assert(outranks(g, order[i], order[j]));
        } else {
            assert(outranks(g, order[i], pending[at]));
        }
    }
    assert forall|i: int, j: int| 0 <= i < o.len() && 0 <= j < p.len() implies outranks(
        g,
        #[trigger] o[i],
        #[trigger] p[j],
    ) by {
        let b = if j < at {
            j
        } else {
            j + 1
        };
        if i < order.len() {
            assert(outranks(g, order[i], pending[b]));
        } else {
            assert(pending[b] != pending[at]);
            assert(outranks(g, pending[at], pending[b]));
        }
    }
}

/// Seeing a producer of what the last visited function read.
proof fn lemma_seen<T, O>(
    g: Graph<T, O>,
    root: Variable,
    order: Seq<Function>,
    pending: Seq<Function>,
    seen: Seq<bool>,
    func: Function,
    upstream: Function,
)
    requires
        g.wf(),
        traversal(g, root, order, pending, seen),
        order.len() > 0,
        order.last() == func,
        g.knows(upstream),
        feeds(g, upstream, func),
        reachable(g, root, upstream),
    ensures
        traversal(
            g,
            root,
            order,
            (if seen[upstream.id as int] {
                pending
            } else {
                pending.push(upstream)
            }),
            seen.update(upstream.id as int, true),
        ),
{
    let s = seen.update(upstream.id as int, true);
    if seen[upstream.id as int] {
        assert(s =~= seen);
    } else {
        let p = pending.push(upstream);
        assert(p[pending.len() as int] == upstream);
        assert forall|f: Function| pending.contains(f) implies p.contains(f) by {
            let i = pending.index_of(f);
            assert(p[i] == f);
        }
        assert forall|i: int| 0 <= i < order.len() implies #[trigger] order[i] != upstream by {
            assert(seen[order[i].id as int]);
        }
        assert forall|i: int| 0 <= i < pending.len() implies #[trigger] pending[i] != upstream by {
            assert(seen[pending[i].id as int]);
        }
        assert(p.no_duplicates()) by {
            assert forall|i: int, j: int|
                0 <= i < p.len() && 0 <= j < p.len() && i != j implies p[i] != p[j] by {
                if i < pending.len() && j < pending.len() {
                    assert(pending[i] != pending[j]);
                } else if i < pending.len() {
                    assert(pending[i] != upstream);
                } else {
                    assert(pending[j] != upstream);
                }
            }
        }
        assert forall|f: Function| g.knows(f) && #[trigger] s[f.id as int] implies order.contains(f)
            || p.contains(f) by {
            if f.id == upstream.id {
                assert(f == upstream);
            } else {
                assert(seen[f.id as int]);
            }
        }
        assert forall|i: int| 0 <= i < p.len() implies reachable(g, root, #[trigger] p[i]) by {
            if i < pending.len() {
                assert(reachable(g, root, pending[i]));
            }
        }
        let k = choose|k: int|
            0 <= k < g.call(func).inputs@.len() && g.node(
                #[trigger] g.call(func).inputs@[k],
            ).creator == Some(upstream);
        let x = g.call(func).inputs@[k];
        assert(order[order.len() - 1] == func);
        assert(g.knows(order[order.len() - 1]));
        assert(g.call_ok(func.id as int));
        assert(g.has(x));
        assert(g.node_ok(x.id as int));
        assert(outranks(g, func, upstream));
        assert forall|i: int, j: int| 0 <= i < order.len() && 0 <= j < p.len() implies outranks(
            g,
            #[trigger] order[i],
            #[trigger] p[j],
        ) by {
            if j < pending.len() {
                assert(outranks(g, order[i], pending[j]));
            } else if i < order.len() - 1 {
                assert(outranks(g, order[i], order[order.len() - 1]));
            }
        }
    }
}

/// With nothing pending, everything reachable has been visited.
proof fn lemma_complete<T, O>(
    g: Graph<T, O>,
    root: Variable,
    order: Seq<Function>,
    pending: Seq<Function>,
    seen: Seq<bool>,
)
    requires
        g.wf(),
        g.has(root),
        traversal(g, root, order, pending, seen),
        pending.len() == 0,
        forall|i: int|
            0 <= i < order.len() ==> producers_seen(
                g,
                #[trigger] order[i],
                g.call(order[i]).inputs@.len() as int,
                seen,
            ),
    ensures
        is_schedule(g, root, order),
{
    assert forall|a: Function, b: Function|
        order.contains(a) && #[trigger] feeds(g, b, a) implies order.contains(b) by {
        let i = order.index_of(a);
        assert(order[i] == a);
        assert(producers_seen(g, order[i], g.call(order[i]).inputs@.len() as int, seen));
        let k = choose|k: int|
            0 <= k < g.call(a).inputs@.len() && g.node(#[trigger] g.call(a).inputs@[k]).creator
                == Some(b);
        assert(g.knows(order[i]));
        assert(g.call_ok(a.id as int));
        let x = g.call(a).inputs@[k];
        assert(g.has(x));
        assert(g.node_ok(x.id as int));
        assert(seen[b.id as int]);
    }
    assert forall|f: Function| #[trigger] order.contains(f) <==> reachable(g, root, f) by {
        if order.contains(f) {
            let i = order.index_of(f);
            assert(reachable(g, root, order[i]));
        }
        if reachable(g, root, f) {
            let p = choose|p: Seq<Function>| #[trigger]
                path(g, p) && g.node(root).creator == Some(p[0]) && p.last() == f;
            lemma_closed(g, root, order, p);
        }
    }
}

/// What produced an input of a function ranks below it.
pub proof fn producers_rank_below<T, O>(g: Graph<T, O>, a: Function, b: Function)
    requires
        g.wf(),
        g.knows(a),
        feeds(g, b, a),
    ensures
        outranks(g, a, b),
{
    let k = choose|k: int|
        0 <= k < g.call(a).inputs@.len() && g.node(#[trigger] g.call(a).inputs@[k]).creator
            == Some(b);
    assert(g.call_ok(a.id as int));
    let x = g.call(a).inputs@[k];
    assert(g.has(x));
    assert(g.node_ok(x.id as int));
}

/// A function is visited before whatever produced its inputs.
pub proof fn consumers_come_before_producers<T, O>(
    g: Graph<T, O>,
    root: Variable,
    order: Seq<Function>,
    i: int,
    j: int,
)
    requires
        g.wf(),
        g.has(root),
        is_schedule(g, root, order),
        0 <= i < order.len(),
        0 <= j < order.len(),
        feeds(g, order[j], order[i]),
    ensures
        i < j,
{
    assert(order.contains(order[i]));
    reachable_functions_are_recorded(g, root, order[i]);
    producers_rank_below(g, order[i], order[j]);
    if j < i {
        assert(outranks(g, order[j], order[i]));
    }
}

/// There is only one schedule of the functions behind a variable.
pub proof fn schedules_are_unique<T, O>(
    g: Graph<T, O>,
    root: Variable,
    a: Seq<Function>,
    b: Seq<Function>,
)
    requires
        is_schedule(g, root, a),
        is_schedule(g, root, b),
    ensures
        a == b,
{
    lemma_same_start(g, root, a, b, a.len() as int);
    if a.len() < b.len() {
        let f = b[a.len() as int];
        assert(b.contains(f));
        assert(a.contains(f));
        let i = a.index_of(f);
        assert(b[i] == f);
    }
    assert(a =~= b);
}

proof fn lemma_same_start<T, O>(
    g: Graph<T, O>,
    root: Variable,
    a: Seq<Function>,
    b: Seq<Function>,
    n: int,
)
    requires
        is_schedule(g, root, a),
        is_schedule(g, root, b),
        0 <= n <= a.len(),
    ensures
        n <= b.len(),
        forall|i: int| 0 <= i < n ==> #[trigger] a[i] == b[i],
    decreases n,
{
    if n > 0 {
        let m = n - 1;
        lemma_same_start(g, root, a, b, m);
        let f = a[m];
        assert(a.contains(f));
        assert(b.contains(f));
        let j = b.index_of(f);
        assert(b[j] == f);
        if j < m {
            assert(a[j] == b[j]);
        } else if m < j {
            let h = b[m];
            assert(b.contains(h));
            assert(a.contains(h));
            let k = a.index_of(h);
            assert(a[k] == h);
            assert(outranks(g, b[m], b[j]));
            if k < m {
                assert(a[k] == b[k]);
            } else if m < k {
                assert(outranks(g, a[m], a[k]));
            }
        }
    }
}

} // verus!
