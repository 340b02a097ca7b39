//! Layers: what owns parameters.

pub mod conv;
pub mod keys;
pub mod linear;
pub mod rnn;
pub mod save;

use vstd::prelude::*;
use vstd::string::*;

use crate::engine::graph::{Graph, Node, Variable};
use crate::engine::parameter::{name_of, Parameter};
use crate::text::{decimal, decimal_text};

verus! {

/// The parameters that a layer declares, and the layers that it contains, in their
/// order.
pub struct ParamTree {
    pub own: Vec<Parameter>,
    pub children: Vec<ParamTree>,
}

/// The mathematical tree of parameters.
#[verifier::ext_equal]
pub ghost struct Tree {
    pub own: Seq<Parameter>,
    pub children: Seq<Tree>,
}

/// The mathematical trees of the first `n` of a list.
pub open spec fn forest(s: Seq<ParamTree>, n: nat) -> Seq<Tree>
    decreases s, n,
{
    if n == 0 || n > s.len() {
        Seq::empty()
    } else {
        forest(s, (n - 1) as nat).push(tree_of(s[n - 1]))
    }
}

/// The mathematical tree of a tree.
pub open spec fn tree_of(t: ParamTree) -> Tree
    decreases t, 0nat,
{
    Tree { own: t.own@, children: forest(t.children@, t.children@.len()) }
}

impl View for ParamTree {
    type V = Tree;

    open spec fn view(&self) -> Tree {
        tree_of(*self)
    }
}

/// The trees of a list.
pub open spec fn trees(s: Seq<ParamTree>) -> Seq<Tree> {
    forest(s, s.len())
}

/// Every parameter of some trees, tree after tree.
pub open spec fn forest_params(s: Seq<Tree>) -> Seq<Parameter>
    decreases s,
{
    if s.len() == 0 {
        Seq::empty()
    } else {
        forest_params(s.drop_last()) + s.last().params()
    }
}

/// The key of a parameter within its layer: its name, or its place where it has
/// none.
pub open spec fn leaf_key<T, O>(g: Graph<T, O>, p: Parameter, place: int) -> Seq<char> {
    match name_of(g, p.variable) {
        Some(name) => name,
        None => decimal_text(place),
    }
}

/// Parameters with their keys within a layer.
pub open spec fn own_keys<T, O>(g: Graph<T, O>, own: Seq<Parameter>) -> Seq<
    (Seq<char>, Parameter),
> {
    Seq::new(own.len(), |i: int| (leaf_key(g, own[i], i), own[i]))
}

/// Keyed parameters with a sub-layer's place in front of the key.
pub open spec fn below(place: int, keyed: Seq<(Seq<char>, Parameter)>) -> Seq<
    (Seq<char>, Parameter),
> {
    Seq::new(
        keyed.len(),
        |i: int| (decimal_text(place) + "/"@ + keyed[i].0, keyed[i].1),
    )
}

/// The keyed parameters of some sub-layers.
pub open spec fn forest_keys<T, O>(g: Graph<T, O>, s: Seq<Tree>) -> Seq<(Seq<char>, Parameter)>
    decreases s,
{
    if s.len() == 0 {
        Seq::empty()
    } else {
        forest_keys(g, s.drop_last()) + below(s.len() - 1, s.last().keyed(g))
    }
}

impl Tree {
    /// Every parameter: the layer's own first, then each sub-layer's in turn.
    pub open spec fn params(self) -> Seq<Parameter>
        decreases self,
    {
        self.own + forest_params(self.children)
    }

    /// Every parameter with a path that identifies it.
    pub open spec fn keyed<T, O>(self, g: Graph<T, O>) -> Seq<(Seq<char>, Parameter)>
        decreases self,
    {
        own_keys(g, self.own) + forest_keys(g, self.children)
    }
}

/// Keyed parameters, the keys taken by their views.
pub open spec fn keys_view(s: Seq<(String, Parameter)>) -> Seq<(Seq<char>, Parameter)> {
    Seq::new(s.len(), |i: int| (s[i].0@, s[i].1))
}

/// Every listed parameter belongs to the graph.
pub open spec fn owns_all<T, O>(g: Graph<T, O>, ps: Seq<Parameter>) -> bool {
    forall|i: int| 0 <= i < ps.len() ==> g.has((#[trigger] ps[i]).variable)
}

/// Whether `after` is `before` with the gradients of the listed parameters cleared.
pub open spec fn cleared<T, O>(
    before: Graph<T, O>,
    after: Graph<T, O>,
    ps: Seq<Parameter>,
) -> bool {
    &&& after.nodes@.len() == before.nodes@.len()
    &&& after.calls == before.calls
    &&& after.config == before.config
    &&& forall|i: int|
        0 <= i < before.nodes@.len() ==> #[trigger] after.nodes@[i] == if ps.contains(
            Parameter { variable: Variable { id: i as usize } },
        ) {
            Node { grad: None, ..before.nodes@[i] }
        } else {
            before.nodes@[i]
        }
}

proof fn lemma_keys_push(s: Seq<(String, Parameter)>, x: (String, Parameter))
    ensures
        keys_view(s.push(x)) == keys_view(s).push((x.0@, x.1)),
{
    assert(keys_view(s.push(x)) =~= keys_view(s).push((x.0@, x.1)));
}

proof fn lemma_forest(s: Seq<ParamTree>, n: nat)
    requires
        n <= s.len(),
    ensures
        forest(s, n).len() == n,
        forall|i: int| 0 <= i < n ==> #[trigger] forest(s, n)[i] == tree_of(s[i]),
        forall|m: nat| m <= n ==> #[trigger] forest(s, m) == forest(s, n).take(m as int),
    decreases n,
{
    if n > 0 {
        lemma_forest(s, (n - 1) as nat);
        assert forall|m: nat| m <= n implies #[trigger] forest(s, m) == forest(s, n).take(
            m as int,
        ) by {
            if m < n {
                assert(forest(s, m) == forest(s, (n - 1) as nat).take(m as int));
                assert(forest(s, n).take(m as int) =~= forest(s, (n - 1) as nat).take(m as int));
            } else {
                assert(forest(s, n).take(n as int) =~= forest(s, n));
            }
        }
    } else {
        assert(forest(s, 0).take(0) =~= forest(s, 0));
    }
}

/// The trees of a list with one more at the end.
pub proof fn lemma_trees_push(s: Seq<ParamTree>, t: ParamTree)
    ensures
        trees(s.push(t)) == trees(s).push(t@),
{
    lemma_forest(s, s.len());
    lemma_forest(s.push(t), s.len() + 1);
    assert(trees(s.push(t)) =~= trees(s).push(t@));
}

impl ParamTree {
    /// Every parameter: the layer's own first, then each sub-layer's in turn.
    #[must_use]
    pub fn params(&self) -> (r: Vec<Parameter>)
        ensures
            r@ == self@.params(),
        decreases self,
    {
        let mut all: Vec<Parameter> = Vec::new();
        let mut k: usize = 0;
        while k < self.own.len()
            invariant
                k <= self.own@.len(),
                all@ == self.own@.take(k as int),
            decreases self.own@.len() - k,
        {
            all.push(self.own[k]);
            assert(all@ =~= self.own@.take(k + 1));
            k = k + 1;
        }
        let ghost own = self@.own;
        let ghost children = self@.children;
        let count: usize = self.children.len();
        let mut i: usize = 0;
        proof {
            lemma_forest(self.children@, count as nat);
            assert(self.own@.take(k as int) =~= own);
            assert(children.take(0) =~= Seq::<Tree>::empty());
            assert(all@ =~= own + forest_params(children.take(0)));
        }
        while i < count
            invariant
                i <= count,
                count == self.children@.len(),
                children == forest(self.children@, count as nat),
                children.len() == count,
                forall|j: int| 0 <= j < count ==> #[trigger] children[j] == tree_of(self.children@[j]),
                all@ == own + forest_params(children.take(i as int)),
            decreases count - i,
        {
            let below = self.children[i].params();
            let ghost before = all@;
            let mut j: usize = 0;
            while j < below.len()
                invariant
                    j <= below@.len(),
                    all@ == before + below@.take(j as int),
                decreases below@.len() - j,
            {
                all.push(below[j]);
                assert(all@ =~= before + below@.take(j + 1));
                j = j + 1;
            }
            proof {
                assert(below@.take(j as int) =~= below@);
                let now = children.take(i + 1);
                assert(now.drop_last() =~= children.take(i as int));
                assert(now.last() == tree_of(self.children@[i as int]));
                assert(all@ =~= own + forest_params(now));
            }
            i = i + 1;
        }
        assert(children.take(count as int) =~= children);
        all
    }

    /// Every parameter with a path that identifies it.
    #[must_use]
    pub fn named_params<T, O>(&self, g: &Graph<T, O>) -> (r: Vec<(String, Parameter)>)
        requires
            owns_all(*g, self@.params()),
        ensures
            keys_view(r@) == self@.keyed(*g),
        decreases self,
    {
        let ghost own = self@.own;
        let ghost children = self@.children;
        let count: usize = self.children.len();
        proof {
            lemma_forest(self.children@, count as nat);
        }
        let mut out: Vec<(String, Parameter)> = Vec::new();
        let mut k: usize = 0;
        while k < self.own.len()
            invariant
                k <= self.own@.len(),
                own == self.own@,
                owns_all(*g, own + forest_params(children)),
                keys_view(out@) == own_keys(*g, own).take(k as int),
            decreases self.own@.len() - k,
        {
            let p: Parameter = self.own[k];
            assert((own + forest_params(children))[k as int] == p);
            let leaf: String = match p.variable.name(g) {
                Some(name) => name.as_str().to_owned(),
                None => decimal(k),
            };
            let ghost was = out@;
            out.push((leaf, p));
            proof {
                lemma_keys_push(was, out@[k as int]);
                assert(own_keys(*g, own).take(k + 1) =~= own_keys(*g, own).take(k as int).push(
                    own_keys(*g, own)[k as int],
                ));
            }
            k = k + 1;
        }
        let mut i: usize = 0;
        proof {
            assert(own_keys(*g, own).take(k as int) =~= own_keys(*g, own));
            assert(children.take(0) =~= Seq::<Tree>::empty());
            assert(keys_view(out@) =~= own_keys(*g, own) + forest_keys(*g, children.take(0)));
        }
        while i < count
            invariant
                i <= count,
                count == self.children@.len(),
                children == forest(self.children@, count as nat),
                children.len() == count,
                forall|j: int| 0 <= j < count ==> #[trigger] children[j] == tree_of(self.children@[j]),
                owns_all(*g, own + forest_params(children)),
                keys_view(out@) == own_keys(*g, own) + forest_keys(*g, children.take(i as int)),
            decreases count - i,
        {
            proof {
                lemma_child_params(children, i as int);
                let of_child = children[i as int].params();
                let before_child = forest_params(children.take(i as int));
                assert forall|j: int| 0 <= j < of_child.len() implies g.has(
                    (#[trigger] of_child[j]).variable,
                ) by {
                    assert((own + forest_params(children))[own.len() + before_child.len() + j]
                        == of_child[j]);
                }
            }
            let keyed = self.children[i].named_params(g);
            let ghost before = keys_view(out@);
            let ghost under = below(i as int, keys_view(keyed@));
            let mut j: usize = 0;
            while j < keyed.len()
                invariant
                    j <= keyed@.len(),
                    under == below(i as int, keys_view(keyed@)),
                    keys_view(out@) == before + under.take(j as int),
                decreases keyed@.len() - j,
            {
                let mut key: String = decimal(i);
                key.append("/");
                key.append(keyed[j].0.as_str());
                let ghost was = out@;
                out.push((key, keyed[j].1));
                proof {
                    lemma_keys_push(was, out@.last());
                    assert(keys_view(keyed@)[j as int] == (keyed@[j as int].0@, keyed@[j as int].1));
                    assert((before + under.take(j as int)).push(under[j as int]) =~= before
                        + under.take(j + 1));
                }
                j = j + 1;
            }
            proof {
                assert(under.take(j as int) =~= under);
                let now = children.take(i + 1);
                assert(now.drop_last() =~= children.take(i as int));
                assert(now.last() == tree_of(self.children@[i as int]));
                assert(keys_view(out@) =~= own_keys(*g, own) + forest_keys(*g, now));
            }
            i = i + 1;
        }
        assert(children.take(count as int) =~= children);
        out
    }
}

/// Where the parameters of sub-layer `i` stand among those of all sub-layers.
proof fn lemma_child_params(s: Seq<Tree>, i: int)
    requires
        0 <= i < s.len(),
    ensures
        ({
            let before = forest_params(s.take(i)).len();
            let own = s[i].params();
            &&& before + own.len() <= forest_params(s).len()
            &&& forall|j: int|
                0 <= j < own.len() ==> forest_params(s)[before + j] == #[trigger] own[j]
        }),
    decreases s.len(),
{
    let front = s.drop_last();
    if i < s.len() - 1 {
        lemma_child_params(front, i);
        assert(front.take(i) =~= s.take(i));
        assert(front[i] == s[i]);
        let before = forest_params(s.take(i)).len();
        let own = s[i].params();
        assert forall|j: int| 0 <= j < own.len() implies forest_params(s)[before + j]
            == #[trigger] own[j] by {
            assert(forest_params(front)[before + j] == own[j]);
        }
    } else {
        assert(s.take(i) =~= front);
    }
}

/// Clears the gradients of the listed parameters.
pub fn clear_gradients<T, O>(g: &mut Graph<T, O>, ps: &[Parameter])
    requires
        old(g).wf(),
        owns_all(*old(g), ps@),
    ensures
        final(g).wf(),
        cleared(*old(g), *final(g), ps@),
{
    let ghost before = *g;
    let n: usize = ps.len();
    let mut i: usize = 0;
    assert(g.nodes.len() == g.nodes@.len());
    assert(ps@.take(0).len() == 0);
    while i < n
        invariant
            i <= n,
            n == ps@.len(),
            g.wf(),
            before.nodes@.len() <= usize::MAX,
            owns_all(before, ps@),
            cleared(before, *g, ps@.take(i as int)),
        decreases n - i,
    {
        let p: Parameter = ps[i];
        assert(before.has(ps@[i as int].variable));
        let ghost mid = *g;
        p.variable.cleargrad(g);
        proof {
            let now = ps@.take(i + 1);
            let was = ps@.take(i as int);
            assert forall|k: int| 0 <= k < before.nodes@.len() implies #[trigger] g.nodes@[k]
                == if now.contains(Parameter { variable: Variable { id: k as usize } }) {
                Node { grad: None, ..before.nodes@[k] }
            } else {
                before.nodes@[k]
            } by {
                let q = Parameter { variable: Variable { id: k as usize } };
                assert(mid.nodes@[k] == if was.contains(q) {
                    Node { grad: None, ..before.nodes@[k] }
                } else {
                    before.nodes@[k]
                });
                assert(now =~= was.push(p));
                if was.contains(q) {
                    let j = choose|j: int| 0 <= j < was.len() && was[j] == q;
                    assert(now[j] == q);
                }
                if p == q {
                    assert(now[i as int] == q);
                }
                if now.contains(q) && p != q {
                    let j = choose|j: int| 0 <= j < now.len() && now[j] == q;
                    assert(was[j] == q);
                }
            }
        }
        i = i + 1;
    }
    assert(ps@.take(n as int) =~= ps@);
}

/// A parameterised transformation.
///
/// An implementor lists the parameters that it owns and the layers that it
/// contains; everything else is provided.
pub trait Layer {
    /// The parameters and sub-layers of the layer.
    closed spec fn tree_spec(&self) -> Tree {
        arbitrary()
    }

    /// The parameters declared directly on this layer.
    fn own_params(&self) -> (r: Vec<Parameter>)
        ensures
            r@ == self.tree_spec().own,
    ;

    /// The trees of the layers that this layer contains.
    fn sublayers(&self) -> (r: Vec<ParamTree>)
        ensures
            trees(r@) == self.tree_spec().children,
    ;

    /// The parameters and sub-layers of the layer.
    fn tree(&self) -> (r: ParamTree)
        ensures
            r@ == self.tree_spec(),
    {
        let own = self.own_params();
        let children = self.sublayers();
        let r = ParamTree { own, children };
        assert(r@ =~= self.tree_spec());
        r
    }

    /// Every parameter of this layer and of those below it.
    fn params(&self) -> (r: Vec<Parameter>)
        ensures
            r@ == self.tree_spec().params(),
    {
        self.tree().params()
    }

    /// Clears the gradient of every parameter of this layer and of those below it.
    fn cleargrads<T, O>(&self, g: &mut Graph<T, O>)
        requires
            old(g).wf(),
            owns_all(*old(g), self.tree_spec().params()),
        ensures
            final(g).wf(),
            cleared(*old(g), *final(g), self.tree_spec().params()),
    {
        let ps = self.params();
        clear_gradients(g, ps.as_slice());
    }

    /// Every parameter with a path that identifies it.
    fn named_params<T, O>(&self, g: &Graph<T, O>) -> (r: Vec<(String, Parameter)>)
        requires
            owns_all(*g, self.tree_spec().params()),
        ensures
            keys_view(r@) == self.tree_spec().keyed(*g),
    {
        self.tree().named_params(g)
    }
}

} // verus!
