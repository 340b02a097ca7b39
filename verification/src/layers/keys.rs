//! The keys of parameters tell them apart.

use vstd::prelude::*;

use crate::engine::graph::Graph;
use crate::engine::parameter::{name_of, Parameter};
use crate::layers::save::keys_differ;
use crate::layers::{below, forest_keys, leaf_key, own_keys, Tree};
use crate::text::{decimal_text, digit_char};

verus! {

/// Whether a key names a parameter of a layer itself, not one of a layer inside it.
pub open spec fn is_leaf(key: Seq<char>) -> bool {
    !key.contains('/')
}

/// Whether the keys of a layer's own parameters differ, and none reads like a path.
pub open spec fn own_apart<T, O>(g: Graph<T, O>, own: Seq<Parameter>) -> bool {
    &&& keys_differ(own_keys(g, own))
    &&& forall|i: int| 0 <= i < own.len() ==> is_leaf(#[trigger] leaf_key(g, own[i], i))
}

/// The same of some layers and all that they contain.
pub open spec fn forest_apart<T, O>(g: Graph<T, O>, s: Seq<Tree>) -> bool
    decreases s,
{
    s.len() > 0 ==> forest_apart(g, s.drop_last()) && s.last().apart(g)
}

/// Whether none of the parameters has a name.
pub open spec fn unnamed<T, O>(g: Graph<T, O>, ps: Seq<Parameter>) -> bool {
    forall|i: int| 0 <= i < ps.len() ==> name_of(g, (#[trigger] ps[i]).variable) is None
}

/// The same of some layers and all that they contain.
pub open spec fn forest_unnamed<T, O>(g: Graph<T, O>, s: Seq<Tree>) -> bool
    decreases s,
{
    s.len() > 0 ==> forest_unnamed(g, s.drop_last()) && s.last().nameless(g)
}

impl Tree {
    /// Whether in every layer the keys of its own parameters differ, and none reads like
    /// a path.
    pub open spec fn apart<T, O>(self, g: Graph<T, O>) -> bool
        decreases self,
    {
        own_apart(g, self.own) && forest_apart(g, self.children)
    }

    /// Whether no parameter has a name.
    pub open spec fn nameless<T, O>(self, g: Graph<T, O>) -> bool
        decreases self,
    {
        unnamed(g, self.own) && forest_unnamed(g, self.children)
    }
}

/// A number in decimal is made of digits.
proof fn lemma_digits(n: int)
    requires
        0 <= n,
    ensures
        decimal_text(n).len() > 0,
        is_leaf(decimal_text(n)),
    decreases n,
{
    let s = decimal_text(n);
    if n >= 10 {
        lemma_digits(n / 10);
        let t = decimal_text(n / 10);
        assert forall|i: int| 0 <= i < s.len() implies s[i] != '/' by {
            if i < t.len() {
                assert(t.contains(t[i]));
            } else {
                assert(digit_char(n % 10) != '/');
            }
        }
    } else {
        assert(digit_char(n) != '/');
    }
}

/// Different numbers are written differently.
proof fn lemma_decimals_differ(m: int, n: int)
    requires
        0 <= m,
        0 <= n,
        decimal_text(m) == decimal_text(n),
    ensures
        m == n,
    decreases m,
{
    let (s, t) = (decimal_text(m), decimal_text(n));
    lemma_digits(m / 10);
    lemma_digits(n / 10);
    if m < 10 {
        assert(s.len() == 1);
        assert(n < 10);
        assert(s[0] == t[0]);
    } else {
        assert(n >= 10);
        assert(s.drop_last() =~= decimal_text(m / 10));
        assert(t.drop_last() =~= decimal_text(n / 10));
        lemma_decimals_differ(m / 10, n / 10);
        assert(s.last() == t.last());
    }
}

/// A path is taken apart at its first slash in one way only.
proof fn lemma_paths_split(a: Seq<char>, x: Seq<char>, b: Seq<char>, y: Seq<char>)
    requires
        is_leaf(a),
        is_leaf(b),
        a + "/"@ + x == b + "/"@ + y,
    ensures
        a == b,
        x == y,
{
    reveal_strlit("/");
    let (l, r) = (a + "/"@ + x, b + "/"@ + y);
    if a.len() < b.len() {
        assert(l[a.len() as int] == '/');
        assert(r[a.len() as int] == b[a.len() as int]);
        assert(b.contains(b[a.len() as int]));
    }
    if b.len() < a.len() {
        assert(r[b.len() as int] == '/');
        assert(l[b.len() as int] == a[b.len() as int]);
        assert(a.contains(a[b.len() as int]));
    }
    assert(l.take(a.len() as int) =~= a);
    assert(r.take(b.len() as int) =~= b);
    assert(l.skip(a.len() as int + 1) =~= x);
    assert(r.skip(b.len() as int + 1) =~= y);
}

/// Whether a key leads into one of the first `n` layers.
spec fn leads_below(key: Seq<char>, n: int) -> bool {
    exists|p: int, rest: Seq<char>|
        0 <= p < n && key == #[trigger] (decimal_text(p) + "/"@ + rest)
}

/// A path is not the key of a layer's own parameter.
proof fn lemma_path_has_a_slash(key: Seq<char>, n: int)
    requires
        leads_below(key, n),
    ensures
        !is_leaf(key),
{
    let (p, rest) = choose|p: int, rest: Seq<char>|
        0 <= p < n && key == #[trigger] (decimal_text(p) + "/"@ + rest);
    reveal_strlit("/");
    assert(key[decimal_text(p).len() as int] == '/');
}

proof fn lemma_forest_keys_differ<T, O>(g: Graph<T, O>, s: Seq<Tree>)
    requires
        forest_apart(g, s),
    ensures
        keys_differ(forest_keys(g, s)),
        forall|i: int|
            0 <= i < forest_keys(g, s).len() ==> leads_below(
                (#[trigger] forest_keys(g, s)[i]).0,
                s.len() as int,
            ),
    decreases s,
{
    if s.len() > 0 {
        let n = s.len() as int;
        let (before, t) = (s.drop_last(), s.last());
        lemma_forest_keys_differ(g, before);
        keys_tell_parameters_apart(g, t);
        let (old_keys, inner) = (forest_keys(g, before), t.keyed(g));
        let new_keys = below(n - 1, inner);
        let all = forest_keys(g, s);
        let m = old_keys.len() as int;
        lemma_digits(n - 1);
        assert forall|i: int| 0 <= i < all.len() implies leads_below((#[trigger] all[i]).0, n) by {
            if i < m {
                assert(all[i] == old_keys[i]);
                let (p, rest) = choose|p: int, rest: Seq<char>|
                    0 <= p < n - 1 && old_keys[i].0 == #[trigger] (decimal_text(p) + "/"@ + rest);
                assert(all[i].0 == decimal_text(p) + "/"@ + rest);
            } else {
                assert(all[i].0 == decimal_text(n - 1) + "/"@ + inner[i - m].0);
            }
        }
        assert forall|i: int, j: int| 0 <= i < j < all.len() implies (#[trigger] all[i]).0
            != (#[trigger] all[j]).0 by {
            if j < m {
                assert(all[i] == old_keys[i] && all[j] == old_keys[j]);
            } else {
                let y = inner[j - m].0;
                assert(all[j].0 == decimal_text(n - 1) + "/"@ + y);
                if i < m {
                    assert(all[i] == old_keys[i]);
                    let (p, rest) = choose|p: int, rest: Seq<char>|
                        0 <= p < n - 1 && old_keys[i].0 == #[trigger] (decimal_text(p) + "/"@
                            + rest);
                    if all[i].0 == all[j].0 {
                        lemma_digits(p);
                        lemma_paths_split(decimal_text(p), rest, decimal_text(n - 1), y);
                        lemma_decimals_differ(p, n - 1);
                    }
                } else {
                    let x = inner[i - m].0;
                    assert(all[i].0 == decimal_text(n - 1) + "/"@ + x);
                    if all[i].0 == all[j].0 {
                        lemma_paths_split(decimal_text(n - 1), x, decimal_text(n - 1), y);
                        assert(inner[i - m].0 != inner[j - m].0);
                    }
                }
            }
        }
    }
}

/// Where in every layer the keys of its own parameters differ and none reads like a path,
/// no two parameters of the whole have the same key.
pub proof fn keys_tell_parameters_apart<T, O>(g: Graph<T, O>, t: Tree)
    requires
        t.apart(g),
    ensures
        keys_differ(t.keyed(g)),
    decreases t,
{
    let (own, inside) = (own_keys(g, t.own), forest_keys(g, t.children));
    let all = t.keyed(g);
    lemma_forest_keys_differ(g, t.children);
    let m = own.len() as int;
    assert forall|i: int, j: int| 0 <= i < j < all.len() implies (#[trigger] all[i]).0
        != (#[trigger] all[j]).0 by {
        if j < m {
            assert(all[i] == own[i] && all[j] == own[j]);
        } else if i < m {
            assert(all[i] == own[i] && all[j] == inside[j - m]);
            assert(is_leaf(leaf_key(g, t.own[i], i)));
            lemma_path_has_a_slash(inside[j - m].0, t.children.len() as int);
        } else {
            assert(all[i] == inside[i - m] && all[j] == inside[j - m]);
        }
    }
}

proof fn lemma_unnamed_apart<T, O>(g: Graph<T, O>, own: Seq<Parameter>)
    requires
        unnamed(g, own),
    ensures
        own_apart(g, own),
{
    let keys = own_keys(g, own);
    assert forall|i: int| 0 <= i < own.len() implies is_leaf(
        #[trigger] leaf_key(g, own[i], i),
    ) by {
        assert(name_of(g, own[i].variable) is None);
        lemma_digits(i);
    }
    assert forall|i: int, j: int| 0 <= i < j < keys.len() implies (#[trigger] keys[i]).0
        != (#[trigger] keys[j]).0 by {
        assert(name_of(g, own[i].variable) is None && name_of(g, own[j].variable) is None);
        if keys[i].0 == keys[j].0 {
            lemma_decimals_differ(i, j);
        }
    }
}

proof fn lemma_forest_unnamed<T, O>(g: Graph<T, O>, s: Seq<Tree>)
    requires
        forest_unnamed(g, s),
    ensures
        forest_apart(g, s),
    decreases s,
{
    if s.len() > 0 {
        lemma_forest_unnamed(g, s.drop_last());
        unnamed_parameters_are_told_apart(g, s.last());
    }
}

/// Parameters without names go by their places, so that their keys differ as well.
pub proof fn unnamed_parameters_are_told_apart<T, O>(g: Graph<T, O>, t: Tree)
    requires
        t.nameless(g),
    ensures
        t.apart(g),
        keys_differ(t.keyed(g)),
    decreases t,
{
    lemma_unnamed_apart(g, t.own);
    lemma_forest_unnamed(g, t.children);
    keys_tell_parameters_apart(g, t);
}

} // verus!
