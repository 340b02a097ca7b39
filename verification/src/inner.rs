//! Sums of products.

use vstd::prelude::*;

use crate::remap::dot;
use crate::scalar::{Ring, Scalar};

verus! {

pub proof fn lemma_dot_commutes<R: Ring>(a: Seq<R>, b: Seq<R>, n: int)
    ensures
        dot(a, b, n) == dot(b, a, n),
    decreases n,
{
    if n > 0 {
        lemma_dot_commutes(a, b, n - 1);
        R::times_commutes(a[n - 1], b[n - 1]);
    }
}

/// Only the elements that are summed matter.
pub proof fn lemma_dot_same<T: Scalar>(a: Seq<T>, b: Seq<T>, c: Seq<T>, d: Seq<T>, n: int)
    requires
        forall|i: int| 0 <= i < n ==> #[trigger] a[i] == c[i],
        forall|i: int| 0 <= i < n ==> #[trigger] b[i] == d[i],
    ensures
        dot(a, b, n) == dot(c, d, n),
    decreases n,
{
    if n > 0 {
        lemma_dot_same(a, b, c, d, n - 1);
        assert(a[n - 1] == c[n - 1] && b[n - 1] == d[n - 1]);
    }
}

/// A sum of products splits in two.
pub proof fn lemma_dot_split<R: Ring>(a: Seq<R>, b: Seq<R>, p: int, n: int)
    requires
        0 <= p,
        0 <= n,
        p + n <= a.len(),
        p + n <= b.len(),
    ensures
        dot(a, b, p + n) == dot(a, b, p).plus(dot(a.skip(p), b.skip(p), n)),
    decreases n,
{
    if n == 0 {
        R::zero_is_neutral(dot(a, b, p));
    } else {
        lemma_dot_split(a, b, p, n - 1);
        let t = a[p + n - 1].times(b[p + n - 1]);
        assert(a.skip(p)[n - 1] == a[p + n - 1]);
        assert(b.skip(p)[n - 1] == b[p + n - 1]);
        R::plus_associates(dot(a, b, p), dot(a.skip(p), b.skip(p), n - 1), t);
    }
}

/// Products distribute over a sum of the second factors, one of which carries a factor
/// of its own.
pub proof fn lemma_dot_grows<R: Ring>(c: Seq<R>, u: Seq<R>, f: Seq<R>, w: Seq<R>, g: R, n: int)
    requires
        forall|k: int| 0 <= k < n ==> #[trigger] w[k] == u[k].plus(g.times(f[k])),
    ensures
        dot(c, w, n) == dot(c, u, n).plus(dot(c, f, n).times(g)),
    decreases n,
{
    let zero = R::zero_spec();
    if n <= 0 {
        R::times_commutes(zero, g);
        R::zero_absorbs(g);
        R::zero_is_neutral(zero);
    } else {
        lemma_dot_grows(c, u, f, w, g, n - 1);
        let (ck, uk, fk) = (c[n - 1], u[n - 1], f[n - 1]);
        let (a, b) = (dot(c, u, n - 1), dot(c, f, n - 1));
        assert(w[n - 1] == uk.plus(g.times(fk)));
        // c (u + g f) = c u + (c f) g
        R::times_commutes(ck, uk.plus(g.times(fk)));
        R::times_distributes(uk, g.times(fk), ck);
        R::times_commutes(uk, ck);
        R::times_commutes(g, fk);
        R::times_commutes(fk.times(g), ck);
        R::times_associates(ck, fk, g);
        let x = ck.times(uk);
        let y = ck.times(fk).times(g);
        assert(ck.times(w[n - 1]) == x.plus(y));
        // (a + b g) + (x + y) = (a + x) + (b g + y)
        let bg = b.times(g);
        R::plus_associates(a, bg, x.plus(y));
        R::plus_associates(bg, x, y);
        R::plus_commutes(bg, x);
        R::plus_associates(x, bg, y);
        R::plus_associates(a, x, bg.plus(y));
        R::times_distributes(b, ck.times(fk), g);
    }
}

pub proof fn lemma_dot_zeros<R: Ring>(c: Seq<R>, z: Seq<R>, n: int)
    requires
        forall|k: int| 0 <= k < n ==> #[trigger] z[k] == R::zero_spec(),
    ensures
        dot(c, z, n) == R::zero_spec(),
    decreases n,
{
    if n > 0 {
        lemma_dot_zeros(c, z, n - 1);
        assert(z[n - 1] == R::zero_spec());
        R::zero_absorbs(c[n - 1]);
        R::zero_is_neutral(R::zero_spec());
    }
}

/// Products with a sum of arrays add up.
pub proof fn lemma_dot_plus<R: Ring>(c: Seq<R>, u: Seq<R>, v: Seq<R>, w: Seq<R>, n: int)
    requires
        forall|k: int| 0 <= k < n ==> #[trigger] w[k] == u[k].plus(v[k]),
    ensures
        dot(c, w, n) == dot(c, u, n).plus(dot(c, v, n)),
    decreases n,
{
    if n <= 0 {
        R::zero_is_neutral(R::zero_spec());
    } else {
        lemma_dot_plus(c, u, v, w, n - 1);
        let (ck, uk, vk) = (c[n - 1], u[n - 1], v[n - 1]);
        assert(w[n - 1] == uk.plus(vk));
        R::times_commutes(ck, uk.plus(vk));
        R::times_distributes(uk, vk, ck);
        R::times_commutes(uk, ck);
        R::times_commutes(vk, ck);
        lemma_pairs(dot(c, u, n - 1), dot(c, v, n - 1), ck.times(uk), ck.times(vk));
    }
}

/// Products that agree one by one add up to the same.
pub proof fn lemma_dot_agrees<R: Ring>(t: Seq<R>, g: Seq<R>, u: Seq<R>, p: Seq<R>, n: int)
    requires
        forall|k: int| 0 <= k < n ==> (#[trigger] t[k]).times(g[k]) == u[k].times(p[k]),
    ensures
        dot(t, g, n) == dot(u, p, n),
    decreases n,
{
    if n > 0 {
        lemma_dot_agrees(t, g, u, p, n - 1);
        let last = t[n - 1];
    }
}

/// Products that are each the sum of two others.
pub proof fn lemma_dot_of_two<R: Ring>(
    t: Seq<R>,
    g: Seq<R>,
    u: Seq<R>,
    p: Seq<R>,
    v: Seq<R>,
    q: Seq<R>,
    n: int,
)
    requires
        forall|k: int|
            0 <= k < n ==> (#[trigger] t[k]).times(g[k]) == u[k].times(p[k]).plus(
                v[k].times(q[k]),
            ),
    ensures
        dot(t, g, n) == dot(u, p, n).plus(dot(v, q, n)),
    decreases n,
{
    if n <= 0 {
        R::zero_is_neutral(R::zero_spec());
    } else {
        lemma_dot_of_two(t, g, u, p, v, q, n - 1);
        let last = t[n - 1];
        lemma_pairs(
            dot(u, p, n - 1),
            dot(v, q, n - 1),
            u[n - 1].times(p[n - 1]),
            v[n - 1].times(q[n - 1]),
        );
    }
}

/// A product with one factor negated, whichever it is.
pub proof fn lemma_negated_factor<R: Ring>(a: R, b: R)
    ensures
        a.negated().times(b) == a.times(b.negated()),
{
    let (c, d) = (a.negated().times(b), a.times(b.negated()));
    let ab = a.times(b);
    // both cancel a b
    R::negation_cancels(a);
    R::times_distributes(a, a.negated(), b);
    R::times_commutes(R::zero_spec(), b);
    R::zero_absorbs(b);
    R::negation_cancels(b);
    R::times_distributes(b, b.negated(), a);
    R::times_commutes(R::zero_spec(), a);
    R::zero_absorbs(a);
    R::times_commutes(b, a);
    R::times_commutes(b.negated(), a);
    R::plus_commutes(ab, c);
    R::plus_commutes(ab, d);
    lemma_cancel(c, d, ab);
}

/// Four summands, paired one way or the other.
pub proof fn lemma_pairs<R: Ring>(a: R, b: R, x: R, y: R)
    ensures
        a.plus(b).plus(x.plus(y)) == a.plus(x).plus(b.plus(y)),
{
    R::plus_associates(a, b, x.plus(y));
    R::plus_associates(b, x, y);
    R::plus_commutes(b, x);
    R::plus_associates(x, b, y);
    R::plus_associates(a, x, b.plus(y));
}

/// What is added to both sides can be taken away from both.
pub proof fn lemma_cancel<R: Ring>(a: R, b: R, c: R)
    requires
        a.plus(c) == b.plus(c),
    ensures
        a == b,
{
    let d = c.negated();
    R::plus_associates(a, c, d);
    R::plus_associates(b, c, d);
    R::negation_cancels(c);
    R::zero_is_neutral(a);
    R::zero_is_neutral(b);
}

} // verus!
