//! What is drawn, and in which order things are put by it.
use crate::utils::random::{
    advance, counting, drawn_in_pairs, drawn_singly, first_accepted, nth_state, numerator, pick,
    reject_below, scramble, settled, shuffled,
};
use vstd::arithmetic::div_mod::{
    lemma_add_mod_noop, lemma_mod_add_multiples_vanish, lemma_small_mod,
};
use vstd::prelude::*;

verus! {

/// After `k` draws the counter has gone `k` steps of the same odd length, around the circle
/// of the 64-bit numbers.
pub proof fn the_counter_goes_in_equal_steps(state: u64, k: nat)
    ensures
        nth_state(state, k) as int == (state + k * 0x9E37_79B9_7F4A_7C15)
            % 0x1_0000_0000_0000_0000,
    decreases k,
{
    let m: int = 0x1_0000_0000_0000_0000;
    let step: int = 0x9E37_79B9_7F4A_7C15;
    if k == 0 {
        lemma_small_mod(state as nat, m as nat);
    } else {
        let less = (k - 1) as nat;
        the_counter_goes_in_equal_steps(state, less);
        let was = state + less * step;
        assert(was + step == state + k * step) by (nonlinear_arith)
            requires
                was == state + less * step,
                k == less + 1,
        ;
        let now = nth_state(state, less) + step;
        assert(nth_state(state, k) == advance(nth_state(state, less)));
        assert(nth_state(state, k) as int == now % m) by {
            if now < m {
                lemma_small_mod(now as nat, m as nat);
            } else {
                lemma_mod_add_multiples_vanish(now - m, m);
                lemma_small_mod((now - m) as nat, m as nat);
            }
        }
        lemma_add_mod_noop(was, step, m);
        lemma_add_mod_noop(was % m, step, m);
        lemma_small_mod(nth_state(state, less) as nat, m as nat);
        lemma_small_mod(step as nat, m as nat);
    }
}

/// Draw `k` behind a counter value, counting from one: the upper 53 bits of what the counter
/// is scrambled into once it has gone `k` steps.
pub open spec fn draw(state: u64, k: int) -> u64 {
    scramble(((state + k * 0x9E37_79B9_7F4A_7C15) % 0x1_0000_0000_0000_0000) as u64) / 2048
}

proof fn lemma_draw(state: u64, k: nat)
    ensures
        numerator(state, k) == draw(state, k as int),
        draw(state, k as int) < 0x20_0000_0000_0000,
{
    the_counter_goes_in_equal_steps(state, k);
    let z = scramble(nth_state(state, k));
    assert(z >> 11u64 == z / 2048) by (bit_vector);
}

/// An array that takes one draw for each element takes them in order.
pub proof fn single_draws_come_in_order<T, F: Fn(u64) -> T>(
    f: F,
    state: u64,
    data: Seq<T>,
    i: int,
)
    requires
        drawn_singly(f, state, data),
        0 <= i < data.len(),
    ensures
        call_ensures(f, (draw(state, i + 1),), data[i]),
        draw(state, i + 1) < 0x20_0000_0000_0000,
{
    lemma_draw(state, (i + 1) as nat);
}

/// An array that takes two draws for each element takes them in order: the first element
/// takes the first two, and so on.
pub proof fn paired_draws_come_in_order<T, F: Fn(u64, u64) -> T>(
    f: F,
    state: u64,
    data: Seq<T>,
    i: int,
)
    requires
        drawn_in_pairs(f, state, data),
        0 <= i < data.len(),
    ensures
        call_ensures(f, (draw(state, 2 * i + 1), draw(state, 2 * i + 2)), data[i]),
        draw(state, 2 * i + 1) < 0x20_0000_0000_0000,
        draw(state, 2 * i + 2) < 0x20_0000_0000_0000,
{
    lemma_draw(state, (2 * i + 1) as nat);
    lemma_draw(state, (2 * i + 2) as nat);
}

/// A draw below a bound is the remainder of the first number drawn that does not lie in the
/// incomplete block: of the numbers below what the bound leaves of `2^64`, none counts.
pub proof fn a_bounded_draw_is_the_first_outside_the_incomplete_block(
    state: u64,
    bound: u64,
    tries: nat,
)
    requires
        bound > 0,
        first_accepted(state, bound, tries),
    ensures
        ({
            let left = 0x1_0000_0000_0000_0000int % (bound as int);
            let drawn = scramble(nth_state(state, tries + 1));
            &&& drawn >= left
            &&& forall|j: nat| j < tries ==> scramble(#[trigger] nth_state(state, j + 1)) < left
            &&& settled(state, bound) == nth_state(state, tries + 1)
            &&& pick(state, bound) == drawn % bound
        }),
{
    let m: int = 0x1_0000_0000_0000_0000;
    let b = bound as int;
    lemma_mod_add_multiples_vanish(m - b, b);
    assert(b + (m - b) == m);
    vstd::arithmetic::div_mod::lemma_mod_bound(m - b, b);
    assert(reject_below(bound) == m % b);
    let c = choose|c: nat| first_accepted(state, bound, c);
    if c < tries {
        assert(scramble(nth_state(state, c + 1)) < reject_below(bound));
    } else if tries < c {
        assert(scramble(nth_state(state, tries + 1)) < reject_below(bound));
    }
}

/// The places beyond those that are shuffled stay as they are.
proof fn lemma_beyond(s: Seq<usize>, state: u64, i: int, k: int)
    requires
        i < k < s.len(),
        s.len() <= usize::MAX,
    ensures
        shuffled(s, state, i).0.len() == s.len(),
        shuffled(s, state, i).0[k] == s[k],
    decreases i,
{
    if i > 0 {
        let j = pick(state, (i + 1) as u64) as int;
        let t = crate::utils::random::swapped(s, i, j);
        assert(j < i + 1);
        lemma_beyond(t, settled(state, (i + 1) as u64), i - 1, k);
    }
}

/// Shuffling fills the places from the last to the first: each gets what stands at a place
/// drawn from those not beyond it, its own among them, and what stood there moves to the
/// place drawn.
pub proof fn a_shuffle_draws_for_each_place(s: Seq<usize>, state: u64, i: int, t: Seq<usize>)
    requires
        0 < i < s.len() <= usize::MAX,
        t.len() == s.len(),
        forall|k: int|
            0 <= k < s.len() ==> #[trigger] t[k] == if k == i {
                s[pick(state, (i + 1) as u64) as int]
            } else if k == pick(state, (i + 1) as u64) {
                s[i]
            } else {
                s[k]
            },
    ensures
        pick(state, (i + 1) as u64) <= i,
        shuffled(s, state, i).0[i] == s[pick(state, (i + 1) as u64) as int],
        shuffled(s, state, i) == shuffled(t, settled(state, (i + 1) as u64), i - 1),
        forall|k: int| i < k < s.len() ==> #[trigger] shuffled(s, state, i).0[k] == s[k],
{
    let j = pick(state, (i + 1) as u64) as int;
    assert(j < i + 1);
    assert(t =~= crate::utils::random::swapped(s, i, j));
    lemma_beyond(t, settled(state, (i + 1) as u64), i - 1, i);
    assert forall|k: int| i < k < s.len() implies #[trigger] shuffled(s, state, i).0[k]
        == s[k] by {
        lemma_beyond(s, state, i, k);
    }
}

/// In a random order the last place holds the number that was drawn first.
pub proof fn the_last_place_is_drawn_first(n: nat, state: u64)
    requires
        1 < n <= usize::MAX,
    ensures
        shuffled(counting(n), state, n - 1).0[n - 1] == pick(state, n as u64),
{
    let s = counting(n);
    let j = pick(state, n as u64) as int;
    let t = s.update(n - 1, s[j]).update(j, s[n - 1]);
    a_shuffle_draws_for_each_place(s, state, n - 1, t);
}

} // verus!
