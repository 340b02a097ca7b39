//! The pseudo-random source: a counter that advances by a fixed odd step, scrambled
//! into the numbers drawn.
use crate::index::{checked_volume, volume};
use crate::laws::chance::the_last_place_is_drawn_first;
use crate::tensor::{copy_of, is_permutation, Array, Tensor};
use vstd::arithmetic::div_mod::*;
use vstd::prelude::*;
use vstd::wrapping::u64_specs;

verus! {

/// The seed of a generator that was given none.
pub const DEFAULT_SEED: u64 = 0x2545_F491_4F6C_DD1D;

/// The step of the counter.
pub const GOLDEN_GAMMA: u64 = 0x9E37_79B9_7F4A_7C15;

/// A generator of pseudo-random numbers.
#[derive(Debug, Clone, PartialEq, Eq)]
pub struct Rng {
    pub state: u64,
}

/// The counter after one step.
pub open spec fn advance(state: u64) -> u64 {
    u64_specs::wrapping_add(state, GOLDEN_GAMMA)
}

/// The number that a counter value is scrambled into.
pub open spec fn scramble(state: u64) -> u64 {
    let y = u64_specs::wrapping_mul(state ^ (state >> 30u64), 0xBF58_476D_1CE4_E5B9);
    let z = u64_specs::wrapping_mul(y ^ (y >> 27u64), 0x94D0_49BB_1331_11EB);
    z ^ (z >> 31u64)
}

/// The counter after `k` steps.
pub open spec fn nth_state(state: u64, k: nat) -> u64
    decreases k,
{
    if k == 0 {
        state
    } else {
        advance(nth_state(state, (k - 1) as nat))
    }
}

/// The numerator over `2^53` of the `k`-th uniform draw.
pub open spec fn numerator(state: u64, k: nat) -> u64 {
    scramble(nth_state(state, k)) >> 11u64
}

/// Whether `f` makes each element of the next two draws behind a counter value.
pub open spec fn drawn_in_pairs<T, F: Fn(u64, u64) -> T>(f: F, state: u64, data: Seq<T>) -> bool {
    forall|i: int|
        0 <= i < data.len() ==> call_ensures(
            f,
            (numerator(state, (2 * i + 1) as nat), numerator(state, (2 * i + 2) as nat)),
            #[trigger] data[i],
        )
}

/// Whether `f` makes each element of the next draw behind a counter value.
pub open spec fn drawn_singly<T, F: Fn(u64) -> T>(f: F, state: u64, data: Seq<T>) -> bool {
    forall|i: int|
        0 <= i < data.len() ==> call_ensures(
            f,
            (numerator(state, (i + 1) as nat),),
            #[trigger] data[i],
        )
}

/// The size of the incomplete last block when the 64-bit numbers are dealt out in
/// blocks of `bound`.
pub open spec fn reject_below(bound: u64) -> u64 {
    ((0x1_0000_0000_0000_0000 - bound) % (bound as int)) as u64
}

/// Whether draw `k`, counting from 0, is the first one outside the incomplete block.
pub open spec fn first_accepted(state: u64, bound: u64, k: nat) -> bool {
    &&& scramble(nth_state(state, k + 1)) >= reject_below(bound)
    &&& forall|j: nat|
        j < k ==> scramble(#[trigger] nth_state(state, j + 1)) < reject_below(bound)
}

/// The counter after the first accepted draw.
pub open spec fn settled(state: u64, bound: u64) -> u64 {
    let k = choose|k: nat| first_accepted(state, bound, k);
    nth_state(state, k + 1)
}

/// The number below `bound` that the first accepted draw gives.
pub open spec fn pick(state: u64, bound: u64) -> u64 {
    scramble(settled(state, bound)) % bound
}

pub open spec fn swapped(s: Seq<usize>, i: int, j: int) -> Seq<usize> {
    s.update(i, s[j]).update(j, s[i])
}

/// The list after each place from `i` down to 1 has been exchanged with a place drawn
/// from those not beyond it, and the counter after those draws.
pub open spec fn shuffled(s: Seq<usize>, state: u64, i: int) -> (Seq<usize>, u64)
    decreases i,
{
    if i <= 0 {
        (s, state)
    } else {
        shuffled(
            swapped(s, i, pick(state, (i + 1) as u64) as int),
            settled(state, (i + 1) as u64),
            i - 1,
        )
    }
}

/// The numbers from 0 up to `n`.
pub open spec fn counting(n: nat) -> Seq<usize> {
    Seq::new(n, |i: int| i as usize)
}

spec fn range() -> int {
    0x1_0000_0000_0000_0000
}

/// The inverse of the step modulo `2^64`.
spec fn inverse_gamma() -> int {
    0xF1DE_83E1_9937_733D
}

/// A counter value whose number lies in the upper half, and is accepted whatever the
/// bound.
spec fn lucky() -> u64 {
    2
}

/// How many steps lie ahead before the counter reaches [`lucky`], less one.
spec fn distance(state: u64) -> int {
    ((lucky() - state) * inverse_gamma() - 1) % range()
}

proof fn lemma_lucky()
    ensures
        scramble(lucky()) >= 0x8000_0000_0000_0000,
{
    assert(2u64 ^ (2u64 >> 30u64) == 2u64) by (bit_vector);
    let y = u64_specs::wrapping_mul(2u64, 0xBF58_476D_1CE4_E5B9);
    assert(y == 0x7EB0_8EDA_39C9_CB72);
    assert(0x7EB0_8EDA_39C9_CB72u64 ^ (0x7EB0_8EDA_39C9_CB72u64 >> 27u64)
        == 0x7EB0_8ED5_EFD8_1035u64) by (bit_vector);
    let z = u64_specs::wrapping_mul(0x7EB0_8ED5_EFD8_1035u64, 0x94D0_49BB_1331_11EB);
    assert(z == 0xDBD2_3896_8D8F_65A7);
    assert(0xDBD2_3896_8D8F_65A7u64 ^ (0xDBD2_3896_8D8F_65A7u64 >> 31u64)
        >= 0x8000_0000_0000_0000u64) by (bit_vector);
}

/// Each step brings the counter one closer to [`lucky`].
proof fn lemma_distance(state: u64)
    ensures
        0 <= distance(state) < range(),
        distance(state) == 0 ==> advance(state) == lucky(),
        distance(state) > 0 ==> distance(advance(state)) == distance(state) - 1,
{
    let m = range();
    let gamma = GOLDEN_GAMMA as int;
    let inv = inverse_gamma();
    let d = lucky() - state;
    let next = advance(state);
    lemma_mod_bound(d * inv - 1, m);
    let wraps: int = if state + gamma >= m {
        1
    } else {
        0
    };
    assert(next == state + gamma - wraps * m);
    let q = (gamma * inv) / m;
    lemma_fundamental_div_mod(gamma * inv, m);
    assert((gamma * inv) % m == 1);
    let e = lucky() - next;
    assert(e == d - gamma + wraps * m);
    assert((d - gamma + wraps * m) * inv == d * inv - gamma * inv + (wraps * inv) * m)
        by (nonlinear_arith);
    assert(e * inv - 1 == (d * inv - 1) - 1 + m * (wraps * inv - q)) by (nonlinear_arith)
        requires
            e * inv == d * inv - gamma * inv + (wraps * inv) * m,
            gamma * inv == m * q + 1,
    ;
    lemma_mod_multiples_vanish(wraps * inv - q, d * inv - 2, m);
    assert(distance(next) == (d * inv - 2) % m);
    if distance(state) > 0 {
        lemma_mod_less(d * inv - 1, m);
    } else {
        lemma_zero_distance(state, next, d, wraps, q);
    }
}

proof fn lemma_mod_less(a: int, m: int)
    requires
        m > 1,
        a % m > 0,
    ensures
        (a - 1) % m == a % m - 1,
{
    lemma_fundamental_div_mod(a, m);
    lemma_mod_bound(a, m);
    assert((a / m) * m == m * (a / m)) by (nonlinear_arith);
    lemma_fundamental_div_mod_converse(a - 1, m, a / m, a % m - 1);
}

/// A counter value from which no steps remain moves to [`lucky`].
proof fn lemma_zero_distance(state: u64, next: u64, d: int, wraps: int, q: int)
    requires
        d == lucky() - state,
        (d * inverse_gamma() - 1) % range() == 0,
        next == advance(state),
        next == state + GOLDEN_GAMMA - wraps * range(),
        GOLDEN_GAMMA * inverse_gamma() == range() * q + 1,
    ensures
        next == lucky(),
{
    let m = range();
    let gamma = GOLDEN_GAMMA as int;
    let inv = inverse_gamma();
    let t = (d * inv - 1) / m;
    lemma_fundamental_div_mod(d * inv - 1, m);
    assert(d * inv == 1 + m * t);
    let e = lucky() - next;
    assert(e * 1 == d - gamma + wraps * m);
    assert(d * (gamma * inv) == gamma * (d * inv)) by (nonlinear_arith);
    assert(d * (m * q + 1) == m * (d * q) + d) by (nonlinear_arith);
    assert(gamma * (1 + m * t) == gamma + m * (gamma * t)) by (nonlinear_arith);
    let k = gamma * t - d * q + wraps;
    assert(d - gamma == m * (gamma * t) - m * (d * q));
    assert(m * (gamma * t) - m * (d * q) + wraps * m == m * k) by (nonlinear_arith)
        requires
            k == gamma * t - d * q + wraps,
    ;
    assert(e == m * k);
    assert(-m < e < m);
    assert(k == 0) by (nonlinear_arith)
        requires
            -m < m * k < m,
            m > 0,
    ;
}

/// The incomplete block covers at most half of the numbers.
proof fn lemma_reject_bound(bound: u64)
    requires
        bound > 0,
    ensures
        reject_below(bound) < bound,
        reject_below(bound) <= 0x8000_0000_0000_0000,
{
    let m = range();
    let b = bound as int;
    lemma_mod_bound(m - b, b);
    if b > 0x8000_0000_0000_0000 {
        lemma_small_mod((m - b) as nat, b as nat);
    }
}

proof fn lemma_settled(state: u64, bound: u64, k: nat)
    requires
        first_accepted(state, bound, k),
    ensures
        settled(state, bound) == nth_state(state, k + 1),
{
    let c = choose|c: nat| first_accepted(state, bound, c);
    if c < k {
        assert(scramble(nth_state(state, c + 1)) < reject_below(bound));
    } else if k < c {
        assert(scramble(nth_state(state, k + 1)) < reject_below(bound));
    }
}

/// The accepted draws fall evenly on the numbers below the bound: how many there are is
/// a multiple of it.
pub proof fn accepted_draws_split_evenly(bound: u64)
    requires
        bound > 0,
    ensures
        (0x1_0000_0000_0000_0000 - reject_below(bound)) % (bound as int) == 0,
{
    let m = range();
    let b = bound as int;
    lemma_reject_bound(bound);
    lemma_fundamental_div_mod(m - b, b);
    let q = (m - b) / b;
    assert(m - reject_below(bound) == b * (q + 1)) by (nonlinear_arith)
        requires
            m - b == b * q + reject_below(bound),
    ;
    lemma_mod_multiples_basic(q + 1, b);
    assert((q + 1) * b == b * (q + 1)) by (nonlinear_arith);
}

impl Rng {
    pub fn new(seed: u64) -> (r: Rng)
        ensures
            r == (Rng { state: seed }),
    {
        Rng { state: seed }
    }

    /// Draws a 64-bit number.
    pub fn next_u64(&mut self) -> (r: u64)
        ensures
            final(self).state == advance(old(self).state),
            r == scramble(final(self).state),
    {
        self.state = self.state.wrapping_add(GOLDEN_GAMMA);
        let x: u64 = self.state;
        let y: u64 = (x ^ (x >> 30u64)).wrapping_mul(0xBF58_476D_1CE4_E5B9);
        let z: u64 = (y ^ (y >> 27u64)).wrapping_mul(0x94D0_49BB_1331_11EB);
        z ^ (z >> 31u64)
    }

    /// Draws a 53-bit number: the numerator, over `2^53`, of a draw between 0 and 1.
    pub fn next_numerator(&mut self) -> (r: u64)
        ensures
            final(self).state == advance(old(self).state),
            r == scramble(final(self).state) >> 11u64,
            r < 0x20_0000_0000_0000,
    {
        let draw: u64 = self.next_u64();
        assert(draw >> 11u64 < 0x20_0000_0000_0000u64) by (bit_vector);
        draw >> 11u64
    }

    /// Draws a number below `n`, every one equally likely: draws from the incomplete
    /// last block are thrown away.
    pub fn below(&mut self, n: usize) -> (r: usize)
        requires
            n > 0,
        ensures
            exists|k: nat| #[trigger] first_accepted(old(self).state, n as u64, k),
            final(self).state == settled(old(self).state, n as u64),
            r == pick(old(self).state, n as u64),
            r < n,
    {
        let bound: u64 = n as u64;
        let reject: u64 = 0u64.wrapping_sub(bound) % bound;
        let ghost start = self.state;
        let ghost mut tries: nat = 0;
        proof {
            lemma_reject_bound(bound);
            assert(reject == reject_below(bound));
        }
        loop
            invariant
                bound == n,
                n > 0,
                reject == reject_below(bound),
                reject <= 0x8000_0000_0000_0000,
                self.state == nth_state(start, tries),
                forall|j: nat|
                    j < tries ==> scramble(#[trigger] nth_state(start, j + 1)) < reject,
                start == old(self).state,
            decreases distance(self.state),
        {
            let ghost before = self.state;
            let draw: u64 = self.next_u64();
            proof {
                assert(self.state == nth_state(start, tries + 1));
                lemma_distance(before);
                lemma_distance(self.state);
                lemma_lucky();
            }
            if draw >= reject {
                proof {
                    assert(first_accepted(old(self).state, n as u64, tries));
                    lemma_settled(start, bound, tries);
                }
                return (draw % bound) as usize;
            }
            proof {
                tries = tries + 1;
            }
        }
    }

    /// An array of elements that `f` makes of two draws each, in row-major order: the
    /// numerators over `2^53` of two uniform draws.
    pub fn randn<T, F: Fn(u64, u64) -> T>(&mut self, shape: &[usize], f: &F) -> (r: Tensor<T>)
        requires
            volume(shape@) <= usize::MAX,
            forall|a: u64, b: u64| #[trigger] call_requires(*f, (a, b)),
        ensures
            r.wf(),
            r@.shape == shape@,
            final(self).state == nth_state(old(self).state, 2 * volume(shape@)),
            drawn_in_pairs(*f, old(self).state, r@.data),
    {
        let count: usize = match checked_volume(shape) {
            Some(v) => v,
            None => 0,
        };
        let ghost start = self.state;
        let mut data: Vec<T> = Vec::new();
        let mut i: usize = 0;
        while i < count
            invariant
                i <= count,
                self.state == nth_state(start, (2 * i) as nat),
                forall|a: u64, b: u64| #[trigger] call_requires(*f, (a, b)),
                data@.len() == i,
                forall|j: int|
                    0 <= j < i ==> call_ensures(
                        *f,
                        (
                            numerator(start, (2 * j + 1) as nat),
                            numerator(start, (2 * j + 2) as nat),
                        ),
                        #[trigger] data@[j],
                    ),
            decreases count - i,
        {
            let a: u64 = self.next_numerator();
            assert(self.state == nth_state(start, (2 * i + 1) as nat));
            let b: u64 = self.next_numerator();
            assert(self.state == nth_state(start, (2 * i + 2) as nat));
            assert(call_requires(*f, (a, b)));
            let x: T = f(a, b);
            data.push(x);
            i = i + 1;
        }
        Tensor { shape: copy_of(shape), data }
    }

    /// An array of elements that `f` makes of one draw each, in row-major order: the
    /// numerator over `2^53` of a uniform draw.
    pub fn rand<T, F: Fn(u64) -> T>(&mut self, shape: &[usize], f: &F) -> (r: Tensor<T>)
        requires
            volume(shape@) <= usize::MAX,
            forall|a: u64| #[trigger] call_requires(*f, (a,)),
        ensures
            r.wf(),
            r@.shape == shape@,
            final(self).state == nth_state(old(self).state, volume(shape@)),
            drawn_singly(*f, old(self).state, r@.data),
    {
        let count: usize = match checked_volume(shape) {
            Some(v) => v,
            None => 0,
        };
        let ghost start = self.state;
        let mut data: Vec<T> = Vec::new();
        let mut i: usize = 0;
        while i < count
            invariant
                i <= count,
                self.state == nth_state(start, i as nat),
                forall|a: u64| #[trigger] call_requires(*f, (a,)),
                data@.len() == i,
                forall|j: int|
                    0 <= j < i ==> call_ensures(
                        *f,
                        (numerator(start, (j + 1) as nat),),
                        #[trigger] data@[j],
                    ),
            decreases count - i,
        {
            let a: u64 = self.next_numerator();
            assert(self.state == nth_state(start, (i + 1) as nat));
            assert(call_requires(*f, (a,)));
            let x: T = f(a);
            data.push(x);
            i = i + 1;
        }
        Tensor { shape: copy_of(shape), data }
    }

    /// A random order of the numbers below `n`.
    pub fn permutation(&mut self, n: usize) -> (order: Vec<usize>)
        ensures
            (order@, final(self).state) == shuffled(counting(n as nat), old(self).state, n - 1),
            is_permutation(order@, n as nat),
            n > 1 ==> order@[n - 1] == pick(old(self).state, n as u64),
    {
        proof {
            if n > 1 {
                the_last_place_is_drawn_first(n as nat, self.state);
            }
        }
        let mut order: Vec<usize> = Vec::new();
        let mut k: usize = 0;
        while k < n
            invariant
                k <= n,
                order@.len() == k,
                forall|j: int| 0 <= j < k ==> #[trigger] order@[j] == j,
            decreases n - k,
        {
            order.push(k);
            k = k + 1;
        }
        let ghost start = self.state;
        proof {
            assert(order@ =~= counting(n as nat));
            lemma_counting(n as nat);
        }
        if n == 0 {
            return order;
        }
        let mut i: usize = n - 1;
        while i > 0
            invariant
                i < n,
                order@.len() == n,
                is_permutation(order@, n as nat),
                shuffled(order@, self.state, i as int) == shuffled(
                    counting(n as nat),
                    start,
                    n - 1,
                ),
            decreases i,
        {
            let ghost before = order@;
            let j: usize = self.below(i + 1);
            let a: usize = order[i];
            let b: usize = order[j];
            order.set(i, b);
            order.set(j, a);
            proof {
                assert(order@ =~= swapped(before, i as int, j as int));
                lemma_swap(before, n as nat, i as int, j as int);
            }
            i = i - 1;
        }
        order
    }
}

pub proof fn lemma_counting(n: nat)
    requires
        n <= usize::MAX,
    ensures
        is_permutation(counting(n), n),
{
    let s = counting(n);
    assert forall|a: int| 0 <= a < n implies #[trigger] s.contains(a as usize) by {
        assert(s[a] == a as usize);
    }
}

proof fn lemma_swap(s: Seq<usize>, n: nat, i: int, j: int)
    requires
        is_permutation(s, n),
        0 <= i < n,
        0 <= j < n,
    ensures
        is_permutation(swapped(s, i, j), n),
{
    let t = swapped(s, i, j);
    assert forall|a: int| 0 <= a < n implies #[trigger] t.contains(a as usize) by {
        assert(s.contains(a as usize));
        let k = s.index_of(a as usize);
        assert(s[k] == a as usize);
        if k == i {
            assert(t[j] == a as usize);
        } else if k == j {
            assert(t[i] == a as usize);
        } else {
            assert(t[k] == a as usize);
        }
    }
    assert forall|p: int, q: int| 0 <= p < q < n implies #[trigger] t[p] != #[trigger] t[q] by {
        let p0 = if p == i {
            j
        } else if p == j {
            i
        } else {
            p
        };
        let q0 = if q == i {
            j
        } else if q == j {
            i
        } else {
            q
        };
        assert(t[p] == s[p0] && t[q] == s[q0]);
        if p0 < q0 {
            assert(s[p0] != s[q0]);
        } else {
            assert(s[q0] != s[p0]);
        }
    }
    assert forall|p: int| 0 <= p < n implies #[trigger] t[p] < n by {
        assert(s[p] < n && s[i] < n && s[j] < n);
    }
}

impl Default for Rng {
    fn default() -> (r: Rng)
        ensures
            r.state == DEFAULT_SEED,
    {
        Rng::new(DEFAULT_SEED)
    }
}

/// Starts a generator over from `seed`, whatever was drawn from it before.
pub fn seed(rng: &mut Rng, seed: u64)
    ensures
        *final(rng) == (Rng { state: seed }),
{
    *rng = Rng::new(seed);
}

/// A stream that was started over draws what a new one draws: where `f` makes one thing
/// of two numbers, arrays of one shape drawn from equal generators are equal.
pub proof fn a_seeded_stream_is_a_new_one<T, F: Fn(u64, u64) -> T>(
    f: F,
    seeded: Rng,
    fresh: Rng,
    a: Array<T>,
    b: Array<T>,
)
    requires
        seeded == fresh,
        forall|m: u64, n: u64, x: T, y: T| #[trigger]
            call_ensures(f, (m, n), x) && #[trigger] call_ensures(f, (m, n), y) ==> x == y,
        a.wf(),
        b.wf(),
        a.shape == b.shape,
        drawn_in_pairs(f, seeded.state, a.data),
        drawn_in_pairs(f, fresh.state, b.data),
    ensures
        a == b,
        nth_state(seeded.state, 2 * volume(a.shape)) == nth_state(
            fresh.state,
            2 * volume(b.shape),
        ),
{
    assert forall|i: int| 0 <= i < a.data.len() implies a.data[i] == b.data[i] by {
        let (m, n) = (
            numerator(fresh.state, (2 * i + 1) as nat),
            numerator(fresh.state, (2 * i + 2) as nat),
        );
        assert(call_ensures(f, (m, n), a.data[i]));
        assert(call_ensures(f, (m, n), b.data[i]));
    }
    assert(a.data =~= b.data);
}

/// Two generators with the same seed give the same order.
pub proof fn permutations_are_reproducible(n: nat, a: Rng, b: Rng)
    requires
        a.state == b.state,
    ensures
        shuffled(counting(n), a.state, n - 1) == shuffled(counting(n), b.state, n - 1),
{
}

} // verus!
