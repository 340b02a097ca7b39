//! The element type of a tensor.
//!
//! Every tensor operation is written against [`Scalar`], which names the
//! operations that the framework performs on elements without assuming any
//! algebraic law of them: rounding arithmetic is a `Scalar` too. The laws that
//! relate two operations (an adjoint, a fold that undoes a broadcast) hold where
//! the elements form a commutative ring, which is what [`Ring`] adds.
use vstd::arithmetic::div_mod::*;
use vstd::prelude::*;
use vstd::wrapping::i64_specs;

verus! {

/// What the framework does with one element.
pub trait Scalar: Copy + Sized {
    /// The value that an empty sum has.
    closed spec fn zero_spec() -> Self {
        arbitrary()
    }

    /// The value that a gradient is seeded with.
    closed spec fn one_spec() -> Self {
        arbitrary()
    }

    /// The element that stands for the natural number `n`.
    closed spec fn count_spec(n: usize) -> Self {
        arbitrary()
    }

    closed spec fn plus(self, other: Self) -> Self {
        arbitrary()
    }

    closed spec fn minus(self, other: Self) -> Self {
        arbitrary()
    }

    closed spec fn times(self, other: Self) -> Self {
        arbitrary()
    }

    closed spec fn over(self, other: Self) -> Self {
        arbitrary()
    }

    closed spec fn negated(self) -> Self {
        arbitrary()
    }

    /// Whether `self` is strictly greater than `other`.
    closed spec fn exceeds(self, other: Self) -> bool {
        arbitrary()
    }

    fn zero() -> (r: Self)
        ensures
            r == Self::zero_spec(),
    ;

    fn one() -> (r: Self)
        ensures
            r == Self::one_spec(),
    ;

    fn from_count(n: usize) -> (r: Self)
        ensures
            r == Self::count_spec(n),
    ;

    fn add(self, other: Self) -> (r: Self)
        ensures
            r == self.plus(other),
    ;

    fn sub(self, other: Self) -> (r: Self)
        ensures
            r == self.minus(other),
    ;

    fn mul(self, other: Self) -> (r: Self)
        ensures
            r == self.times(other),
    ;

    fn div(self, other: Self) -> (r: Self)
        ensures
            r == self.over(other),
    ;

    fn neg(self) -> (r: Self)
        ensures
            r == self.negated(),
    ;

    fn gt(self, other: Self) -> (r: bool)
        ensures
            r == self.exceeds(other),
    ;
}

/// A [`Scalar`] whose sums and products obey the laws of a commutative ring.
pub trait Ring: Scalar {
    proof fn plus_commutes(a: Self, b: Self)
        ensures
            a.plus(b) == b.plus(a),
    ;

    proof fn plus_associates(a: Self, b: Self, c: Self)
        ensures
            a.plus(b).plus(c) == a.plus(b.plus(c)),
    ;

    proof fn zero_is_neutral(a: Self)
        ensures
            a.plus(Self::zero_spec()) == a,
    ;

    proof fn times_commutes(a: Self, b: Self)
        ensures
            a.times(b) == b.times(a),
    ;

    proof fn times_associates(a: Self, b: Self, c: Self)
        ensures
            a.times(b).times(c) == a.times(b.times(c)),
    ;

    proof fn times_distributes(a: Self, b: Self, c: Self)
        ensures
            a.plus(b).times(c) == a.times(c).plus(b.times(c)),
    ;

    proof fn one_is_neutral(a: Self)
        ensures
            a.times(Self::one_spec()) == a,
    ;

    proof fn zero_absorbs(a: Self)
        ensures
            a.times(Self::zero_spec()) == Self::zero_spec(),
    ;

    proof fn negation_cancels(a: Self)
        ensures
            a.plus(a.negated()) == Self::zero_spec(),
    ;

    proof fn minus_adds_the_negation(a: Self, b: Self)
        ensures
            a.minus(b) == a.plus(b.negated()),
    ;

    proof fn two_doubles(a: Self)
        ensures
            Self::count_spec(2).times(a) == a.plus(a),
    ;
}

/// Integers modulo `2^64`, on which every law holds exactly.
impl Scalar for i64 {
    open spec fn zero_spec() -> i64 {
        0
    }

    open spec fn one_spec() -> i64 {
        1
    }

    open spec fn count_spec(n: usize) -> i64 {
        n as i64
    }

    open spec fn plus(self, other: i64) -> i64 {
        i64_specs::wrapping_add(self, other)
    }

    open spec fn minus(self, other: i64) -> i64 {
        i64_specs::wrapping_sub(self, other)
    }

    open spec fn times(self, other: i64) -> i64 {
        i64_specs::wrapping_mul(self, other)
    }

    /// The quotient rounded towards zero, and zero where there is none.
    open spec fn over(self, other: i64) -> i64 {
        if other == 0 || (self == i64::MIN && other == -1) {
            0
        } else if (self >= 0) == (other > 0) {
            (abs(self as int) / abs(other as int)) as i64
        } else {
            (-(abs(self as int) / abs(other as int))) as i64
        }
    }

    open spec fn negated(self) -> i64 {
        i64_specs::wrapping_sub(0, self)
    }

    open spec fn exceeds(self, other: i64) -> bool {
        self > other
    }

    fn zero() -> (r: i64) {
        0
    }

    fn one() -> (r: i64) {
        1
    }

    fn from_count(n: usize) -> (r: i64) {
        n as i64
    }

    fn add(self, other: i64) -> (r: i64) {
        self.wrapping_add(other)
    }

    fn sub(self, other: i64) -> (r: i64) {
        self.wrapping_sub(other)
    }

    fn mul(self, other: i64) -> (r: i64) {
        self.wrapping_mul(other)
    }

    fn div(self, other: i64) -> (r: i64) {
        if other == 0 || (self == i64::MIN && other == -1) {
            return 0;
        }
        let a: i128 = if self < 0 {
            -(self as i128)
        } else {
            self as i128
        };
        let b: i128 = if other < 0 {
            -(other as i128)
        } else {
            other as i128
        };
        let q: i128 = a / b;
        proof {
            lemma_fundamental_div_mod(a as int, b as int);
            assert(0 <= q <= a) by (nonlinear_arith)
                requires
                    a >= 0,
                    b >= 1,
                    q == a as int / b as int,
            ;
            if b >= 2 {
                assert(2 * q <= a) by (nonlinear_arith)
                    requires
                        a >= 0,
                        b >= 2,
                        q == a as int / b as int,
                ;
            }
        }
        if (self >= 0) == (other > 0) {
            q as i64
        } else {
            (-q) as i64
        }
    }

    fn neg(self) -> (r: i64) {
        0i64.wrapping_sub(self)
    }

    fn gt(self, other: i64) -> (r: bool) {
        self > other
    }
}

pub open spec fn abs(x: int) -> int {
    if x < 0 {
        -x
    } else {
        x
    }
}

spec fn modulus() -> int {
    0x1_0000_0000_0000_0000
}

/// Cropping to 64 bits subtracts a multiple of the modulus.
proof fn crop_is_congruent(x: int) -> (k: int)
    ensures
        i64_specs::signed_crop(x) == x - k * modulus(),
{
    let q = x / modulus();
    lemma_fundamental_div_mod(x, modulus());
    assert(modulus() * q == q * modulus()) by (nonlinear_arith);
    assert((q + 1) * modulus() == q * modulus() + modulus()) by (nonlinear_arith);
    if x % modulus() > i64::MAX {
        q + 1
    } else {
        q
    }
}

proof fn crop_ignores_multiples(x: int, k: int)
    ensures
        i64_specs::signed_crop(x - k * modulus()) == i64_specs::signed_crop(x),
{
    lemma_mod_multiples_vanish(-k, x, modulus());
    assert(modulus() * (-k) + x == x - k * modulus()) by (nonlinear_arith);
}

proof fn plus_is_cropped(a: i64, b: i64)
    ensures
        a.plus(b) == i64_specs::signed_crop(a + b),
{
    let s = a + b;
    if s < 0 {
        crop_ignores_multiples(s, -1);
        lemma_small_mod((s + modulus()) as nat, modulus() as nat);
    } else {
        lemma_small_mod(s as nat, modulus() as nat);
    }
}

proof fn minus_is_cropped(a: i64, b: i64)
    ensures
        a.minus(b) == i64_specs::signed_crop(a - b),
{
    let s = a - b;
    if s < 0 {
        crop_ignores_multiples(s, -1);
        lemma_small_mod((s + modulus()) as nat, modulus() as nat);
    } else {
        lemma_small_mod(s as nat, modulus() as nat);
    }
}

impl Ring for i64 {
    proof fn plus_commutes(a: i64, b: i64) {
    }

    proof fn plus_associates(a: i64, b: i64, c: i64) {
        plus_is_cropped(a, b);
        plus_is_cropped(b, c);
        plus_is_cropped(a.plus(b), c);
        plus_is_cropped(a, b.plus(c));
        let k = crop_is_congruent(a + b);
        let l = crop_is_congruent(b + c);
        crop_ignores_multiples(a + b + c, k);
        crop_ignores_multiples(a + b + c, l);
    }

    proof fn zero_is_neutral(a: i64) {
    }

    proof fn times_commutes(a: i64, b: i64) {
        assert(a * b == b * a) by (nonlinear_arith);
    }

    proof fn times_associates(a: i64, b: i64, c: i64) {
        let k = crop_is_congruent(a * b);
        let l = crop_is_congruent(b * c);
        let m = modulus();
        assert((a * b - k * m) * c == a * b * c - (k * c) * m) by (nonlinear_arith);
        assert(a * (b * c - l * m) == a * b * c - (a * l) * m) by (nonlinear_arith);
        crop_ignores_multiples(a * b * c, k * c);
        crop_ignores_multiples(a * b * c, a * l);
    }

    proof fn times_distributes(a: i64, b: i64, c: i64) {
        plus_is_cropped(a, b);
        plus_is_cropped(a.times(c), b.times(c));
        let m = modulus();
        let k = crop_is_congruent(a + b);
        let p = crop_is_congruent(a * c);
        let q = crop_is_congruent(b * c);
        assert((a + b - k * m) * c == a * c + b * c - (k * c) * m) by (nonlinear_arith);
        assert(a * c - p * m + (b * c - q * m) == a * c + b * c - (p + q) * m) by (nonlinear_arith);
        crop_ignores_multiples(a * c + b * c, k * c);
        crop_ignores_multiples(a * c + b * c, p + q);
    }

    proof fn zero_absorbs(a: i64) {
        lemma_small_mod(0, modulus() as nat);
    }

    proof fn negation_cancels(a: i64) {
        minus_is_cropped(0, a);
        plus_is_cropped(a, a.negated());
        let k = crop_is_congruent(-a);
        crop_ignores_multiples(0, k);
        lemma_small_mod(0, modulus() as nat);
    }

    proof fn minus_adds_the_negation(a: i64, b: i64) {
        minus_is_cropped(0, b);
        minus_is_cropped(a, b);
        plus_is_cropped(a, b.negated());
        let k = crop_is_congruent(-b);
        crop_ignores_multiples(a - b, k);
    }

    proof fn one_is_neutral(a: i64) {
        plus_is_cropped(a, 0);
        Self::zero_is_neutral(a);
        assert(a * 1 == a + 0);
    }

    proof fn two_doubles(a: i64) {
        plus_is_cropped(a, a);
        assert(2 * a == a + a);
    }
}

} // verus!
