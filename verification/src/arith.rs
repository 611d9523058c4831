//! The arithmetic that the signal path is written over.
//!
//! The library holds no number format of its own: samples, spectra and network
//! activations are values of a type [`Sample`], and every operation on them is
//! a method of that type. The methods promise nothing by themselves. What a
//! function of this library does with them is stated with the operators of
//! [`Arith`] (`a + b` is the result of `a.plus(b)`, and so on), for arithmetic
//! that is *functional*: each operation's result depends on its operands
//! alone. Which buffers a function reads and writes, and that it stays inside
//! them, holds for every arithmetic.

use vstd::prelude::*;

verus! {

/// A number format: the operations of a floating-point type.
pub trait Real: Sized + Copy {
    /// The number closest to `n / d`.
    fn ratio(n: i64, d: i64) -> Self;

    /// The number closest to the circle constant.
    fn pi() -> Self;

    /// `self + rhs`.
    fn plus(self, rhs: Self) -> Self;

    /// `self - rhs`.
    fn minus(self, rhs: Self) -> Self;

    /// `self * rhs`.
    fn times(self, rhs: Self) -> Self;

    /// `self / rhs`.
    fn over(self, rhs: Self) -> Self;

    /// `-self`.
    fn negated(self) -> Self;

    /// The absolute value.
    fn magnitude(self) -> Self;

    /// The larger of the two numbers.
    fn larger(self, rhs: Self) -> Self;

    /// The smaller of the two numbers.
    fn smaller(self, rhs: Self) -> Self;

    /// The square root.
    fn root(self) -> Self;

    /// The decimal logarithm.
    fn log10(self) -> Self;

    /// The sine.
    fn sine(self) -> Self;

    /// The cosine.
    fn cosine(self) -> Self;

    /// The largest whole number that is not above `self`.
    fn floored(self) -> Self;

    /// `self < rhs`.
    fn below(self, rhs: Self) -> bool;

    /// `self <= rhs`.
    fn at_most(self, rhs: Self) -> bool;

    /// `self == rhs`.
    fn equals(self, rhs: Self) -> bool;
}

/// A sample format: a number format with a 32-bit encoding and a wider format
/// for the steps that need more precision.
pub trait Sample: Real {
    /// The wider format.
    type Wide: Real;

    /// The number in the wider format.
    fn widen(self) -> Self::Wide;

    /// The number closest to one of the wider format.
    fn narrow(w: Self::Wide) -> Self;

    /// The number with the given encoding.
    fn from_bits(bits: u32) -> Self;

    /// The encoding of the number.
    fn to_bits(self) -> u32;

    /// The nearest integer, halves away from zero, saturating.
    fn rounded(self) -> i32;

    /// The integer part as an index, saturating, zero for negative numbers.
    fn index(self) -> usize;

    /// The integer part as a 16-bit integer, saturating.
    fn short(self) -> i16;
}

/// The results of a number format's operations, as values: `a + b` is the
/// result of `a.plus(b)` when [`Arith::functional_real`] holds.
pub trait Arith: Sized {
    /// The constant `n / d`.
    spec fn frac(n: i64, d: i64) -> Self;

    /// The integer `n`.
    spec fn num(n: int) -> Self;

    /// The circle constant.
    spec fn pi_of() -> Self;

    /// Zero.
    spec fn nil() -> Self;

    /// One.
    spec fn unit() -> Self;

    spec fn spec_add(self, rhs: Self) -> Self;

    spec fn spec_sub(self, rhs: Self) -> Self;

    spec fn spec_mul(self, rhs: Self) -> Self;

    spec fn spec_euclidean_or_real_div(self, rhs: Self) -> Self;

    spec fn spec_neg(self) -> Self;

    spec fn abs_of(self) -> Self;

    spec fn max_of(self, rhs: Self) -> Self;

    spec fn min_of(self, rhs: Self) -> Self;

    spec fn sqrt_of(self) -> Self;

    spec fn log10_of(self) -> Self;

    spec fn sin_of(self) -> Self;

    spec fn cos_of(self) -> Self;

    spec fn floor_of(self) -> Self;

    spec fn lt_of(self, rhs: Self) -> bool;

    spec fn le_of(self, rhs: Self) -> bool;

    spec fn eq_of(self, rhs: Self) -> bool;

    /// Every operation gives a result that its operands determine.
    spec fn functional_real() -> bool;
}

impl<T: Real> Arith for T {
    open spec fn frac(n: i64, d: i64) -> T {
        choose|r: T| call_ensures(T::ratio, (n, d), r)
    }

    open spec fn num(n: int) -> T {
        T::frac(n as i64, 1)
    }

    open spec fn pi_of() -> T {
        choose|r: T| call_ensures(T::pi, (), r)
    }

    open spec fn nil() -> T {
        T::frac(0, 1)
    }

    open spec fn unit() -> T {
        T::frac(1, 1)
    }

    open spec fn spec_add(self, rhs: T) -> T {
        choose|r: T| call_ensures(T::plus, (self, rhs), r)
    }

    open spec fn spec_sub(self, rhs: T) -> T {
        choose|r: T| call_ensures(T::minus, (self, rhs), r)
    }

    open spec fn spec_mul(self, rhs: T) -> T {
        choose|r: T| call_ensures(T::times, (self, rhs), r)
    }

    open spec fn spec_euclidean_or_real_div(self, rhs: T) -> T {
        choose|r: T| call_ensures(T::over, (self, rhs), r)
    }

    open spec fn spec_neg(self) -> T {
        choose|r: T| call_ensures(T::negated, (self,), r)
    }

    open spec fn abs_of(self) -> T {
        choose|r: T| call_ensures(T::magnitude, (self,), r)
    }

    open spec fn max_of(self, rhs: T) -> T {
        choose|r: T| call_ensures(T::larger, (self, rhs), r)
    }

    open spec fn min_of(self, rhs: T) -> T {
        choose|r: T| call_ensures(T::smaller, (self, rhs), r)
    }

    open spec fn sqrt_of(self) -> T {
        choose|r: T| call_ensures(T::root, (self,), r)
    }

    open spec fn log10_of(self) -> T {
        choose|r: T| call_ensures(T::log10, (self,), r)
    }

    open spec fn sin_of(self) -> T {
        choose|r: T| call_ensures(T::sine, (self,), r)
    }

    open spec fn cos_of(self) -> T {
        choose|r: T| call_ensures(T::cosine, (self,), r)
    }

    open spec fn floor_of(self) -> T {
        choose|r: T| call_ensures(T::floored, (self,), r)
    }

    open spec fn lt_of(self, rhs: T) -> bool {
        choose|r: bool| call_ensures(T::below, (self, rhs), r)
    }

    open spec fn le_of(self, rhs: T) -> bool {
        choose|r: bool| call_ensures(T::at_most, (self, rhs), r)
    }

    open spec fn eq_of(self, rhs: T) -> bool {
        choose|r: bool| call_ensures(T::equals, (self, rhs), r)
    }

    open spec fn functional_real() -> bool {
        &&& forall|n: i64, d: i64, r: T| #[trigger]
            call_ensures(T::ratio, (n, d), r) ==> r == T::frac(n, d)
        &&& forall|r: T| #[trigger] call_ensures(T::pi, (), r) ==> r == T::pi_of()
        &&& forall|a: T, b: T, r: T| #[trigger] call_ensures(T::plus, (a, b), r) ==> r == a + b
        &&& forall|a: T, b: T, r: T| #[trigger] call_ensures(T::minus, (a, b), r) ==> r == a - b
        &&& forall|a: T, b: T, r: T| #[trigger] call_ensures(T::times, (a, b), r) ==> r == a * b
        &&& forall|a: T, b: T, r: T| #[trigger] call_ensures(T::over, (a, b), r) ==> r == a / b
        &&& forall|a: T, r: T| #[trigger] call_ensures(T::negated, (a,), r) ==> r == -a
        &&& forall|a: T, r: T| #[trigger]
            call_ensures(T::magnitude, (a,), r) ==> r == a.abs_of()
        &&& forall|a: T, b: T, r: T| #[trigger]
            call_ensures(T::larger, (a, b), r) ==> r == a.max_of(b)
        &&& forall|a: T, b: T, r: T| #[trigger]
            call_ensures(T::smaller, (a, b), r) ==> r == a.min_of(b)
        &&& forall|a: T, r: T| #[trigger] call_ensures(T::root, (a,), r) ==> r == a.sqrt_of()
        &&& forall|a: T, r: T| #[trigger] call_ensures(T::log10, (a,), r) ==> r == a.log10_of()
        &&& forall|a: T, r: T| #[trigger] call_ensures(T::sine, (a,), r) ==> r == a.sin_of()
        &&& forall|a: T, r: T| #[trigger] call_ensures(T::cosine, (a,), r) ==> r == a.cos_of()
        &&& forall|a: T, r: T| #[trigger]
            call_ensures(T::floored, (a,), r) ==> r == a.floor_of()
        &&& forall|a: T, b: T, r: bool| #[trigger]
            call_ensures(T::below, (a, b), r) ==> r == a.lt_of(b)
        &&& forall|a: T, b: T, r: bool| #[trigger]
            call_ensures(T::at_most, (a, b), r) ==> r == a.le_of(b)
        &&& forall|a: T, b: T, r: bool| #[trigger]
            call_ensures(T::equals, (a, b), r) ==> r == a.eq_of(b)
    }
}

/// The results of a sample format's conversions, as values.
pub trait SampleArith: Sample {
    /// The sample in the wider format.
    spec fn wide(self) -> Self::Wide;

    /// A number of the wider format as a sample.
    spec fn narrowed(w: Self::Wide) -> Self;

    /// The sample with the given encoding.
    spec fn decoded(bits: u32) -> Self;

    /// The encoding of the sample.
    spec fn encoded(self) -> u32;

    /// The nearest integer.
    spec fn nearest(self) -> i32;

    /// The integer part as an index.
    spec fn whole(self) -> usize;

    /// The integer part as a 16-bit integer.
    spec fn shortened(self) -> i16;

    /// Every operation of the format, and of its wider format, gives a result
    /// that its operands determine. Floating-point arithmetic with a single
    /// NaN is of this kind.
    spec fn functional() -> bool;
}

impl<S: Sample> SampleArith for S {
    open spec fn wide(self) -> S::Wide {
        choose|r: S::Wide| call_ensures(S::widen, (self,), r)
    }

    open spec fn narrowed(w: S::Wide) -> S {
        choose|r: S| call_ensures(S::narrow, (w,), r)
    }

    open spec fn decoded(bits: u32) -> S {
        choose|r: S| call_ensures(S::from_bits, (bits,), r)
    }

    open spec fn encoded(self) -> u32 {
        choose|r: u32| call_ensures(S::to_bits, (self,), r)
    }

    open spec fn nearest(self) -> i32 {
        choose|r: i32| call_ensures(S::rounded, (self,), r)
    }

    open spec fn whole(self) -> usize {
        choose|r: usize| call_ensures(S::index, (self,), r)
    }

    open spec fn shortened(self) -> i16 {
        choose|r: i16| call_ensures(S::short, (self,), r)
    }

    open spec fn functional() -> bool {
        &&& S::functional_real()
        &&& <S::Wide as Arith>::functional_real()
        &&& forall|a: S, r: S::Wide| #[trigger] call_ensures(S::widen, (a,), r) ==> r == a.wide()
        &&& forall|a: S::Wide, r: S| #[trigger]
            call_ensures(S::narrow, (a,), r) ==> r == S::narrowed(a)
        &&& forall|b: u32, r: S| #[trigger]
            call_ensures(S::from_bits, (b,), r) ==> r == S::decoded(b)
        &&& forall|a: S, r: u32| #[trigger] call_ensures(S::to_bits, (a,), r) ==> r == a.encoded()
        &&& forall|a: S, r: i32| #[trigger] call_ensures(S::rounded, (a,), r) ==> r == a.nearest()
        &&& forall|a: S, r: usize| #[trigger] call_ensures(S::index, (a,), r) ==> r == a.whole()
        &&& forall|a: S, r: i16| #[trigger] call_ensures(S::short, (a,), r) ==> r == a.shortened()
    }
}

/// No operation of a number format can give two results for the same operands.
pub open spec fn deterministic_real<T: Real>() -> bool {
    &&& forall|n: i64, d: i64, r: T, s: T| #[trigger]
        call_ensures(T::ratio, (n, d), r) && #[trigger] call_ensures(T::ratio, (n, d), s) ==> r
            == s
    &&& forall|r: T, s: T| #[trigger]
        call_ensures(T::pi, (), r) && #[trigger] call_ensures(T::pi, (), s) ==> r == s
    &&& forall|a: T, b: T, r: T, s: T| #[trigger]
        call_ensures(T::plus, (a, b), r) && #[trigger] call_ensures(T::plus, (a, b), s) ==> r
            == s
    &&& forall|a: T, b: T, r: T, s: T| #[trigger]
        call_ensures(T::minus, (a, b), r) && #[trigger] call_ensures(T::minus, (a, b), s) ==> r
            == s
    &&& forall|a: T, b: T, r: T, s: T| #[trigger]
        call_ensures(T::times, (a, b), r) && #[trigger] call_ensures(T::times, (a, b), s) ==> r
            == s
    &&& forall|a: T, b: T, r: T, s: T| #[trigger]
        call_ensures(T::over, (a, b), r) && #[trigger] call_ensures(T::over, (a, b), s) ==> r
            == s
    &&& forall|a: T, r: T, s: T| #[trigger]
        call_ensures(T::negated, (a,), r) && #[trigger] call_ensures(T::negated, (a,), s) ==> r
            == s
    &&& forall|a: T, r: T, s: T| #[trigger]
        call_ensures(T::magnitude, (a,), r) && #[trigger] call_ensures(T::magnitude, (a,), s) ==> r
            == s
    &&& forall|a: T, b: T, r: T, s: T| #[trigger]
        call_ensures(T::larger, (a, b), r) && #[trigger] call_ensures(T::larger, (a, b), s) ==> r
            == s
    &&& forall|a: T, b: T, r: T, s: T| #[trigger]
        call_ensures(T::smaller, (a, b), r) && #[trigger] call_ensures(T::smaller, (a, b), s) ==> r
            == s
    &&& forall|a: T, r: T, s: T| #[trigger]
        call_ensures(T::root, (a,), r) && #[trigger] call_ensures(T::root, (a,), s) ==> r
            == s
    &&& forall|a: T, r: T, s: T| #[trigger]
        call_ensures(T::log10, (a,), r) && #[trigger] call_ensures(T::log10, (a,), s) ==> r
            == s
    &&& forall|a: T, r: T, s: T| #[trigger]
        call_ensures(T::sine, (a,), r) && #[trigger] call_ensures(T::sine, (a,), s) ==> r
            == s
    &&& forall|a: T, r: T, s: T| #[trigger]
        call_ensures(T::cosine, (a,), r) && #[trigger] call_ensures(T::cosine, (a,), s) ==> r
            == s
    &&& forall|a: T, r: T, s: T| #[trigger]
        call_ensures(T::floored, (a,), r) && #[trigger] call_ensures(T::floored, (a,), s) ==> r
            == s
    &&& forall|a: T, b: T, r: bool, s: bool| #[trigger]
        call_ensures(T::below, (a, b), r) && #[trigger] call_ensures(T::below, (a, b), s) ==> r
            == s
    &&& forall|a: T, b: T, r: bool, s: bool| #[trigger]
        call_ensures(T::at_most, (a, b), r) && #[trigger] call_ensures(T::at_most, (a, b), s) ==> r
            == s
    &&& forall|a: T, b: T, r: bool, s: bool| #[trigger]
        call_ensures(T::equals, (a, b), r) && #[trigger] call_ensures(T::equals, (a, b), s) ==> r
            == s
}

/// No operation of a sample format, or of its wider format, can give two results
/// for the same operands.
pub open spec fn deterministic<S: Sample>() -> bool {
    &&& deterministic_real::<S>()
    &&& deterministic_real::<S::Wide>()
    &&& forall|a: S, r: S::Wide, s: S::Wide| #[trigger]
        call_ensures(S::widen, (a,), r) && #[trigger] call_ensures(S::widen, (a,), s) ==> r
            == s
    &&& forall|a: S::Wide, r: S, s: S| #[trigger]
        call_ensures(S::narrow, (a,), r) && #[trigger] call_ensures(S::narrow, (a,), s) ==> r
            == s
    &&& forall|a: u32, r: S, s: S| #[trigger]
        call_ensures(S::from_bits, (a,), r) && #[trigger] call_ensures(S::from_bits, (a,), s) ==> r
            == s
    &&& forall|a: S, r: u32, s: u32| #[trigger]
        call_ensures(S::to_bits, (a,), r) && #[trigger] call_ensures(S::to_bits, (a,), s) ==> r
            == s
    &&& forall|a: S, r: i32, s: i32| #[trigger]
        call_ensures(S::rounded, (a,), r) && #[trigger] call_ensures(S::rounded, (a,), s) ==> r
            == s
    &&& forall|a: S, r: usize, s: usize| #[trigger]
        call_ensures(S::index, (a,), r) && #[trigger] call_ensures(S::index, (a,), s) ==> r
            == s
    &&& forall|a: S, r: i16, s: i16| #[trigger]
        call_ensures(S::short, (a,), r) && #[trigger] call_ensures(S::short, (a,), s) ==> r
            == s
}

proof fn lemma_functional_real<T: Real>()
    ensures
        T::functional_real() <==> deterministic_real::<T>(),
{
}

/// A sample format is functional exactly where none of its operations can give
/// two results for the same operands.
pub proof fn lemma_functional<S: Sample>()
    ensures
        S::functional() <==> deterministic::<S>(),
{
    lemma_functional_real::<S>();
    lemma_functional_real::<S::Wide>();
}

/// `n` copies of `x`.
pub fn filled<T: Copy>(x: T, n: usize) -> (v: Vec<T>)
    ensures
        v@ == Seq::new(n as nat, |i: int| x),
{
    let mut v: Vec<T> = Vec::new();
    let mut i: usize = 0;
    while i < n
        invariant
            i <= n,
            v@ == Seq::new(i as nat, |j: int| x),
        decreases n - i,
    {
        v.push(x);
        i += 1;
        assert(v@ == Seq::new(i as nat, |j: int| x));
    }
    v
}

} // verus!
