//! What the transform computes: in exact arithmetic, with exact roots of unity,
//! it is the discrete Fourier transform.

use vstd::prelude::*;
use vstd::arithmetic::div_mod::*;
use crate::arith::{Arith, Sample};
use crate::factor;
use crate::fft::Cpx;
use crate::fft;

verus! {

/// A complex number with exact parts.
pub struct Point {
    pub re: real,
    pub im: real,
}

impl Point {
    pub open spec fn spec_add(self, rhs: Point) -> Point {
        Point { re: self.re + rhs.re, im: self.im + rhs.im }
    }

    pub open spec fn spec_sub(self, rhs: Point) -> Point {
        Point { re: self.re - rhs.re, im: self.im - rhs.im }
    }

    pub open spec fn spec_mul(self, rhs: Point) -> Point {
        Point {
            re: self.re * rhs.re - self.im * rhs.im,
            im: self.re * rhs.im + self.im * rhs.re,
        }
    }
}

/// The origin.
pub open spec fn zero() -> Point {
    Point { re: 0real, im: 0real }
}

/// The number one.
pub open spec fn one() -> Point {
    Point { re: 1real, im: 0real }
}

pub proof fn lemma_comm(a: real, b: real)
    ensures
        a * b == b * a,
{
    assert(a * b == b * a) by (nonlinear_arith);
}

pub proof fn lemma_assoc(a: real, b: real, c: real)
    ensures
        (a * b) * c == a * (b * c),
{
    assert((a * b) * c == a * (b * c)) by (nonlinear_arith);
}

pub proof fn lemma_dist(a: real, b: real, c: real)
    ensures
        (a + b) * c == a * c + b * c,
        (a - b) * c == a * c - b * c,
        c * (a + b) == c * a + c * b,
        c * (a - b) == c * a - c * b,
{
    assert((a + b) * c == a * c + b * c) by (nonlinear_arith);
    assert((a - b) * c == a * c - b * c) by (nonlinear_arith);
    assert(c * (a + b) == c * a + c * b) by (nonlinear_arith);
    assert(c * (a - b) == c * a - c * b) by (nonlinear_arith);
}

pub proof fn lemma_units(a: real)
    ensures
        a * 0real == 0real,
        0real * a == 0real,
        a * 1real == a,
        1real * a == a,
        a * (0real - 1real) == 0real - a,
{
    assert(a * 0real == 0real) by (nonlinear_arith);
    assert(0real * a == 0real) by (nonlinear_arith);
    assert(a * 1real == a) by (nonlinear_arith);
    assert(1real * a == a) by (nonlinear_arith);
    assert(a * (0real - 1real) == 0real - a) by (nonlinear_arith);
}

/// Multiplication of points is associative.
pub proof fn lemma_mul_assoc(a: Point, b: Point, c: Point)
    ensures
        (a * b) * c == a * (b * c),
{
    lemma_dist(a.re * b.re, a.im * b.im, c.re);
    lemma_dist(a.re * b.re, a.im * b.im, c.im);
    lemma_dist(a.re * b.im, a.im * b.re, c.re);
    lemma_dist(a.re * b.im, a.im * b.re, c.im);
    lemma_dist(b.re * c.re, b.im * c.im, a.re);
    lemma_dist(b.re * c.re, b.im * c.im, a.im);
    lemma_dist(b.re * c.im, b.im * c.re, a.re);
    lemma_dist(b.re * c.im, b.im * c.re, a.im);
    lemma_assoc(a.re, b.re, c.re);
    lemma_assoc(a.re, b.re, c.im);
    lemma_assoc(a.re, b.im, c.re);
    lemma_assoc(a.re, b.im, c.im);
    lemma_assoc(a.im, b.re, c.re);
    lemma_assoc(a.im, b.re, c.im);
    lemma_assoc(a.im, b.im, c.re);
    lemma_assoc(a.im, b.im, c.im);
}

/// Multiplication of points is commutative.
pub proof fn lemma_mul_comm(a: Point, b: Point)
    ensures
        a * b == b * a,
{
    lemma_comm(a.re, b.re);
    lemma_comm(a.re, b.im);
    lemma_comm(a.im, b.re);
    lemma_comm(a.im, b.im);
}

/// Multiplication of points is distributive.
pub proof fn lemma_mul_dist(a: Point, b: Point, c: Point)
    ensures
        (a + b) * c == a * c + b * c,
{
    lemma_dist(a.re, b.re, c.re);
    lemma_dist(a.re, b.re, c.im);
    lemma_dist(a.im, b.im, c.re);
    lemma_dist(a.im, b.im, c.im);
}

/// Multiplying by one or zero.
pub proof fn lemma_mul_units(a: Point)
    ensures
        a * one() == a,
        zero() * a == zero(),
{
    lemma_units(a.re);
    lemma_units(a.im);
}

/// The sum of `f(0)` to `f(n - 1)`.
pub open spec fn sum(f: spec_fn(int) -> Point, n: nat) -> Point
    decreases n,
{
    if n == 0 {
        zero()
    } else {
        sum(f, (n - 1) as nat) + f(n - 1)
    }
}

/// Sums of equal terms are equal.
pub proof fn lemma_sum_same(f: spec_fn(int) -> Point, g: spec_fn(int) -> Point, n: nat)
    requires
        forall|i: int| 0 <= i < n ==> #[trigger] f(i) == g(i),
    ensures
        sum(f, n) == sum(g, n),
    decreases n,
{
    if n > 0 {
        lemma_sum_same(f, g, (n - 1) as nat);
        assert(f(n - 1) == g(n - 1));
    }
}

/// The sum of sums is the sum of the terms' sums.
pub proof fn lemma_sum_add(
    f: spec_fn(int) -> Point,
    g: spec_fn(int) -> Point,
    h: spec_fn(int) -> Point,
    n: nat,
)
    requires
        forall|i: int| 0 <= i < n ==> #[trigger] h(i) == f(i) + g(i),
    ensures
        sum(h, n) == sum(f, n) + sum(g, n),
    decreases n,
{
    if n > 0 {
        lemma_sum_add(f, g, h, (n - 1) as nat);
        assert(h(n - 1) == f(n - 1) + g(n - 1));
    }
}

/// A factor of all terms is a factor of the sum.
pub proof fn lemma_sum_scale(
    f: spec_fn(int) -> Point,
    g: spec_fn(int) -> Point,
    c: Point,
    n: nat,
)
    requires
        forall|i: int| 0 <= i < n ==> #[trigger] g(i) == f(i) * c,
    ensures
        sum(g, n) == sum(f, n) * c,
    decreases n,
{
    if n > 0 {
        lemma_sum_scale(f, g, c, (n - 1) as nat);
        assert(g(n - 1) == f(n - 1) * c);
        lemma_mul_dist(sum(f, (n - 1) as nat), f(n - 1), c);
    } else {
        lemma_mul_units(c);
    }
}

/// A sum in two parts.
proof fn lemma_sum_split(f: spec_fn(int) -> Point, a: nat, b: nat)
    ensures
        sum(f, a + b) == sum(f, a) + sum(|i: int| f(a + i), b),
    decreases b,
{
    if b > 0 {
        lemma_sum_split(f, a, (b - 1) as nat);
        let g = |i: int| f(a + i);
        assert(g(b - 1) == f(a + b - 1));
        assert((a + b - 1) as nat == a + (b - 1) as nat);
    }
}

/// A sum over `p * m` terms, as `p` sums over every `p`-th term.
proof fn lemma_sum_strides(f: spec_fn(int) -> Point, p: nat, m: nat)
    ensures
        sum(f, p * m) == sum(|j: int| sum(|t: int| f(j + p * t), m), p),
    decreases m,
{
    let outer = |j: int| sum(|t: int| f(j + p * t), m);
    if m == 0 {
        assert(p * m == 0) by (nonlinear_arith)
            requires
                m == 0,
        ;
        let nothing = |j: int| zero();
        assert forall|j: int| 0 <= j < p implies #[trigger] outer(j) == nothing(j) by {}
        lemma_sum_same(outer, nothing, p);
        lemma_sum_zero(p);
    } else {
        let k = (m - 1) as nat;
        lemma_sum_strides(f, p, k);
        assert(p * m == p * k + p) by (nonlinear_arith)
            requires
                m == k + 1,
        ;
        lemma_sum_split(f, p * k, p);
        let before = |j: int| sum(|t: int| f(j + p * t), k);
        let last = |j: int| f(p * k + j);
        assert forall|j: int| 0 <= j < p implies #[trigger] outer(j) == before(j) + last(j) by {
            let row = |t: int| f(j + p * t);
            assert(sum(row, m) == sum(row, k) + row(k as int));
            assert(j + p * k == p * k + j);
        }
        lemma_sum_add(before, last, outer, p);
    }
}

/// A sum of zeros is zero.
pub proof fn lemma_sum_zero(n: nat)
    ensures
        sum(|j: int| zero(), n) == zero(),
    decreases n,
{
    if n > 0 {
        lemma_sum_zero((n - 1) as nat);
    }
}

/// A complex number of the library as a point, with `phi` reading its parts.
pub open spec fn point<S: Sample>(phi: spec_fn(S) -> real, z: Cpx<S>) -> Point {
    Point { re: phi(z.r), im: phi(z.i) }
}

/// The arithmetic is exact: `phi` reads sums as sums, products as products, and
/// the constant one half as one half.
pub open spec fn exact<S: Sample>(phi: spec_fn(S) -> real) -> bool {
    &&& forall|a: S, b: S| #[trigger] phi(a + b) == phi(a) + phi(b)
    &&& forall|a: S, b: S| #[trigger] phi(a - b) == phi(a) - phi(b)
    &&& forall|a: S, b: S| #[trigger] phi(a * b) == phi(a) * phi(b)
    &&& forall|a: S| #[trigger] phi(-a) == 0real - phi(a)
    &&& phi(S::frac(1, 2)) + phi(S::frac(1, 2)) == 1real
}

/// Root `k` of the table, counted around the circle.
pub open spec fn omega<S: Sample>(phi: spec_fn(S) -> real, tw: Seq<Cpx<S>>, k: int) -> Point {
    point(phi, tw[k % (tw.len() as int)])
}

/// Turning by `a` and then by `b` is turning by `a + b`.
pub open spec fn adds_up<S: Sample>(
    phi: spec_fn(S) -> real,
    tw: Seq<Cpx<S>>,
    a: int,
    b: int,
) -> bool {
    omega(phi, tw, a + b) == omega(phi, tw, a) * omega(phi, tw, b)
}

/// Turning the other way gives the mirror image.
pub open spec fn mirrors<S: Sample>(phi: spec_fn(S) -> real, tw: Seq<Cpx<S>>, k: int) -> bool {
    omega(phi, tw, -k) == conj(omega(phi, tw, k))
}

/// The mirror image of a point.
pub open spec fn conj(a: Point) -> Point {
    Point { re: a.re, im: 0real - a.im }
}

/// The table holds the roots of unity, clockwise: powers of the first, which
/// pass minus one after half a turn and minus `sqrt(-1)` after a quarter; an
/// eighth of a turn has equal parts, which the constant 0.70710677 stands for,
/// and a third of a turn has the real part minus one half.
pub open spec fn exact_roots<S: Sample>(phi: spec_fn(S) -> real, tw: Seq<Cpx<S>>) -> bool {
    let n = tw.len() as int;
    let s = phi(S::frac(70710677, 100000000));
    &&& n >= 1
    &&& omega(phi, tw, 0) == one()
    &&& forall|a: int, b: int| #[trigger] adds_up(phi, tw, a, b)
    &&& forall|k: int| #[trigger] mirrors(phi, tw, k)
    &&& n % 2 == 0 ==> omega(phi, tw, n / 2) == (Point { re: 0real - 1real, im: 0real })
    &&& n % 4 == 0 ==> omega(phi, tw, n / 4) == (Point { re: 0real, im: 0real - 1real })
    &&& n % 8 == 0 ==> omega(phi, tw, n / 8) == (Point { re: s, im: 0real - s })
    &&& n % 3 == 0 ==> omega(phi, tw, n / 3).re + omega(phi, tw, n / 3).re == 0real - 1real
}

/// The roots repeat after every turn.
pub proof fn lemma_omega_turns<S: Sample>(
    phi: spec_fn(S) -> real,
    tw: Seq<Cpx<S>>,
    k: int,
    turns: int,
)
    requires
        tw.len() >= 1,
    ensures
        omega(phi, tw, k + turns * tw.len()) == omega(phi, tw, k),
{
    let n = tw.len() as int;
    lemma_mod_multiples_vanish(turns, k, n);
    assert(k + turns * n == n * turns + k) by (nonlinear_arith);
}

/// A radix-2 butterfly is a transform of two points.
proof fn lemma_two<S: Sample>(phi: spec_fn(S) -> real, x: Cpx<S>, t: Cpx<S>, w: Point)
    requires
        exact(phi),
        w == (Point { re: 0real - 1real, im: 0real }),
    ensures
        point(phi, x + t) == point(phi, x) + point(phi, t),
        point(phi, x - t) == point(phi, x) + point(phi, t) * w,
{
    let y = point(phi, t);
    lemma_units(y.re);
    lemma_units(y.im);
}

/// A radix-4 butterfly is a transform of four points.
proof fn lemma_four<S: Sample>(
    phi: spec_fn(S) -> real,
    x: Cpx<S>,
    y1: Cpx<S>,
    y2: Cpx<S>,
    y3: Cpx<S>,
)
    requires
        exact(phi),
    ensures
        ({
            let out = fft::four(x, y1, y2, y3);
            let (p, p1, p2, p3) = (point(phi, x), point(phi, y1), point(phi, y2), point(phi, y3));
            let w0 = one();
            let w1 = Point { re: 0real, im: 0real - 1real };
            let w2 = Point { re: 0real - 1real, im: 0real };
            let w3 = Point { re: 0real, im: 1real };
            &&& point(phi, out[0]) == p + p1 * w0 + p2 * w0 + p3 * w0
            &&& point(phi, out[1]) == p + p1 * w1 + p2 * w2 + p3 * w3
            &&& point(phi, out[2]) == p + p1 * w2 + p2 * w0 + p3 * w2
            &&& point(phi, out[3]) == p + p1 * w3 + p2 * w2 + p3 * w1
        }),
{
    let (p1, p2, p3) = (point(phi, y1), point(phi, y2), point(phi, y3));
    lemma_units(p1.re);
    lemma_units(p1.im);
    lemma_units(p2.re);
    lemma_units(p2.im);
    lemma_units(p3.re);
    lemma_units(p3.im);
}

/// A radix-3 butterfly is a transform of three points.
proof fn lemma_three<S: Sample>(
    phi: spec_fn(S) -> real,
    x: Cpx<S>,
    y1: Cpx<S>,
    y2: Cpx<S>,
    e: S,
    w: Point,
)
    requires
        exact(phi),
        w.re + w.re == 0real - 1real,
        w.im == phi(e),
    ensures
        ({
            let out = fft::three(x, y1, y2, e);
            let (p, p1, p2) = (point(phi, x), point(phi, y1), point(phi, y2));
            &&& point(phi, out[0]) == p + p1 * one() + p2 * one()
            &&& point(phi, out[1]) == p + p1 * w + p2 * conj(w)
            &&& point(phi, out[2]) == p + p1 * conj(w) + p2 * w
        }),
{
    let out = fft::three(x, y1, y2, e);
    let (p, p1, p2) = (point(phi, x), point(phi, y1), point(phi, y2));
    let h = phi(S::frac(1, 2));
    let v = w.im;
    lemma_mul_units(p1);
    lemma_mul_units(p2);
    assert(w.re == 0real - h);
    lemma_dist(p1.re, p2.re, h);
    lemma_dist(p1.im, p2.im, h);
    lemma_dist(p1.re, p2.re, v);
    lemma_dist(p1.im, p2.im, v);
    lemma_dist(0real, h, p1.re);
    lemma_dist(0real, h, p1.im);
    lemma_dist(0real, h, p2.re);
    lemma_dist(0real, h, p2.im);
    lemma_dist(0real, v, p1.re);
    lemma_dist(0real, v, p1.im);
    lemma_dist(0real, v, p2.re);
    lemma_dist(0real, v, p2.im);
    lemma_units(p1.re);
    lemma_units(p1.im);
    lemma_units(p2.re);
    lemma_units(p2.im);
    lemma_comm(h, p1.re);
    lemma_comm(h, p1.im);
    lemma_comm(h, p2.re);
    lemma_comm(h, p2.im);
}

/// A radix-5 butterfly is a transform of five points.
proof fn lemma_five<S: Sample>(
    phi: spec_fn(S) -> real,
    x: Cpx<S>,
    y1: Cpx<S>,
    y2: Cpx<S>,
    y3: Cpx<S>,
    y4: Cpx<S>,
    ya: Cpx<S>,
    yb: Cpx<S>,
)
    requires
        exact(phi),
    ensures
        ({
            let out = fft::five(x, y1, y2, y3, y4, ya, yb);
            let p = point(phi, x);
            let (p1, p2) = (point(phi, y1), point(phi, y2));
            let (p3, p4) = (point(phi, y3), point(phi, y4));
            let (a, b) = (point(phi, ya), point(phi, yb));
            &&& point(phi, out[0]) == p + p1 * one() + p2 * one() + p3 * one() + p4 * one()
            &&& point(phi, out[1]) == p + p1 * a + p2 * b + p3 * conj(b) + p4 * conj(a)
            &&& point(phi, out[2]) == p + p1 * b + p2 * conj(a) + p3 * a + p4 * conj(b)
            &&& point(phi, out[3]) == p + p1 * conj(b) + p2 * a + p3 * conj(a) + p4 * b
            &&& point(phi, out[4]) == p + p1 * conj(a) + p2 * conj(b) + p3 * b + p4 * a
        }),
{
    let (p1, p2) = (point(phi, y1), point(phi, y2));
    let (p3, p4) = (point(phi, y3), point(phi, y4));
    let (a, b) = (point(phi, ya), point(phi, yb));
    lemma_mul_units(p1);
    lemma_mul_units(p2);
    lemma_mul_units(p3);
    lemma_mul_units(p4);
    lemma_five_terms(p1, p4, a);
    lemma_five_terms(p1, p4, b);
    lemma_five_terms(p2, p3, a);
    lemma_five_terms(p2, p3, b);
}

/// The products that a pair of legs takes part in.
proof fn lemma_five_terms(p: Point, q: Point, w: Point)
    ensures
        (p.re + q.re) * w.re == p.re * w.re + q.re * w.re,
        (p.im + q.im) * w.re == p.im * w.re + q.im * w.re,
        (p.re - q.re) * w.im == p.re * w.im - q.re * w.im,
        (p.im - q.im) * w.im == p.im * w.im - q.im * w.im,
        p.re * (0real - w.im) == 0real - p.re * w.im,
        p.im * (0real - w.im) == 0real - p.im * w.im,
        q.re * (0real - w.im) == 0real - q.re * w.im,
        q.im * (0real - w.im) == 0real - q.im * w.im,
{
    lemma_dist(p.re, q.re, w.re);
    lemma_dist(p.im, q.im, w.re);
    lemma_dist(p.re, q.re, w.im);
    lemma_dist(p.im, q.im, w.im);
    lemma_dist(0real, w.im, p.re);
    lemma_dist(0real, w.im, p.im);
    lemma_dist(0real, w.im, q.re);
    lemma_dist(0real, w.im, q.im);
    lemma_units(p.re);
    lemma_units(p.im);
    lemma_units(q.re);
    lemma_units(q.im);
}

/// A leg that is turned by a root of the table.
proof fn lemma_turned<S: Sample>(
    phi: spec_fn(S) -> real,
    tw: Seq<Cpx<S>>,
    x: Cpx<S>,
    k: int,
)
    requires
        exact(phi),
        0 <= k < tw.len(),
    ensures
        point(phi, x * tw[k]) == point(phi, x) * omega(phi, tw, k),
{
    lemma_small_mod(k as nat, tw.len());
}

/// The roots that a butterfly of radix `p` uses, where `e` is one `p`-th of a
/// turn.
proof fn lemma_step_roots<S: Sample>(phi: spec_fn(S) -> real, tw: Seq<Cpx<S>>, p: int, e: int)
    requires
        exact(phi),
        exact_roots(phi, tw),
        2 <= p <= 5,
        p * e == tw.len(),
    ensures
        omega(phi, tw, 0) == one(),
        p == 2 ==> omega(phi, tw, e) == (Point { re: 0real - 1real, im: 0real }),
        p == 3 ==> {
            &&& omega(phi, tw, e).re + omega(phi, tw, e).re == 0real - 1real
            &&& omega(phi, tw, 2 * e) == conj(omega(phi, tw, e))
        },
        p == 4 ==> {
            &&& omega(phi, tw, e) == (Point { re: 0real, im: 0real - 1real })
            &&& omega(phi, tw, 2 * e) == (Point { re: 0real - 1real, im: 0real })
            &&& omega(phi, tw, 3 * e) == (Point { re: 0real, im: 1real })
        },
        p == 5 ==> {
            &&& omega(phi, tw, 3 * e) == conj(omega(phi, tw, 2 * e))
            &&& omega(phi, tw, 4 * e) == conj(omega(phi, tw, e))
        },
{
    let n = tw.len() as int;
    if p == 2 {
        assert(n == 2 * e);
    } else if p == 3 {
        assert(n == 3 * e);
        lemma_omega_turns(phi, tw, -e, 1);
        assert(-e + 1 * n == 2 * e);
        assert(mirrors(phi, tw, e));
    } else if p == 4 {
        assert(n == 4 * e);
        let w = omega(phi, tw, e);
        assert(adds_up(phi, tw, e, e));
        let w2 = omega(phi, tw, 2 * e);
        assert(e + e == 2 * e);
        lemma_units(0real);
        lemma_units(0real - 1real);
        assert(w2 == (Point { re: 0real - 1real, im: 0real }));
        lemma_omega_turns(phi, tw, -e, 1);
        assert(-e + 1 * n == 3 * e);
        assert(mirrors(phi, tw, e));
    } else {
        assert(n == 5 * e);
        lemma_omega_turns(phi, tw, -e, 1);
        assert(-e + 1 * n == 4 * e);
        assert(mirrors(phi, tw, e));
        lemma_omega_turns(phi, tw, -(2 * e), 1);
        assert(-(2 * e) + 1 * n == 3 * e);
        assert(mirrors(phi, tw, 2 * e));
    }
}

/// The turned second leg of a radix-2 butterfly.
proof fn lemma_eighth<S: Sample>(
    phi: spec_fn(S) -> real,
    tw: Seq<Cpx<S>>,
    x: Cpx<S>,
    m: int,
    stride: int,
    u: int,
)
    requires
        exact(phi),
        exact_roots(phi, tw),
        m == 1 || m == 4,
        stride >= 1,
        0 <= u < m,
        tw.len() == stride * (2 * m),
    ensures
        point(phi, fft::eighth_turn(x, u)) == point(phi, x) * omega(phi, tw, u * stride),
{
    let n = tw.len() as int;
    let s = phi(S::frac(70710677, 100000000));
    let p = point(phi, x);
    lemma_mul_units(p);
    if u == 0 {
        assert(u * stride == 0) by (nonlinear_arith)
            requires
                u == 0,
        ;
    } else {
        assert(n == 8 * stride) by (nonlinear_arith)
            requires
                n == stride * (2 * m),
                m == 4,
        ;
        let w1 = omega(phi, tw, stride);
        assert(w1 == (Point { re: s, im: 0real - s }));
        assert(omega(phi, tw, 2 * stride) == (Point { re: 0real, im: 0real - 1real }));
        lemma_units(p.re);
        lemma_units(p.im);
        lemma_dist(p.re, p.im, s);
        lemma_dist(p.im, p.re, s);
        lemma_dist(0real, s, p.re);
        lemma_dist(0real, s, p.im);
        lemma_units(s);
        if u == 1 {
            assert(u * stride == stride) by (nonlinear_arith)
                requires
                    u == 1,
            ;
        } else if u == 2 {
            assert(u * stride == 2 * stride) by (nonlinear_arith)
                requires
                    u == 2,
            ;
        } else {
            assert(u * stride == stride + 2 * stride) by (nonlinear_arith)
                requires
                    u == 3,
            ;
            let w2 = omega(phi, tw, 2 * stride);
            assert(adds_up(phi, tw, stride, 2 * stride));
            lemma_units(0real - s);
            assert(w1 * w2 == (Point { re: 0real - s, im: 0real - s }));
        }
    }
}

/// Term `j` of a sum of five or fewer.
pub open spec fn nth(j: int, t0: Point, t1: Point, t2: Point, t3: Point, t4: Point) -> Point {
    if j == 0 {
        t0
    } else if j == 1 {
        t1
    } else if j == 2 {
        t2
    } else if j == 3 {
        t3
    } else {
        t4
    }
}

/// A sum of up to five terms.
proof fn lemma_short_sum(
    f: spec_fn(int) -> Point,
    t0: Point,
    t1: Point,
    t2: Point,
    t3: Point,
    t4: Point,
    p: nat,
)
    requires
        2 <= p <= 5,
        forall|j: int| 0 <= j < p ==> #[trigger] f(j) == nth(j, t0, t1, t2, t3, t4),
    ensures
        p == 2 ==> sum(f, p) == t0 + t1,
        p == 3 ==> sum(f, p) == t0 + t1 + t2,
        p == 4 ==> sum(f, p) == t0 + t1 + t2 + t3,
        p == 5 ==> sum(f, p) == t0 + t1 + t2 + t3 + t4,
{
    reveal_with_fuel(sum, 6);
    assert(f(0) == t0);
    assert(f(1) == t1);
    if p > 2 {
        assert(f(2) == t2);
    }
    if p > 3 {
        assert(f(3) == t3);
    }
    if p > 4 {
        assert(f(4) == t4);
    }
}

/// Input `j` of a butterfly, turned by its place.
pub open spec fn turned<S: Sample>(
    phi: spec_fn(S) -> real,
    tw: Seq<Cpx<S>>,
    x: Seq<Cpx<S>>,
    w: int,
    j: int,
) -> Point {
    point(phi, x[j]) * omega(phi, tw, j * w)
}

/// What leg `q` of a butterfly should be: the sum of its inputs, each turned by
/// as many steps as its place and `q` ask for.
pub open spec fn leg_sum<S: Sample>(
    phi: spec_fn(S) -> real,
    tw: Seq<Cpx<S>>,
    x: Seq<Cpx<S>>,
    p: int,
    m: int,
    stride: int,
    u: int,
    q: int,
) -> Point {
    sum(
        |j: int| point(phi, x[j]) * omega(phi, tw, j * (stride * (u + m * q))),
        p as nat,
    )
}

/// The root that input `j` of leg `q` is turned by, beside its place.
pub open spec fn leg_root<S: Sample>(
    phi: spec_fn(S) -> real,
    tw: Seq<Cpx<S>>,
    p: int,
    e: int,
    q: int,
    j: int,
) -> Point {
    nth(
        (q * j) % p,
        one(),
        omega(phi, tw, e),
        omega(phi, tw, 2 * e),
        omega(phi, tw, 3 * e),
        omega(phi, tw, 4 * e),
    )
}

/// Each term of [`leg_sum`] is an input turned by its place, and then by a root
/// of the butterfly.
proof fn lemma_leg_term<S: Sample>(
    phi: spec_fn(S) -> real,
    tw: Seq<Cpx<S>>,
    x: Seq<Cpx<S>>,
    p: int,
    m: int,
    stride: int,
    u: int,
    q: int,
    j: int,
)
    requires
        exact(phi),
        exact_roots(phi, tw),
        2 <= p <= 5,
        0 <= q < p,
        0 <= j < p,
        tw.len() == p * (m * stride),
    ensures
        point(phi, x[j]) * omega(phi, tw, j * (stride * (u + m * q))) == turned(
            phi,
            tw,
            x,
            u * stride,
            j,
        ) * leg_root(phi, tw, p, m * stride, q, j),
{
    let e = m * stride;
    let w = u * stride;
    assert(j * (stride * (u + m * q)) == j * w + (q * j) * e) by (nonlinear_arith)
        requires
            w == u * stride,
            e == m * stride,
    ;
    assert(adds_up(phi, tw, j * w, (q * j) * e));
    lemma_mul_assoc(point(phi, x[j]), omega(phi, tw, j * w), omega(phi, tw, (q * j) * e));
    let r = (q * j) % p;
    let c = (q * j) / p;
    assert(q * j >= 0) by (nonlinear_arith)
        requires
            q >= 0,
            j >= 0,
    ;
    lemma_fundamental_div_mod(q * j, p);
    assert((q * j) * e == r * e + c * (p * e)) by (nonlinear_arith)
        requires
            q * j == p * c + r,
    ;
    lemma_omega_turns(phi, tw, r * e, c);
    assert(0 <= r < 5);
    if r == 0 {
        assert(r * e == 0) by (nonlinear_arith)
            requires
                r == 0,
        ;
    }
}

/// [`leg_sum`], term by term.
proof fn lemma_leg_sum<S: Sample>(
    phi: spec_fn(S) -> real,
    tw: Seq<Cpx<S>>,
    x: Seq<Cpx<S>>,
    p: int,
    m: int,
    stride: int,
    u: int,
    q: int,
)
    requires
        exact(phi),
        exact_roots(phi, tw),
        2 <= p <= 5,
        0 <= q < p,
        tw.len() == p * (m * stride),
    ensures
        ({
            let e = m * stride;
            let w = u * stride;
            let t0 = point(phi, x[0]);
            let t1 = turned(phi, tw, x, w, 1) * leg_root(phi, tw, p, e, q, 1);
            let t2 = turned(phi, tw, x, w, 2) * leg_root(phi, tw, p, e, q, 2);
            let t3 = turned(phi, tw, x, w, 3) * leg_root(phi, tw, p, e, q, 3);
            let t4 = turned(phi, tw, x, w, 4) * leg_root(phi, tw, p, e, q, 4);
            let all = leg_sum(phi, tw, x, p, m, stride, u, q);
            &&& p == 2 ==> all == t0 + t1
            &&& p == 3 ==> all == t0 + t1 + t2
            &&& p == 4 ==> all == t0 + t1 + t2 + t3
            &&& p == 5 ==> all == t0 + t1 + t2 + t3 + t4
        }),
{
    let e = m * stride;
    let w = u * stride;
    let t0 = point(phi, x[0]);
    let t1 = turned(phi, tw, x, w, 1) * leg_root(phi, tw, p, e, q, 1);
    let t2 = turned(phi, tw, x, w, 2) * leg_root(phi, tw, p, e, q, 2);
    let t3 = turned(phi, tw, x, w, 3) * leg_root(phi, tw, p, e, q, 3);
    let t4 = turned(phi, tw, x, w, 4) * leg_root(phi, tw, p, e, q, 4);
    let f = |j: int| point(phi, x[j]) * omega(phi, tw, j * (stride * (u + m * q)));
    assert forall|j: int| 0 <= j < p implies #[trigger] f(j) == nth(j, t0, t1, t2, t3, t4) by {
        lemma_leg_term(phi, tw, x, p, m, stride, u, q, j);
        if j == 0 {
            assert(q * 0 == 0) by (nonlinear_arith);
            lemma_small_mod(0, p as nat);
            lemma_mul_units(point(phi, x[0]));
            assert(0 * w == 0);
        }
    }
    lemma_short_sum(f, t0, t1, t2, t3, t4, p as nat);
}

/// A radix-2 butterfly gives the sums of its legs.
proof fn lemma_butterfly2<S: Sample>(
    phi: spec_fn(S) -> real,
    tw: Seq<Cpx<S>>,
    x: Seq<Cpx<S>>,
    m: int,
    stride: int,
    u: int,
    q: int,
)
    requires
        exact(phi),
        exact_roots(phi, tw),
        m == 1 || m == 4,
        stride >= 1,
        0 <= u < m,
        0 <= q < 2,
        tw.len() == 2 * (m * stride),
    ensures
        point(phi, fft::two(x, u)[q]) == leg_sum(phi, tw, x, 2, m, stride, u, q),
{
    let e = m * stride;
    let w = u * stride;
    assert(2 * e == stride * (2 * m)) by (nonlinear_arith)
        requires
            e == m * stride,
    ;
    lemma_step_roots(phi, tw, 2, e);
    lemma_leg_sum(phi, tw, x, 2, m, stride, u, q);
    lemma_eighth(phi, tw, x[1], m, stride, u);
    assert(1 * w == w);
    let w1 = omega(phi, tw, e);
    lemma_two(phi, x[0], fft::eighth_turn(x[1], u), w1);
    lemma_mul_units(turned(phi, tw, x, w, 1));
}

/// A radix-3 butterfly gives the sums of its legs.
proof fn lemma_butterfly3<S: Sample>(
    phi: spec_fn(S) -> real,
    tw: Seq<Cpx<S>>,
    x: Seq<Cpx<S>>,
    m: int,
    stride: int,
    u: int,
    q: int,
)
    requires
        exact(phi),
        exact_roots(phi, tw),
        m >= 1,
        stride >= 1,
        0 <= u < m,
        0 <= q < 3,
        tw.len() == 3 * (m * stride),
    ensures
        point(phi, fft::butterfly(x, 3, m, stride, u, tw)[q]) == leg_sum(
            phi,
            tw,
            x,
            3,
            m,
            stride,
            u,
            q,
        ),
{
    let e = m * stride;
    let w = u * stride;
    assert(3 * e == stride * (3 * m)) by (nonlinear_arith)
        requires
            e == m * stride,
    ;
    lemma_step_roots(phi, tw, 3, e);
    lemma_leg_sum(phi, tw, x, 3, m, stride, u, q);
    fft::lemma_twiddle(u, 1, 3, m, stride);
    fft::lemma_twiddle(u, 2, 3, m, stride);
    fft::lemma_twiddle(m, 1, 3, m, stride);
    assert(1 * w == w);
    lemma_turned(phi, tw, x[1], w);
    lemma_turned(phi, tw, x[2], 2 * w);
    lemma_small_mod(e as nat, tw.len());
    lemma_three(phi, x[0], x[1] * tw[w], x[2] * tw[2 * w], tw[e].i, omega(phi, tw, e));
}

/// A radix-4 butterfly gives the sums of its legs.
proof fn lemma_butterfly4<S: Sample>(
    phi: spec_fn(S) -> real,
    tw: Seq<Cpx<S>>,
    x: Seq<Cpx<S>>,
    m: int,
    stride: int,
    u: int,
    q: int,
)
    requires
        exact(phi),
        exact_roots(phi, tw),
        m >= 1,
        stride >= 1,
        0 <= u < m,
        0 <= q < 4,
        tw.len() == 4 * (m * stride),
    ensures
        point(phi, fft::butterfly(x, 4, m, stride, u, tw)[q]) == leg_sum(
            phi,
            tw,
            x,
            4,
            m,
            stride,
            u,
            q,
        ),
{
    let e = m * stride;
    let w = u * stride;
    assert(4 * e == stride * (4 * m)) by (nonlinear_arith)
        requires
            e == m * stride,
    ;
    lemma_step_roots(phi, tw, 4, e);
    lemma_leg_sum(phi, tw, x, 4, m, stride, u, q);
    assert(1 * w == w);
    if m == 1 {
        assert(w == 0) by (nonlinear_arith)
            requires
                w == u * stride,
                u == 0,
        ;
        lemma_mul_units(point(phi, x[1]));
        lemma_mul_units(point(phi, x[2]));
        lemma_mul_units(point(phi, x[3]));
        assert(2 * w == 0 && 3 * w == 0);
        lemma_four(phi, x[0], x[1], x[2], x[3]);
    } else {
        fft::lemma_twiddle(u, 1, 4, m, stride);
        fft::lemma_twiddle(u, 2, 4, m, stride);
        fft::lemma_twiddle(u, 3, 4, m, stride);
        lemma_turned(phi, tw, x[1], w);
        lemma_turned(phi, tw, x[2], 2 * w);
        lemma_turned(phi, tw, x[3], 3 * w);
        lemma_four(phi, x[0], x[1] * tw[w], x[2] * tw[2 * w], x[3] * tw[3 * w]);
    }
}

/// A radix-5 butterfly gives the sums of its legs.
proof fn lemma_butterfly5<S: Sample>(
    phi: spec_fn(S) -> real,
    tw: Seq<Cpx<S>>,
    x: Seq<Cpx<S>>,
    m: int,
    stride: int,
    u: int,
    q: int,
)
    requires
        exact(phi),
        exact_roots(phi, tw),
        m >= 1,
        stride >= 1,
        0 <= u < m,
        0 <= q < 5,
        tw.len() == 5 * (m * stride),
    ensures
        point(phi, fft::butterfly(x, 5, m, stride, u, tw)[q]) == leg_sum(
            phi,
            tw,
            x,
            5,
            m,
            stride,
            u,
            q,
        ),
{
    let e = m * stride;
    let w = u * stride;
    assert(5 * e == stride * (5 * m)) by (nonlinear_arith)
        requires
            e == m * stride,
    ;
    lemma_step_roots(phi, tw, 5, e);
    lemma_leg_sum(phi, tw, x, 5, m, stride, u, q);
    fft::lemma_twiddle(u, 1, 5, m, stride);
    fft::lemma_twiddle(u, 2, 5, m, stride);
    fft::lemma_twiddle(u, 3, 5, m, stride);
    fft::lemma_twiddle(u, 4, 5, m, stride);
    fft::lemma_twiddle(m, 1, 5, m, stride);
    fft::lemma_twiddle(m, 2, 5, m, stride);
    assert(1 * w == w);
    lemma_turned(phi, tw, x[1], w);
    lemma_turned(phi, tw, x[2], 2 * w);
    lemma_turned(phi, tw, x[3], 3 * w);
    lemma_turned(phi, tw, x[4], 4 * w);
    lemma_small_mod(e as nat, tw.len());
    lemma_small_mod((2 * e) as nat, tw.len());
    lemma_five(
        phi,
        x[0],
        x[1] * tw[w],
        x[2] * tw[2 * w],
        x[3] * tw[3 * w],
        x[4] * tw[4 * w],
        tw[e],
        tw[2 * e],
    );
}

/// Every butterfly gives the sums of its legs.
proof fn lemma_butterfly<S: Sample>(
    phi: spec_fn(S) -> real,
    tw: Seq<Cpx<S>>,
    x: Seq<Cpx<S>>,
    p: int,
    m: int,
    stride: int,
    u: int,
    q: int,
)
    requires
        exact(phi),
        exact_roots(phi, tw),
        2 <= p <= 5,
        p == 2 ==> m == 1 || m == 4,
        m >= 1,
        stride >= 1,
        0 <= u < m,
        0 <= q < p,
        tw.len() == stride * (p * m),
    ensures
        point(phi, fft::butterfly(x, p, m, stride, u, tw)[q]) == leg_sum(
            phi,
            tw,
            x,
            p,
            m,
            stride,
            u,
            q,
        ),
{
    assert(stride * (p * m) == p * (m * stride)) by (nonlinear_arith);
    if p == 2 {
        lemma_butterfly2(phi, tw, x, m, stride, u, q);
    } else if p == 3 {
        lemma_butterfly3(phi, tw, x, m, stride, u, q);
    } else if p == 4 {
        lemma_butterfly4(phi, tw, x, m, stride, u, q);
    } else {
        lemma_butterfly5(phi, tw, x, m, stride, u, q);
    }
}

/// Which element starts the elements of group `g` of the stages from `i` on.
pub open spec fn start_of(radix: Seq<int>, i: int, g: int) -> int {
    fft::restored(radix, g * factor::product(radix.skip(i)))
}

/// Groups of a stage divide into groups of the next one: group `j` of the `p`
/// within group `g` starts `j` steps of the stage later.
proof fn lemma_start_of(radix: Seq<int>, i: int, g: int, j: int)
    requires
        0 <= i < radix.len(),
        forall|k: int| 0 <= k < radix.len() ==> 1 <= #[trigger] radix[k],
        0 <= g < factor::product(radix.take(i)),
        0 <= j < radix[i],
    ensures
        start_of(radix, i + 1, g * radix[i] + j) == start_of(radix, i, g) + factor::product(
            radix.take(i),
        ) * j,
    decreases i,
{
    let p = radix[i];
    let t = factor::product(radix.take(i));
    let n = factor::product(radix.skip(i));
    let m = factor::product(radix.skip(i + 1));
    factor::lemma_stage(radix, i);
    assert((g * p + j) * m == g * n + j * m) by (nonlinear_arith)
        requires
            n == p * m,
    ;
    let r0 = radix[0];
    let rest = radix.drop_first();
    let all = factor::product(rest);
    if i == 0 {
        assert(radix.take(0) == Seq::<int>::empty());
        assert(t == 1);
        assert(g == 0);
        assert(g * n == 0) by (nonlinear_arith)
            requires
                g == 0,
        ;
        assert(rest == radix.skip(1));
        assert(all == m);
        lemma_fundamental_div_mod_converse(j * m, m, j, 0);
        lemma_fundamental_div_mod_converse(0, m, 0, 0);
    } else {
        let i1 = i - 1;
        let t1 = factor::product(rest.take(i1));
        assert(forall|k: int| 0 <= k < rest.len() ==> rest[k] == radix[k + 1]);
        factor::lemma_stage(rest, i1);
        assert(rest.skip(i1) == radix.skip(i));
        assert(rest.skip(i1 + 1) == radix.skip(i + 1));
        assert(radix.take(i).drop_first() == rest.take(i1));
        assert(t == r0 * t1);
        assert(all == t1 * n) by {
            assert(t1 * (rest[i1] * factor::product(rest.skip(i1 + 1))) == all);
        }
        let d = g / t1;
        let g1 = g % t1;
        lemma_fundamental_div_mod(g, t1);
        assert(0 <= d < r0) by (nonlinear_arith)
            requires
                g == t1 * d + g1,
                0 <= g1 < t1,
                0 <= g < r0 * t1,
        ;
        assert(g * n == d * all + g1 * n) by (nonlinear_arith)
            requires
                g == t1 * d + g1,
                all == t1 * n,
        ;
        assert(0 <= g1 * n && g1 * n + j * m < all && 0 <= j * m && g1 * n < all)
            by (nonlinear_arith)
            requires
                0 <= g1 < t1,
                0 <= j < p,
                m >= 1,
                n == p * m,
                all == t1 * n,
        ;
        lemma_fundamental_div_mod_converse(g * n + j * m, all, d, g1 * n + j * m);
        lemma_fundamental_div_mod_converse(g * n, all, d, g1 * n);
        lemma_start_of(rest, i1, g1, j);
        assert((g1 * p + j) * m == g1 * n + j * m) by (nonlinear_arith)
            requires
                n == p * m,
        ;
        let a = fft::restored(rest, g1 * n);
        assert(fft::restored(rest, g1 * n + j * m) == a + t1 * j);
        assert(r0 * (a + t1 * j) == r0 * a + t * j) by (nonlinear_arith)
            requires
                t == r0 * t1,
        ;
    }
}

/// Term `s` of the transform of the elements that lie `t` apart from `start`
/// on, at frequency `k`.
pub open spec fn term<S: Sample>(
    phi: spec_fn(S) -> real,
    tw: Seq<Cpx<S>>,
    x: Seq<Cpx<S>>,
    scale: S,
    start: int,
    t: int,
    k: int,
    s: int,
) -> Point {
    point(phi, x[start + t * s].scaled(scale)) * omega(phi, tw, t * (k * s))
}

/// The transform of the `n` elements that lie `t` apart from `start` on, at
/// frequency `k`.
pub open spec fn partial<S: Sample>(
    phi: spec_fn(S) -> real,
    tw: Seq<Cpx<S>>,
    x: Seq<Cpx<S>>,
    scale: S,
    start: int,
    t: int,
    k: int,
    n: nat,
) -> Point {
    sum(|s: int| term(phi, tw, x, scale, start, t, k, s), n)
}

/// What the buffer holds between stages: after the stages from `i` on, each of
/// their groups is the transform of the elements that it started with.
pub open spec fn transformed_upto<S: Sample>(
    phi: spec_fn(S) -> real,
    tw: Seq<Cpx<S>>,
    x: Seq<Cpx<S>>,
    scale: S,
    radix: Seq<int>,
    f: Seq<Cpx<S>>,
    i: int,
) -> bool {
    let t = factor::product(radix.take(i));
    let n = factor::product(radix.skip(i));
    forall|g: int, k: int|
        0 <= g < t && 0 <= k < n ==> point(phi, #[trigger] f[g * n + k]) == partial(
            phi,
            tw,
            x,
            scale,
            start_of(radix, i, g),
            t,
            k,
            n as nat,
        )
}

/// One group of a stage, for one of its inputs: its transform, turned, is every
/// `p`-th term of the transform that the stage computes.
proof fn lemma_row<S: Sample>(
    phi: spec_fn(S) -> real,
    tw: Seq<Cpx<S>>,
    x: Seq<Cpx<S>>,
    scale: S,
    start: int,
    t: int,
    p: int,
    m: nat,
    u: int,
    q: int,
    j: int,
)
    requires
        exact(phi),
        exact_roots(phi, tw),
        tw.len() == t * (p * m),
    ensures
        partial(phi, tw, x, scale, start + t * j, t * p, u, m) * omega(
            phi,
            tw,
            j * (t * (u + m * q)),
        ) == sum(|s: int| term(phi, tw, x, scale, start, t, q * m + u, j + p * s), m),
{
    let k = q * m + u;
    let f = |s: int| term(phi, tw, x, scale, start + t * j, t * p, u, s);
    let g = |s: int| term(phi, tw, x, scale, start, t, k, j + p * s);
    let c = omega(phi, tw, j * (t * (u + m * q)));
    assert forall|s: int| 0 <= s < m implies #[trigger] g(s) == f(s) * c by {
        assert(start + t * j + (t * p) * s == start + t * (j + p * s)) by (nonlinear_arith);
        let a = (t * p) * (u * s);
        let b = j * (t * (u + m * q));
        let n = tw.len() as int;
        assert(adds_up(phi, tw, a, b));
        assert(t * (k * j) == b) by (nonlinear_arith)
            requires
                k == q * m + u,
                b == j * (t * (u + m * q)),
        ;
        assert(t * (u * (p * s)) == a) by (nonlinear_arith)
            requires
                a == (t * p) * (u * s),
        ;
        assert(t * ((q * m) * (p * s)) == (q * s) * n) by (nonlinear_arith)
            requires
                n == t * (p * m),
        ;
        let v = p * s;
        assert(t * (k * (j + v)) == t * (k * j) + t * (u * v) + t * ((q * m) * v))
            by (nonlinear_arith)
            requires
                k == q * m + u,
        ;
        lemma_omega_turns(phi, tw, a + b, q * s);
        lemma_mul_assoc(
            point(phi, x[start + t * (j + p * s)].scaled(scale)),
            omega(phi, tw, a),
            omega(phi, tw, b),
        );
    }
    lemma_sum_scale(f, g, c, m);
}

/// One stage turns the transforms of its groups' parts into those of the
/// groups.
proof fn lemma_staged<S: Sample>(
    phi: spec_fn(S) -> real,
    tw: Seq<Cpx<S>>,
    x: Seq<Cpx<S>>,
    scale: S,
    radix: Seq<int>,
    f: Seq<Cpx<S>>,
    i: int,
)
    requires
        exact(phi),
        exact_roots(phi, tw),
        0 <= i < radix.len(),
        factor::runnable(radix, tw.len() as int),
        f.len() == tw.len(),
        transformed_upto(phi, tw, x, scale, radix, f, i + 1),
    ensures
        transformed_upto(
            phi,
            tw,
            x,
            scale,
            radix,
            fft::staged(
                f,
                radix[i],
                factor::product(radix.skip(i + 1)),
                factor::product(radix.take(i)),
                tw,
            ),
            i,
        ),
{
    let p = radix[i];
    let m = factor::product(radix.skip(i + 1));
    let t = factor::product(radix.take(i));
    let n = factor::product(radix.skip(i));
    assert(forall|k: int| 0 <= k < radix.len() ==> 1 <= #[trigger] radix[k]);
    factor::lemma_stage(radix, i);
    let out = fft::staged(f, p, m, t, tw);
    assert forall|g: int, k: int| 0 <= g < t && 0 <= k < n implies point(
        phi,
        #[trigger] out[g * n + k],
    ) == partial(phi, tw, x, scale, start_of(radix, i, g), t, k, n as nat) by {
        let q = k / m;
        let u = k % m;
        lemma_fundamental_div_mod(k, m);
        assert(0 <= q < p) by (nonlinear_arith)
            requires
                k == m * q + u,
                0 <= u < m,
                0 <= k < p * m,
        ;
        assert(m * q == q * m) by (nonlinear_arith);
        let idx = g * n + k;
        let c = g * m + u;
        assert(0 <= idx < t * (p * m)) by (nonlinear_arith)
            requires
                idx == g * n + k,
                0 <= g < t,
                0 <= k < n,
                n == p * m,
        ;
        assert(0 <= c < t * m) by (nonlinear_arith)
            requires
                c == g * m + u,
                0 <= g < t,
                0 <= u < m,
        ;
        lemma_fundamental_div_mod_converse(c, m, g, u);
        fft::lemma_leg(c, q, p, m, t);
        assert(fft::first_leg(c, p, m) == g * (p * m) + u);
        assert(idx == fft::first_leg(c, p, m) + q * m);
        let l = fft::legs(f, c, p, m);
        lemma_butterfly(phi, tw, l, p, m, t, u, q);
        let start = start_of(radix, i, g);
        let ls = |j: int| point(phi, l[j]) * omega(phi, tw, j * (t * (u + m * q)));
        let big = |s: int| term(phi, tw, x, scale, start, t, k, s);
        let rows = |j: int| sum(|s: int| big(j + p * s), m as nat);
        assert forall|j: int| 0 <= j < p implies #[trigger] ls(j) == rows(j) by {
            let h = g * p + j;
            assert(0 <= h < t * p) by (nonlinear_arith)
                requires
                    h == g * p + j,
                    0 <= g < t,
                    0 <= j < p,
            ;
            assert(h * m + u == g * (p * m) + u + j * m) by (nonlinear_arith)
                requires
                    h == g * p + j,
            ;
            assert(l[j] == f[h * m + u]);
            lemma_start_of(radix, i, g, j);
            lemma_row(phi, tw, x, scale, start, t, p, m as nat, u, q, j);
            let a = |s: int| term(phi, tw, x, scale, start, t, q * m + u, j + p * s);
            let b = |s: int| big(j + p * s);
            assert(forall|s: int| #[trigger] a(s) == b(s));
            lemma_sum_same(a, b, m as nat);
        }
        lemma_sum_same(ls, rows, p as nat);
        lemma_sum_strides(big, p as nat, m as nat);
        let strided = |j: int| sum(|s: int| big(j + (p as nat) * s), m as nat);
        assert forall|j: int| 0 <= j < p implies #[trigger] rows(j) == strided(j) by {
            let b = |s: int| big(j + p * s);
            let d = |s: int| big(j + (p as nat) * s);
            lemma_sum_same(b, d, m as nat);
        }
        lemma_sum_same(rows, strided, p as nat);
        assert((p as nat) * (m as nat) == n as nat);
    }
}

/// The stages from `i` down to the first turn the transforms of the groups into
/// the transform of the whole.
proof fn lemma_run<S: Sample>(
    phi: spec_fn(S) -> real,
    tw: Seq<Cpx<S>>,
    x: Seq<Cpx<S>>,
    scale: S,
    radix: Seq<int>,
    f: Seq<Cpx<S>>,
    i: nat,
)
    requires
        exact(phi),
        exact_roots(phi, tw),
        i <= radix.len(),
        factor::runnable(radix, tw.len() as int),
        f.len() == tw.len(),
        transformed_upto(phi, tw, x, scale, radix, f, i as int),
    ensures
        transformed_upto(phi, tw, x, scale, radix, fft::run(f, radix, i, tw), 0),
    decreases i,
{
    if i > 0 {
        lemma_staged(phi, tw, x, scale, radix, f, i - 1);
        lemma_run(
            phi,
            tw,
            x,
            scale,
            radix,
            fft::staged(
                f,
                radix[i - 1],
                factor::product(radix.skip(i as int)),
                factor::product(radix.take(i - 1)),
                tw,
            ),
            (i - 1) as nat,
        );
    }
}

/// Where the arithmetic and the roots of unity are exact, the transform is the
/// discrete Fourier transform: output `k` is the sum of the scaled inputs, each
/// turned clockwise by `k` steps of its place.
pub proof fn lemma_transform_is_dft<S: Sample>(
    phi: spec_fn(S) -> real,
    x: Seq<Cpx<S>>,
    k: int,
)
    requires
        exact(phi),
        x.len() >= 2,
        factor::smooth(x.len() as int),
        exact_roots(phi, fft::roots::<S>(x.len() as int)),
        0 <= k < x.len(),
    ensures
        point(phi, fft::transformed(x)[k]) == sum(
            |j: int|
                point(phi, x[j].scaled(fft::scale_of::<S>(x.len() as int))) * omega(
                    phi,
                    fft::roots::<S>(x.len() as int),
                    k * j,
                ),
            x.len(),
        ),
{
    let n = x.len() as int;
    let radix = factor::order(n);
    let tw = fft::roots::<S>(n);
    let scale = fft::scale_of::<S>(n);
    let f = fft::arranged(x, radix, scale);
    factor::lemma_plan(n);
    let l = radix.len() as int;
    assert(radix.take(l) == radix);
    assert(radix.skip(l) == Seq::<int>::empty());
    assert(factor::product(radix.skip(l)) == 1);
    assert(transformed_upto(phi, tw, x, scale, radix, f, l)) by {
        assert forall|g: int, c: int| 0 <= g < n && 0 <= c < 1 implies point(
            phi,
            #[trigger] f[g * 1 + c],
        ) == partial(phi, tw, x, scale, start_of(radix, l, g), n, c, 1) by {
            assert(g * 1 + c == g);
            let start = start_of(radix, l, g);
            assert(g * factor::product(radix.skip(l)) == g) by (nonlinear_arith)
                requires
                    factor::product(radix.skip(l)) == 1,
            ;
            let h = |s: int| term(phi, tw, x, scale, start, n, c, s);
            assert(n * 0 == 0 && c * 0 == 0);
            assert(n * (c * 0) == 0) by (nonlinear_arith)
                requires
                    c == 0,
            ;
            lemma_mul_units(point(phi, x[start].scaled(scale)));
            assert(h(0) == point(phi, x[start].scaled(scale)));
            reveal_with_fuel(sum, 2);
            assert(sum(h, 1) == zero() + h(0));
        }
    }
    lemma_run(phi, tw, x, scale, radix, f, radix.len());
    let out = fft::transformed(x);
    assert(radix.take(0) == Seq::<int>::empty());
    assert(radix.skip(0) == radix);
    assert(factor::product(radix.take(0)) == 1);
    assert(point(phi, out[0 * n + k]) == partial(
        phi,
        tw,
        x,
        scale,
        start_of(radix, 0, 0),
        1,
        k,
        n as nat,
    ));
    assert(0 * n + k == k);
    assert(start_of(radix, 0, 0) == 0) by {
        assert(0 * factor::product(radix.skip(0)) == 0);
        lemma_restored_zero(radix);
    }
    let a = |s: int| term(phi, tw, x, scale, start_of(radix, 0, 0), 1, k, s);
    let b = |j: int| point(phi, x[j].scaled(scale)) * omega(phi, tw, k * j);
    assert forall|s: int| 0 <= s < n implies #[trigger] a(s) == b(s) by {
        assert(0 + 1 * s == s && 1 * (k * s) == k * s);
    }
    lemma_sum_same(a, b, n as nat);
}

/// The first element stays in place.
proof fn lemma_restored_zero(radix: Seq<int>)
    requires
        forall|k: int| 0 <= k < radix.len() ==> 1 <= #[trigger] radix[k],
    ensures
        fft::restored(radix, 0) == 0,
    decreases radix.len(),
{
    if radix.len() > 0 {
        let rest = radix.drop_first();
        lemma_restored_zero(rest);
        factor::lemma_stage(radix, 0);
        assert(rest == radix.skip(1));
        let m = factor::product(rest);
        lemma_fundamental_div_mod_converse(0, m, 0, 0);
        assert(radix[0] * 0 == 0) by (nonlinear_arith);
    }
}

} // verus!
