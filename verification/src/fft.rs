//! A mixed-radix complex Fourier transform with stages of radix 2, 3, 4 and 5.
//!
//! The transform scales its input by the inverse of the length, permutes it by
//! reversing the digits of the index, and then runs its stages in place, the
//! last one first.

use vstd::prelude::*;
use vstd::arithmetic::div_mod::*;
use vstd::arithmetic::mul::*;
use crate::arith::{filled, Arith, Real, Sample, SampleArith};
use crate::factor::kf_factor;
use crate::factor;

verus! {

/// A complex number.
#[derive(Clone, Copy, Debug, PartialEq)]
pub struct Cpx<S> {
    pub r: S,
    pub i: S,
}

impl<S: Sample> Cpx<S> {
    /// The number `r + i * sqrt(-1)`.
    pub fn new(r: S, i: S) -> (c: Self)
        ensures
            c == (Cpx { r, i }),
    {
        Cpx { r, i }
    }

    pub open spec fn spec_add(self, rhs: Self) -> Self {
        Cpx { r: self.r + rhs.r, i: self.i + rhs.i }
    }

    pub open spec fn spec_sub(self, rhs: Self) -> Self {
        Cpx { r: self.r - rhs.r, i: self.i - rhs.i }
    }

    pub open spec fn spec_mul(self, rhs: Self) -> Self {
        Cpx {
            r: self.r * rhs.r - self.i * rhs.i,
            i: self.r * rhs.i + self.i * rhs.r,
        }
    }

    /// The number with both parts multiplied by `s`.
    pub open spec fn scaled(self, s: S) -> Self {
        Cpx { r: s * self.r, i: s * self.i }
    }

    /// The number zero.
    pub open spec fn origin() -> Self {
        Cpx { r: S::nil(), i: S::nil() }
    }
}

/// Sum of two complex numbers.
pub fn c_add<S: Sample>(a: Cpx<S>, b: Cpx<S>) -> (c: Cpx<S>)
    ensures
        S::functional() ==> c == a + b,
{
    Cpx { r: a.r.plus(b.r), i: a.i.plus(b.i) }
}

/// Difference of two complex numbers.
pub fn c_sub<S: Sample>(a: Cpx<S>, b: Cpx<S>) -> (c: Cpx<S>)
    ensures
        S::functional() ==> c == a - b,
{
    Cpx { r: a.r.minus(b.r), i: a.i.minus(b.i) }
}

/// Product of two complex numbers.
pub fn c_mul<S: Sample>(a: Cpx<S>, b: Cpx<S>) -> (c: Cpx<S>)
    ensures
        S::functional() ==> c == a * b,
{
    Cpx {
        r: a.r.times(b.r).minus(a.i.times(b.i)),
        i: a.r.times(b.i).plus(a.i.times(b.r)),
    }
}

/// What the second leg of a radix-2 butterfly is multiplied by, for groups of
/// one or four: a power of the eighth root of unity.
pub open spec fn eighth_turn<S: Sample>(x: Cpx<S>, u: int) -> Cpx<S> {
    let tw = S::frac(70710677, 100000000);
    if u == 0 {
        x
    } else if u == 1 {
        Cpx { r: (x.r + x.i) * tw, i: (x.i - x.r) * tw }
    } else if u == 2 {
        Cpx { r: x.i, i: -x.r }
    } else {
        Cpx { r: (x.i - x.r) * tw, i: -((x.i + x.r) * tw) }
    }
}

/// A radix-2 butterfly.
pub open spec fn two<S: Sample>(x: Seq<Cpx<S>>, u: int) -> Seq<Cpx<S>> {
    let t = eighth_turn(x[1], u);
    seq![x[0] + t, x[0] - t]
}

/// A radix-4 butterfly on legs that are already turned.
pub open spec fn four<S: Sample>(
    x: Cpx<S>,
    y1: Cpx<S>,
    y2: Cpx<S>,
    y3: Cpx<S>,
) -> Seq<Cpx<S>> {
    let a = x + y2;
    let d = x - y2;
    let s = y1 + y3;
    let t = y1 - y3;
    seq![
        a + s,
        Cpx { r: d.r + t.i, i: d.i - t.r },
        a - s,
        Cpx { r: d.r - t.i, i: d.i + t.r },
    ]
}

/// A radix-3 butterfly on legs that are already turned; `e` is the imaginary
/// part of the third root of unity.
pub open spec fn three<S: Sample>(x: Cpx<S>, y1: Cpx<S>, y2: Cpx<S>, e: S) -> Seq<Cpx<S>> {
    let s = y1 + y2;
    let d = y1 - y2;
    let half = S::frac(1, 2);
    let h = Cpx { r: x.r - half * s.r, i: x.i - half * s.i };
    let t = Cpx { r: d.r * e, i: d.i * e };
    seq![
        x + s,
        Cpx { r: h.r - t.i, i: h.i + t.r },
        Cpx { r: h.r + t.i, i: h.i - t.r },
    ]
}

/// A radix-5 butterfly on legs that are already turned; `ya` and `yb` are the
/// first two fifth roots of unity.
pub open spec fn five<S: Sample>(
    x: Cpx<S>,
    y1: Cpx<S>,
    y2: Cpx<S>,
    y3: Cpx<S>,
    y4: Cpx<S>,
    ya: Cpx<S>,
    yb: Cpx<S>,
) -> Seq<Cpx<S>> {
    let s7 = y1 + y4;
    let s10 = y1 - y4;
    let s8 = y2 + y3;
    let s9 = y2 - y3;
    let s5 = Cpx {
        r: x.r + (s7.r * ya.r + s8.r * yb.r),
        i: x.i + (s7.i * ya.r + s8.i * yb.r),
    };
    let s6 = Cpx { r: s10.i * ya.i + s9.i * yb.i, i: -(s10.r * ya.i + s9.r * yb.i) };
    let s11 = Cpx {
        r: x.r + (s7.r * yb.r + s8.r * ya.r),
        i: x.i + (s7.i * yb.r + s8.i * ya.r),
    };
    let s12 = Cpx { r: s9.i * ya.i - s10.i * yb.i, i: s10.r * yb.i - s9.r * ya.i };
    seq![
        Cpx { r: x.r + (s7.r + s8.r), i: x.i + (s7.i + s8.i) },
        s5 - s6,
        s11 + s12,
        s11 - s12,
        s5 + s6,
    ]
}

/// The butterfly of a stage with the given radix, on groups of `m`, at place
/// `u` of the group. `tw` holds the roots of unity, `stride` of which make one
/// step of this stage.
pub open spec fn butterfly<S: Sample>(
    x: Seq<Cpx<S>>,
    radix: int,
    m: int,
    stride: int,
    u: int,
    tw: Seq<Cpx<S>>,
) -> Seq<Cpx<S>> {
    if radix == 2 {
        two(x, u)
    } else if radix == 3 {
        three(x[0], x[1] * tw[u * stride], x[2] * tw[2 * (u * stride)], tw[m * stride].i)
    } else if radix == 4 && m == 1 {
        four(x[0], x[1], x[2], x[3])
    } else if radix == 4 {
        four(
            x[0],
            x[1] * tw[u * stride],
            x[2] * tw[2 * (u * stride)],
            x[3] * tw[3 * (u * stride)],
        )
    } else {
        five(
            x[0],
            x[1] * tw[u * stride],
            x[2] * tw[2 * (u * stride)],
            x[3] * tw[3 * (u * stride)],
            x[4] * tw[4 * (u * stride)],
            tw[m * stride],
            tw[2 * (m * stride)],
        )
    }
}

fn bfly2<S: Sample>(x: &[Cpx<S>], u: usize) -> (y: Vec<Cpx<S>>)
    requires
        x@.len() == 2,
        u < 4,
    ensures
        y@.len() == 2,
        S::functional() ==> y@ == two(x@, u as int),
{
    let tw = S::ratio(70710677, 100000000);
    let a = x[1];
    let t = if u == 0 {
        a
    } else if u == 1 {
        Cpx { r: a.r.plus(a.i).times(tw), i: a.i.minus(a.r).times(tw) }
    } else if u == 2 {
        Cpx { r: a.i, i: a.r.negated() }
    } else {
        Cpx { r: a.i.minus(a.r).times(tw), i: a.i.plus(a.r).times(tw).negated() }
    };
    let mut y: Vec<Cpx<S>> = Vec::new();
    y.push(c_add(x[0], t));
    y.push(c_sub(x[0], t));
    assert(S::functional() ==> y@ == two(x@, u as int));
    y
}

fn bfly3<S: Sample>(x: Cpx<S>, y1: Cpx<S>, y2: Cpx<S>, e: S) -> (y: Vec<Cpx<S>>)
    ensures
        y@.len() == 3,
        S::functional() ==> y@ == three(x, y1, y2, e),
{
    let s = c_add(y1, y2);
    let d = c_sub(y1, y2);
    let half = S::ratio(1, 2);
    let h = Cpx { r: x.r.minus(half.times(s.r)), i: x.i.minus(half.times(s.i)) };
    let t = Cpx { r: d.r.times(e), i: d.i.times(e) };
    let mut y: Vec<Cpx<S>> = Vec::new();
    y.push(c_add(x, s));
    y.push(Cpx { r: h.r.minus(t.i), i: h.i.plus(t.r) });
    y.push(Cpx { r: h.r.plus(t.i), i: h.i.minus(t.r) });
    assert(S::functional() ==> y@ == three(x, y1, y2, e));
    y
}

fn bfly4<S: Sample>(x: Cpx<S>, y1: Cpx<S>, y2: Cpx<S>, y3: Cpx<S>) -> (y: Vec<Cpx<S>>)
    ensures
        y@.len() == 4,
        S::functional() ==> y@ == four(x, y1, y2, y3),
{
    let a = c_add(x, y2);
    let d = c_sub(x, y2);
    let s = c_add(y1, y3);
    let t = c_sub(y1, y3);
    let mut y: Vec<Cpx<S>> = Vec::new();
    y.push(c_add(a, s));
    y.push(Cpx { r: d.r.plus(t.i), i: d.i.minus(t.r) });
    y.push(c_sub(a, s));
    y.push(Cpx { r: d.r.minus(t.i), i: d.i.plus(t.r) });
    assert(S::functional() ==> y@ == four(x, y1, y2, y3));
    y
}

fn bfly5<S: Sample>(
    x: Cpx<S>,
    y1: Cpx<S>,
    y2: Cpx<S>,
    y3: Cpx<S>,
    y4: Cpx<S>,
    ya: Cpx<S>,
    yb: Cpx<S>,
) -> (y: Vec<Cpx<S>>)
    ensures
        y@.len() == 5,
        S::functional() ==> y@ == five(x, y1, y2, y3, y4, ya, yb),
{
    let s7 = c_add(y1, y4);
    let s10 = c_sub(y1, y4);
    let s8 = c_add(y2, y3);
    let s9 = c_sub(y2, y3);
    let s5 = Cpx {
        r: x.r.plus(s7.r.times(ya.r).plus(s8.r.times(yb.r))),
        i: x.i.plus(s7.i.times(ya.r).plus(s8.i.times(yb.r))),
    };
    let s6 = Cpx {
        r: s10.i.times(ya.i).plus(s9.i.times(yb.i)),
        i: s10.r.times(ya.i).plus(s9.r.times(yb.i)).negated(),
    };
    let s11 = Cpx {
        r: x.r.plus(s7.r.times(yb.r).plus(s8.r.times(ya.r))),
        i: x.i.plus(s7.i.times(yb.r).plus(s8.i.times(ya.r))),
    };
    let s12 = Cpx {
        r: s9.i.times(ya.i).minus(s10.i.times(yb.i)),
        i: s10.r.times(yb.i).minus(s9.r.times(ya.i)),
    };
    let mut y: Vec<Cpx<S>> = Vec::new();
    y.push(Cpx { r: x.r.plus(s7.r.plus(s8.r)), i: x.i.plus(s7.i.plus(s8.i)) });
    y.push(c_sub(s5, s6));
    y.push(c_add(s11, s12));
    y.push(c_sub(s11, s12));
    y.push(c_add(s5, s6));
    assert(S::functional() ==> y@ == five(x, y1, y2, y3, y4, ya, yb));
    y
}

/// The butterfly that element `k` takes part in, counting the butterflies of a
/// stage group by group.
pub open spec fn number_of(k: int, radix: int, m: int) -> int {
    (k / (radix * m)) * m + k % m
}

/// The leg of its butterfly that element `k` is.
pub open spec fn leg_of(k: int, radix: int, m: int) -> int {
    (k % (radix * m)) / m
}

/// The element that is the first leg of butterfly `c`.
pub open spec fn first_leg(c: int, radix: int, m: int) -> int {
    (c / m) * (radix * m) + c % m
}

/// The legs of butterfly `c`.
pub open spec fn legs<S>(f: Seq<Cpx<S>>, c: int, radix: int, m: int) -> Seq<Cpx<S>> {
    Seq::new(radix as nat, |j: int| f[first_leg(c, radix, m) + j * m])
}

/// All elements after a stage: each is replaced by its leg of its butterfly.
pub open spec fn staged<S: Sample>(
    f: Seq<Cpx<S>>,
    radix: int,
    m: int,
    stride: int,
    tw: Seq<Cpx<S>>,
) -> Seq<Cpx<S>> {
    Seq::new(
        f.len(),
        |k: int|
            butterfly(
                legs(f, number_of(k, radix, m), radix, m),
                radix,
                m,
                stride,
                k % m,
                tw,
            )[leg_of(k, radix, m)],
    )
}

/// Leg `j` of butterfly `c` is an element of the buffer, and belongs to no
/// other butterfly.
pub proof fn lemma_leg(c: int, j: int, radix: int, m: int, stride: int)
    requires
        radix >= 1,
        m >= 1,
        0 <= c < stride * m,
        0 <= j < radix,
    ensures
        0 <= first_leg(c, radix, m) + j * m < stride * (radix * m),
        number_of(first_leg(c, radix, m) + j * m, radix, m) == c,
        leg_of(first_leg(c, radix, m) + j * m, radix, m) == j,
        (first_leg(c, radix, m) + j * m) % m == c % m,
{
    let g = c / m;
    let u = c % m;
    let mm = radix * m;
    lemma_fundamental_div_mod(c, m);
    assert(mm >= m && mm >= 1) by (nonlinear_arith)
        requires
            mm == radix * m,
            radix >= 1,
            m >= 1,
    ;
    assert(0 <= g < stride) by (nonlinear_arith)
        requires
            c == m * g + u,
            0 <= u < m,
            0 <= c < stride * m,
            m >= 1,
    ;
    let r = j * m + u;
    assert(0 <= r < mm) by (nonlinear_arith)
        requires
            r == j * m + u,
            0 <= j < radix,
            0 <= u < m,
            mm == radix * m,
    ;
    let k = first_leg(c, radix, m) + j * m;
    assert(k == g * mm + r);
    assert(g * mm + r < stride * mm && g * mm >= 0) by (nonlinear_arith)
        requires
            0 <= g < stride,
            0 <= r < mm,
    ;
    lemma_fundamental_div_mod_converse(k, mm, g, r);
    lemma_fundamental_div_mod_converse(r, m, j, u);
    let q = g * radix + j;
    assert(q * m + u == k) by (nonlinear_arith)
        requires
            q == g * radix + j,
            k == g * mm + (j * m + u),
            mm == radix * m,
    ;
    lemma_fundamental_div_mod_converse(k, m, q, u);
    assert(m * g == g * m) by (nonlinear_arith);
}

/// Every element is a leg of its butterfly.
pub proof fn lemma_number(k: int, radix: int, m: int, stride: int)
    requires
        radix >= 1,
        m >= 1,
        0 <= k < stride * (radix * m),
    ensures
        0 <= number_of(k, radix, m) < stride * m,
        0 <= leg_of(k, radix, m) < radix,
        k == first_leg(number_of(k, radix, m), radix, m) + leg_of(k, radix, m) * m,
        number_of(k, radix, m) % m == k % m,
{
    let mm = radix * m;
    assert(mm >= 1) by (nonlinear_arith)
        requires
            mm == radix * m,
            radix >= 1,
            m >= 1,
    ;
    let g = k / mm;
    let r = k % mm;
    lemma_fundamental_div_mod(k, mm);
    assert(0 <= g < stride) by (nonlinear_arith)
        requires
            k == mm * g + r,
            0 <= r < mm,
            0 <= k < stride * mm,
            mm >= 1,
    ;
    let j = r / m;
    let u = r % m;
    lemma_fundamental_div_mod(r, m);
    assert(0 <= j < radix) by (nonlinear_arith)
        requires
            r == m * j + u,
            0 <= u < m,
            0 <= r < mm,
            mm == radix * m,
            m >= 1,
    ;
    let q = g * radix + j;
    assert(q * m + u == k) by (nonlinear_arith)
        requires
            q == g * radix + j,
            k == mm * g + (m * j + u),
            mm == radix * m,
    ;
    lemma_fundamental_div_mod_converse(k, m, q, u);
    let c = number_of(k, radix, m);
    assert(c == g * m + u);
    assert(0 <= g * m + u < stride * m) by (nonlinear_arith)
        requires
            0 <= g < stride,
            0 <= u < m,
    ;
    lemma_fundamental_div_mod_converse(c, m, g, u);
    assert(m * j == j * m && mm * g == g * mm) by (nonlinear_arith);
}

/// The roots of unity that a butterfly uses are in the table.
pub proof fn lemma_twiddle(u: int, k: int, radix: int, m: int, stride: int)
    requires
        radix >= 2,
        m >= 1,
        stride >= 1,
        0 <= u <= m,
        0 <= k < radix,
    ensures
        0 <= k * (u * stride) < stride * (radix * m),
        0 <= u * stride,
        u * stride <= k * (u * stride) || k == 0,
{
    assert(0 <= u * stride <= m * stride) by (nonlinear_arith)
        requires
            0 <= u <= m,
            stride >= 1,
    ;
    let a = u * stride;
    let b = m * stride;
    assert(b >= 1) by (nonlinear_arith)
        requires
            b == m * stride,
            m >= 1,
            stride >= 1,
    ;
    assert(0 <= k * a <= k * b && k * b < radix * b) by (nonlinear_arith)
        requires
            0 <= a <= b,
            b >= 1,
            0 <= k < radix,
    ;
    assert(radix * b == stride * (radix * m)) by (nonlinear_arith)
        requires
            b == m * stride,
    ;
    if k > 0 {
        assert(a <= k * a) by (nonlinear_arith)
            requires
                a >= 0,
                k >= 1,
        ;
    }
}

/// Compute one butterfly.
fn turn<S: Sample>(
    x: &[Cpx<S>],
    radix: usize,
    m: usize,
    stride: usize,
    u: usize,
    tw: &[Cpx<S>],
) -> (y: Vec<Cpx<S>>)
    requires
        2 <= radix <= 5,
        radix == 2 ==> m == 1 || m == 4,
        m >= 1,
        stride >= 1,
        u < m,
        x@.len() == radix,
        tw@.len() == stride * (radix * m),
    ensures
        y@.len() == radix,
        S::functional() ==> y@ == butterfly(
            x@,
            radix as int,
            m as int,
            stride as int,
            u as int,
            tw@,
        ),
{
    if radix == 2 {
        return bfly2(x, u);
    }
    if radix == 4 && m == 1 {
        return bfly4(x[0], x[1], x[2], x[3]);
    }
    assert(tw@.len() == tw.len());
    proof {
        lemma_twiddle(u as int, 1, radix as int, m as int, stride as int);
        lemma_twiddle(u as int, 2, radix as int, m as int, stride as int);
        lemma_twiddle(u as int, radix - 1, radix as int, m as int, stride as int);
        lemma_twiddle(m as int, 1, radix as int, m as int, stride as int);
        lemma_twiddle(m as int, 2, radix as int, m as int, stride as int);
    }
    let w: usize = u * stride;
    let e: usize = m * stride;
    let y1 = c_mul(x[1], tw[w]);
    let y2 = c_mul(x[2], tw[2 * w]);
    if radix == 3 {
        return bfly3(x[0], y1, y2, tw[e].i);
    }
    proof {
        lemma_twiddle(u as int, 3, radix as int, m as int, stride as int);
    }
    let y3 = c_mul(x[3], tw[3 * w]);
    if radix == 4 {
        return bfly4(x[0], y1, y2, y3);
    }
    let y4 = c_mul(x[4], tw[4 * w]);
    bfly5(x[0], y1, y2, y3, y4, tw[e], tw[2 * e])
}

/// Run one stage in place.
fn run_stage<S: Sample>(
    f: &mut [Cpx<S>],
    radix: usize,
    m: usize,
    stride: usize,
    tw: &[Cpx<S>],
)
    requires
        2 <= radix <= 5,
        radix == 2 ==> m == 1 || m == 4,
        m >= 1,
        stride >= 1,
        old(f)@.len() == stride * (radix * m),
        tw@.len() == stride * (radix * m),
    ensures
        final(f)@.len() == old(f)@.len(),
        S::functional() ==> final(f)@ == staged(
            old(f)@,
            radix as int,
            m as int,
            stride as int,
            tw@,
        ),
{
    let ghost f0 = f@;
    let ghost (p, g, t) = (radix as int, m as int, stride as int);
    let ghost goal = staged(f0, p, g, t, tw@);
    assert(f@.len() == f.len());
    assert(t * g <= t * (p * g) && p * g <= t * (p * g)) by (nonlinear_arith)
        requires
            t >= 1,
            g >= 1,
            p >= 1,
    ;
    let count: usize = stride * m;
    let group: usize = radix * m;
    let mut c: usize = 0;
    while c < count
        invariant
            2 <= radix <= 5,
            radix == 2 ==> m == 1 || m == 4,
            m >= 1,
            stride >= 1,
            count == stride * m,
            group == radix * m,
            p == radix,
            g == m,
            t == stride,
            c <= count,
            f0.len() == stride * (radix * m),
            tw@.len() == stride * (radix * m),
            f@.len() == f0.len(),
            goal == staged(f0, p, g, t, tw@),
            forall|k: int|
                0 <= k < f0.len() && number_of(k, p, g) >= c ==> #[trigger] f@[k] == f0[k],
            S::functional() ==> forall|k: int|
                0 <= k < f0.len() && number_of(k, p, g) < c ==> #[trigger] f@[k] == goal[k],
        decreases count - c,
    {
        let ghost before = f@;
        assert(f@.len() == f.len());
        let u: usize = c % m;
        let gi: usize = c / m;
        proof {
            lemma_leg(c as int, 0, p, g, t);
            assert(gi * group >= 0) by (nonlinear_arith);
        }
        let base: usize = gi * group + u;
        let mut x: Vec<Cpx<S>> = Vec::new();
        let mut j: usize = 0;
        while j < radix
            invariant
                j <= radix,
                p == radix,
                g == m,
                t == stride,
                m >= 1,
                f@ == before,
                f@.len() == stride * (radix * m),
                0 <= c < t * g,
                base == first_leg(c as int, p, g),
                x@.len() == j,
                forall|i: int| 0 <= i < j ==> #[trigger] x@[i] == before[base + i * m],
            decreases radix - j,
        {
            proof {
                lemma_leg(c as int, j as int, p, g, t);
                assert(j * m >= 0) by (nonlinear_arith);
            }
            assert(f@.len() == f.len());
            x.push(f[base + j * m]);
            j += 1;
        }
        assert(x@ == legs(f0, c as int, p, g)) by {
            assert forall|i: int| 0 <= i < p implies #[trigger] x@[i] == legs(
                f0,
                c as int,
                p,
                g,
            )[i] by {
                lemma_leg(c as int, i, p, g, t);
            }
        }
        let y = turn(&x, radix, m, stride, u, tw);
        let mut j: usize = 0;
        while j < radix
            invariant
                j <= radix,
                p == radix,
                g == m,
                t == stride,
                m >= 1,
                before.len() == f@.len(),
                f@.len() == stride * (radix * m),
                0 <= c < t * g,
                base == first_leg(c as int, p, g),
                y@.len() == radix,
                forall|k: int|
                    0 <= k < f@.len() ==> #[trigger] f@[k] == if number_of(k, p, g) == c
                        && leg_of(k, p, g) < j {
                        y@[leg_of(k, p, g)]
                    } else {
                        before[k]
                    },
            decreases radix - j,
        {
            let ghost prev = f@;
            proof {
                lemma_leg(c as int, j as int, p, g, t);
                assert(j * m >= 0) by (nonlinear_arith);
            }
            assert(f@.len() == f.len());
            f[base + j * m] = y[j];
            assert forall|k: int| 0 <= k < f@.len() implies #[trigger] f@[k] == if number_of(
                k,
                p,
                g,
            ) == c && leg_of(k, p, g) < j + 1 {
                y@[leg_of(k, p, g)]
            } else {
                before[k]
            } by {
                lemma_number(k, p, g, t);
                assert(prev[k] == prev[k]);
            }
            j += 1;
        }
        assert forall|k: int| 0 <= k < f0.len() && number_of(k, p, g) >= c + 1 implies #[trigger] f@[k]
            == f0[k] by {
            assert(before[k] == f0[k]);
        }
        assert forall|k: int| 0 <= k < f0.len() && number_of(k, p, g) < c + 1 && S::functional()
            implies #[trigger] f@[k] == goal[k] by {
            lemma_number(k, p, g, t);
            assert(before[k] == before[k]);
        }
        c += 1;
    }
    assert(S::functional() ==> f@ == goal) by {
        assert forall|k: int| 0 <= k < f0.len() && S::functional() implies #[trigger] f@[k]
            == goal[k] by {
            lemma_number(k, p, g, t);
        }
    }
}

/// Where element `i` goes: its digits, least significant first with the given
/// radices, are read in the reverse order.
pub open spec fn reversed(radix: Seq<int>, i: int) -> int
    decreases radix.len(),
{
    if radix.len() == 0 {
        0
    } else {
        (i % radix[0]) * factor::product(radix.drop_first()) + reversed(
            radix.drop_first(),
            i / radix[0],
        )
    }
}

/// Which element goes to place `k`.
pub open spec fn restored(radix: Seq<int>, k: int) -> int
    decreases radix.len(),
{
    if radix.len() == 0 {
        0
    } else {
        let rest = factor::product(radix.drop_first());
        k / rest + radix[0] * restored(radix.drop_first(), k % rest)
    }
}

/// Reversing the digits stays inside the buffer, and [`restored`] undoes it.
pub proof fn lemma_reversed(radix: Seq<int>, i: int)
    requires
        forall|k: int| 0 <= k < radix.len() ==> 1 <= #[trigger] radix[k],
        0 <= i < factor::product(radix),
    ensures
        0 <= reversed(radix, i) < factor::product(radix),
        restored(radix, reversed(radix, i)) == i,
    decreases radix.len(),
{
    if radix.len() > 0 {
        let p = radix[0];
        let rest = radix.drop_first();
        let m = factor::product(rest);
        let d = i % p;
        let q = i / p;
        lemma_fundamental_div_mod(i, p);
        assert(0 <= q < m) by (nonlinear_arith)
            requires
                i == p * q + d,
                0 <= d < p,
                0 <= i < p * m,
        ;
        lemma_reversed(rest, q);
        let r = reversed(rest, q);
        assert(0 <= d * m + r < p * m) by (nonlinear_arith)
            requires
                0 <= d < p,
                0 <= r < m,
        ;
        lemma_fundamental_div_mod_converse(d * m + r, m, d, r);
    }
}

/// Every place is filled: [`reversed`] undoes [`restored`], so reversing the
/// digits is a permutation.
pub proof fn lemma_restored(radix: Seq<int>, k: int)
    requires
        forall|k: int| 0 <= k < radix.len() ==> 1 <= #[trigger] radix[k],
        0 <= k < factor::product(radix),
    ensures
        0 <= restored(radix, k) < factor::product(radix),
        reversed(radix, restored(radix, k)) == k,
    decreases radix.len(),
{
    if radix.len() > 0 {
        let p = radix[0];
        let rest = radix.drop_first();
        let m = factor::product(rest);
        assert(m >= 1) by (nonlinear_arith)
            requires
                0 <= k < p * m,
                p >= 1,
        ;
        let d = k / m;
        let r = k % m;
        lemma_fundamental_div_mod(k, m);
        assert(0 <= d < p) by (nonlinear_arith)
            requires
                k == m * d + r,
                0 <= r < m,
                0 <= k < p * m,
        ;
        lemma_restored(rest, r);
        let q = restored(rest, r);
        assert(0 <= d + p * q < p * m) by (nonlinear_arith)
            requires
                0 <= d < p,
                0 <= q < m,
        ;
        assert(p * q == q * p && m * d == d * m) by (nonlinear_arith);
        lemma_fundamental_div_mod_converse(d + p * q, p, q, d);
    }
}

/// One stage: its radix, the length of its groups, and how many groups of all
/// legs there are.
#[derive(Clone, Copy, Debug, PartialEq, Eq)]
pub struct Stage {
    pub radix: usize,
    pub m: usize,
    pub stride: usize,
}

/// Stage `i` of a transform with the given radices.
pub open spec fn stage_of(radix: Seq<int>, i: int) -> Stage {
    Stage {
        radix: radix[i] as usize,
        m: factor::product(radix.skip(i + 1)) as usize,
        stride: factor::product(radix.take(i)) as usize,
    }
}

/// The stages up to `i`, run from the last to the first.
pub open spec fn run<S: Sample>(
    f: Seq<Cpx<S>>,
    radix: Seq<int>,
    i: nat,
    tw: Seq<Cpx<S>>,
) -> Seq<Cpx<S>>
    decreases i,
{
    if i == 0 {
        f
    } else {
        run(
            staged(
                f,
                radix[i - 1],
                factor::product(radix.skip(i as int)),
                factor::product(radix.take(i - 1)),
                tw,
            ),
            radix,
            (i - 1) as nat,
            tw,
        )
    }
}

/// The angle of the `k`-th of the `n` clockwise roots of unity.
pub open spec fn root_angle<W: Real>(n: int, k: int) -> W {
    (W::num(-2) * W::pi_of() / W::num(n)) * W::num(k)
}

/// The `n`-th roots of unity, clockwise, computed in the wider format.
pub open spec fn roots<S: Sample>(n: int) -> Seq<Cpx<S>> {
    Seq::new(
        n as nat,
        |k: int|
            Cpx {
                r: S::narrowed(root_angle::<S::Wide>(n, k).cos_of()),
                i: S::narrowed(root_angle::<S::Wide>(n, k).sin_of()),
            },
    )
}

/// The factor by which a transform of length `n` scales its input.
pub open spec fn scale_of<S: Sample>(n: int) -> S {
    S::unit() / S::num(n)
}

/// The scaled and permuted input of a transform.
pub open spec fn arranged<S: Sample>(x: Seq<Cpx<S>>, radix: Seq<int>, scale: S) -> Seq<Cpx<S>> {
    Seq::new(x.len(), |k: int| x[restored(radix, k)].scaled(scale))
}

/// The Fourier transform of `x`.
pub open spec fn transformed<S: Sample>(x: Seq<Cpx<S>>) -> Seq<Cpx<S>> {
    let n = x.len() as int;
    let radix = factor::order(n);
    run(arranged(x, radix, scale_of::<S>(n)), radix, radix.len(), roots::<S>(n))
}

/// The lengths that a transform can have: no prime factor but 2, 3 and 5, at
/// most eight stages, and below the first stage a length of 15 bits.
pub open spec fn supported(n: int) -> bool {
    &&& 1 <= n <= i32::MAX
    &&& factor::smooth(n)
    &&& factor::order(n).len() <= MAXFACTORS
    &&& factor::divided(n, factor::order(n), 1) <= i16::MAX
}

/// The largest number of stages.
pub const MAXFACTORS: usize = 8;

/// A transform of a fixed length: its stages, its permutation and its roots of
/// unity.
pub struct KissFft<S> {
    nfft: usize,
    scale: S,
    stages: Vec<Stage>,
    bitrev: Vec<usize>,
    twiddles: Vec<Cpx<S>>,
}

impl<S: Sample> KissFft<S> {
    /// The length of the transform.
    pub closed spec fn size(&self) -> int {
        self.nfft as int
    }

    /// The tables are those of a transform of this length.
    pub closed spec fn wf(&self) -> bool {
        let n = self.nfft as int;
        let radix = factor::order(n);
        &&& supported(n)
        &&& self.stages@ == Seq::new(radix.len(), |i: int| stage_of(radix, i))
        &&& self.bitrev@.len() == n
        &&& forall|i: int| 0 <= i < n ==> #[trigger] self.bitrev@[i] == reversed(radix, i)
        &&& self.twiddles@.len() == n
        &&& S::functional() ==> self.scale == scale_of::<S>(n) && self.twiddles@ == roots::<S>(n)
    }

    /// Build the tables of a transform of `nfft` points.
    pub fn new(nfft: usize) -> (st: Self)
        requires
            supported(nfft as int),
        ensures
            st.wf(),
            st.size() == nfft,
    {
        let ghost n = nfft as int;
        let ghost radix = factor::order(n);
        let mut factors = filled(0i16, 2 * MAXFACTORS);
        let ok = kf_factor(nfft as i32, factors.as_mut_slice());
        let stages = stages_of(nfft, &factors);
        let twiddles = compute_twiddles::<S>(nfft);
        let bitrev = compute_bitrev_table(nfft, &stages);
        assert(radix == factor::order(n));
        KissFft {
            nfft,
            scale: S::ratio(1, 1).over(S::ratio(nfft as i64, 1)),
            stages,
            bitrev,
            twiddles,
        }
    }

    /// The length of the transform.
    pub fn nfft(&self) -> (n: usize)
        ensures
            n == self.size(),
    {
        self.nfft
    }

    /// The Fourier transform of `fin`, scaled by the inverse of its length.
    pub fn forward(&self, fin: &[Cpx<S>], fout: &mut [Cpx<S>])
        requires
            self.wf(),
            self.size() >= 2,
            fin@.len() == self.size(),
            old(fout)@.len() == self.size(),
        ensures
            final(fout)@.len() == self.size(),
            S::functional() ==> final(fout)@ == transformed(fin@),
    {
        let ghost n = self.nfft as int;
        let ghost radix = factor::order(n);
        let ghost goal = arranged(fin@, radix, self.scale);
        proof {
            factor::lemma_order(n);
            assert forall|k: int| 0 <= k < n implies #[trigger] restored(radix, k) >= 0 by {
                lemma_restored(radix, k);
            }
        }
        let mut i: usize = 0;
        while i < self.nfft
            invariant
                self.wf(),
                n == self.nfft,
                radix == factor::order(n),
                factor::product(radix) == n,
                forall|k: int| 0 <= k < radix.len() ==> 1 <= #[trigger] radix[k] <= 5,
                goal == arranged(fin@, radix, self.scale),
                i <= n,
                fin@.len() == n,
                fout@.len() == n,
                S::functional() ==> forall|k: int|
                    0 <= k < n && restored(radix, k) < i ==> #[trigger] fout@[k] == goal[k],
            decreases n - i,
        {
            let ghost before = fout@;
            let x = fin[i];
            let dst = self.bitrev[i];
            proof {
                lemma_reversed(radix, i as int);
            }
            fout[dst] = Cpx { r: self.scale.times(x.r), i: self.scale.times(x.i) };
            assert forall|k: int|
                0 <= k < n && restored(radix, k) < i + 1 && S::functional() implies #[trigger] fout@[k]
                == goal[k] by {
                lemma_restored(radix, k);
                assert(before[k] == before[k]);
            }
            i += 1;
        }
        assert(S::functional() ==> fout@ == goal) by {
            assert forall|k: int| 0 <= k < n && S::functional() implies #[trigger] fout@[k]
                == goal[k] by {
                lemma_restored(radix, k);
            }
        }
        self.process(fout);
    }

    /// Run the stages in place, the last one first.
    fn process(&self, fout: &mut [Cpx<S>])
        requires
            self.wf(),
            self.size() >= 2,
            old(fout)@.len() == self.size(),
        ensures
            final(fout)@.len() == self.size(),
            S::functional() ==> final(fout)@ == run(
                old(fout)@,
                factor::order(self.size()),
                factor::order(self.size()).len(),
                roots::<S>(self.size()),
            ),
    {
        let ghost n = self.nfft as int;
        let ghost radix = factor::order(n);
        let ghost f0 = fout@;
        let mut i: usize = self.stages.len();
        while i > 0
            invariant
                self.wf(),
                n >= 2,
                n == self.nfft,
                radix == factor::order(n),
                i <= radix.len(),
                fout@.len() == n,
                S::functional() ==> run(fout@, radix, i as nat, roots::<S>(n)) == run(
                    f0,
                    radix,
                    radix.len(),
                    roots::<S>(n),
                ),
            decreases i,
        {
            i -= 1;
            let st = self.stages[i];
            proof {
                factor::lemma_order(n);
                factor::lemma_plan(n);
                factor::lemma_stage(radix, i as int);
                let (t, p, m) = (
                    factor::product(radix.take(i as int)),
                    radix[i as int],
                    factor::product(radix.skip(i + 1)),
                );
                assert(t <= n && m <= n) by (nonlinear_arith)
                    requires
                        t * (p * m) == n,
                        t >= 1,
                        p >= 1,
                        m >= 1,
                ;
            }
            run_stage(fout, st.radix, st.m, st.stride, &self.twiddles);
        }
    }
}

/// The roots of unity of a transform.
fn compute_twiddles<S: Sample>(nfft: usize) -> (tw: Vec<Cpx<S>>)
    requires
        1 <= nfft <= i32::MAX,
    ensures
        tw@.len() == nfft,
        S::functional() ==> tw@ == roots::<S>(nfft as int),
{
    let step = <S::Wide as Real>::ratio(-2, 1).times(<S::Wide as Real>::pi()).over(
        <S::Wide as Real>::ratio(nfft as i64, 1),
    );
    let mut tw: Vec<Cpx<S>> = Vec::new();
    let mut i: usize = 0;
    while i < nfft
        invariant
            1 <= nfft <= i32::MAX,
            i <= nfft,
            tw@.len() == i,
            S::functional() ==> step == <S::Wide as Arith>::num(-2) * <S::Wide as Arith>::pi_of()
                / <S::Wide as Arith>::num(nfft as int),
            S::functional() ==> forall|k: int|
                0 <= k < i ==> #[trigger] tw@[k] == roots::<S>(nfft as int)[k],
        decreases nfft - i,
    {
        let phase = step.times(<S::Wide as Real>::ratio(i as i64, 1));
        tw.push(Cpx { r: S::narrow(phase.cosine()), i: S::narrow(phase.sine()) });
        i += 1;
    }
    tw
}

/// The stages that a list of factors describes.
fn stages_of(nfft: usize, factors: &Vec<i16>) -> (stages: Vec<Stage>)
    requires
        supported(nfft as int),
        factors@.len() == 2 * MAXFACTORS,
        factors@ == factor::planned(Seq::new(2 * MAXFACTORS as nat, |i: int| 0i16), nfft as int),
    ensures
        stages@ == Seq::new(
            factor::order(nfft as int).len(),
            |i: int| stage_of(factor::order(nfft as int), i),
        ),
{
    let ghost n = nfft as int;
    let ghost radix = factor::order(n);
    let mut stages: Vec<Stage> = Vec::new();
    let mut stride: usize = 1;
    let mut i: usize = 0;
    let mut more = true;
    proof {
        factor::lemma_order(n);
        assert(radix.take(0) == Seq::<int>::empty());
    }
    while more
        invariant
            supported(n),
            n == nfft,
            radix == factor::order(n),
            factors@ == factor::planned(Seq::new(2 * MAXFACTORS as nat, |i: int| 0i16), n),
            i <= radix.len() <= MAXFACTORS,
            more <==> i < radix.len(),
            stages@ == Seq::new(i as nat, |j: int| stage_of(radix, j)),
            stride == factor::product(radix.take(i as int)),
        decreases radix.len() - i,
    {
        proof {
            factor::lemma_order(n);
            factor::lemma_stage(radix, i as int);
            let (t, p, m) = (
                factor::product(radix.take(i as int)),
                radix[i as int],
                factor::product(radix.skip(i + 1)),
            );
            assert(t * p <= n) by (nonlinear_arith)
                requires
                    t * (p * m) == n,
                    t >= 1,
                    p >= 1,
                    m >= 1,
            ;
            assert(factor::divided(n, radix, (i + 1) as nat) == m);
            assert(factors@[2 * i] == p);
            assert(factors@[2 * i + 1] == m);
        }
        let p = factors[2 * i] as usize;
        let m = factors[2 * i + 1] as usize;
        stages.push(Stage { radix: p, m, stride });
        stride = stride * p;
        i += 1;
        more = m != 1;
        assert(stages@ == Seq::new(i as nat, |j: int| stage_of(radix, j)));
    }
    stages
}

/// The permutation of a transform.
fn compute_bitrev_table(nfft: usize, stages: &Vec<Stage>) -> (bitrev: Vec<usize>)
    requires
        supported(nfft as int),
        stages@ == Seq::new(
            factor::order(nfft as int).len(),
            |i: int| stage_of(factor::order(nfft as int), i),
        ),
    ensures
        bitrev@.len() == nfft,
        forall|i: int|
            0 <= i < nfft ==> #[trigger] bitrev@[i] == reversed(factor::order(nfft as int), i),
{
    let ghost radix = factor::order(nfft as int);
    proof {
        factor::lemma_order(nfft as int);
    }
    let mut bitrev: Vec<usize> = Vec::new();
    let mut i: usize = 0;
    while i < nfft
        invariant
            supported(nfft as int),
            radix == factor::order(nfft as int),
            factor::product(radix) == nfft,
            forall|k: int| 0 <= k < radix.len() ==> 1 <= #[trigger] radix[k] <= 5,
            stages@ == Seq::new(radix.len(), |i: int| stage_of(radix, i)),
            i <= nfft,
            bitrev@.len() == i,
            forall|k: int| 0 <= k < i ==> #[trigger] bitrev@[k] == reversed(radix, k),
        decreases nfft - i,
    {
        let mut left: usize = i;
        let mut at: usize = 0;
        let mut l: usize = 0;
        assert(radix.skip(0) == radix);
        proof {
            lemma_reversed(radix, i as int);
        }
        while l < stages.len()
            invariant
                supported(nfft as int),
                i < nfft,
                l <= radix.len(),
                factor::product(radix) == nfft,
                forall|k: int| 0 <= k < radix.len() ==> 1 <= #[trigger] radix[k] <= 5,
                stages@ == Seq::new(radix.len(), |i: int| stage_of(radix, i)),
                0 <= left < factor::product(radix.skip(l as int)),
                0 <= at,
                at + reversed(radix.skip(l as int), left as int) == reversed(radix, i as int),
                reversed(radix, i as int) < nfft,
            decreases stages@.len() - l,
        {
            let st = stages[l];
            let ghost rest = radix.skip(l as int);
            proof {
                factor::lemma_stage(radix, l as int);
                assert(rest.drop_first() == radix.skip(l + 1));
                let (t, p, m) = (
                    factor::product(radix.take(l as int)),
                    radix[l as int],
                    factor::product(radix.skip(l + 1)),
                );
                assert(m <= nfft) by (nonlinear_arith)
                    requires
                        t * (p * m) == nfft,
                        t >= 1,
                        p >= 1,
                        m >= 1,
                ;
                let d = left as int % p;
                let q = left as int / p;
                lemma_fundamental_div_mod(left as int, p);
                assert(0 <= q < m) by (nonlinear_arith)
                    requires
                        left == p * q + d,
                        0 <= d < p,
                        0 <= left < p * m,
                ;
                lemma_reversed(radix.skip(l + 1), q);
                assert(d * m >= 0) by (nonlinear_arith)
                    requires
                        d >= 0,
                        m >= 1,
                ;
            }
            at = at + (left % st.radix) * st.m;
            left = left / st.radix;
            l += 1;
        }
        assert(radix.skip(l as int) == Seq::<int>::empty());
        bitrev.push(at);
        i += 1;
    }
    bitrev
}

} // verus!
