//! Linear prediction and the correlation kernels of the pitch search.
//!
//! Sums of products are formed in a fixed order: the contracts say in which.

use vstd::prelude::*;
use vstd::slice::slice_subrange;
use crate::arith::{filled, Arith, Sample, SampleArith};

verus! {

/// `init`, plus `count` products of elements of `x` and `y`, added one by one:
/// the elements lie `step` apart, from `xo` on in `x` and from `yo` on in `y`.
pub open spec fn dot_from<S: Sample>(
    init: S,
    x: Seq<S>,
    xo: int,
    y: Seq<S>,
    yo: int,
    step: int,
    count: nat,
) -> S
    decreases count,
{
    if count == 0 {
        init
    } else {
        let k = step * (count - 1);
        dot_from(init, x, xo, y, yo, step, (count - 1) as nat) + x[xo + k] * y[yo + k]
    }
}

/// The sum of the first `n` products, in order.
pub open spec fn dot<S: Sample>(x: Seq<S>, y: Seq<S>, n: nat) -> S {
    dot_from(S::nil(), x, 0, y, 0, 1, n)
}

/// The sum of the first `n` products, formed in four interleaved sums; what is
/// left over is added at the end.
pub open spec fn dot_by_four<S: Sample>(x: Seq<S>, y: Seq<S>, n: nat) -> S {
    let q = n / 4;
    let s0 = dot_from(S::nil(), x, 0, y, 0, 4, q);
    let s1 = dot_from(S::nil(), x, 1, y, 1, 4, q);
    let s2 = dot_from(S::nil(), x, 2, y, 2, 4, q);
    let s3 = dot_from(S::nil(), x, 3, y, 3, 4, q);
    dot_from((s0 + s1) + (s2 + s3), x, 4 * q as int, y, 4 * q as int, 1, n % 4)
}

/// The sum of the first `n` products, formed in two interleaved sums; what is
/// left over is added at the end.
pub open spec fn dot_by_two<S: Sample>(x: Seq<S>, y: Seq<S>, n: nat) -> S {
    let q = n / 2;
    let s0 = dot_from(S::nil(), x, 0, y, 0, 2, q);
    let s1 = dot_from(S::nil(), x, 1, y, 1, 2, q);
    dot_from(s0 + s1, x, 2 * q as int, y, 2 * q as int, 1, n % 2)
}

/// The part of a slice from `i` on.
pub fn tail<T>(x: &[T], i: usize) -> (r: &[T])
    requires
        i <= x@.len(),
    ensures
        r@ == x@.skip(i as int),
{
    let r = slice_subrange(x, i, x.len());
    assert(r@ == x@.skip(i as int));
    r
}

/// Inner product of the first `n` elements, in four interleaved sums.
pub fn inner_prod<S: Sample>(x: &[S], y: &[S], n: usize) -> (xy: S)
    requires
        n <= x@.len(),
        n <= y@.len(),
    ensures
        S::functional() ==> xy == dot_by_four(x@, y@, n as nat),
{
    let mut s0 = S::ratio(0, 1);
    let mut s1 = S::ratio(0, 1);
    let mut s2 = S::ratio(0, 1);
    let mut s3 = S::ratio(0, 1);
    let q: usize = n / 4;
    let mut k: usize = 0;
    while k < q
        invariant
            k <= q,
            q == n / 4,
            n <= x@.len(),
            n <= y@.len(),
            S::functional() ==> {
                &&& s0 == dot_from(S::nil(), x@, 0, y@, 0, 4, k as nat)
                &&& s1 == dot_from(S::nil(), x@, 1, y@, 1, 4, k as nat)
                &&& s2 == dot_from(S::nil(), x@, 2, y@, 2, 4, k as nat)
                &&& s3 == dot_from(S::nil(), x@, 3, y@, 3, 4, k as nat)
            },
        decreases q - k,
    {
        let i: usize = 4 * k;
        s0 = s0.plus(x[i].times(y[i]));
        s1 = s1.plus(x[i + 1].times(y[i + 1]));
        s2 = s2.plus(x[i + 2].times(y[i + 2]));
        s3 = s3.plus(x[i + 3].times(y[i + 3]));
        k += 1;
    }
    let mut xy = s0.plus(s1).plus(s2.plus(s3));
    let ghost init = xy;
    let mut i: usize = 4 * q;
    while i < n
        invariant
            4 * q <= i <= n,
            n <= x@.len(),
            n <= y@.len(),
            S::functional() ==> xy == dot_from(
                init,
                x@,
                4 * q,
                y@,
                4 * q,
                1,
                (i - 4 * q) as nat,
            ),
        decreases n - i,
    {
        xy = xy.plus(x[i].times(y[i]));
        i += 1;
    }
    xy
}

/// Inner products of the first `n` elements of `x` with those of `y01` and of
/// `y02`, each in two interleaved sums.
pub fn dual_inner_prod<S: Sample>(x: &[S], y01: &[S], y02: &[S], n: usize) -> (xy: (S, S))
    requires
        n <= x@.len(),
        n <= y01@.len(),
        n <= y02@.len(),
    ensures
        S::functional() ==> xy.0 == dot_by_two(x@, y01@, n as nat),
        S::functional() ==> xy.1 == dot_by_two(x@, y02@, n as nat),
{
    let mut a0 = S::ratio(0, 1);
    let mut a1 = S::ratio(0, 1);
    let mut b0 = S::ratio(0, 1);
    let mut b1 = S::ratio(0, 1);
    let q: usize = n / 2;
    let mut k: usize = 0;
    while k < q
        invariant
            k <= q,
            q == n / 2,
            n <= x@.len(),
            n <= y01@.len(),
            n <= y02@.len(),
            S::functional() ==> {
                &&& a0 == dot_from(S::nil(), x@, 0, y01@, 0, 2, k as nat)
                &&& a1 == dot_from(S::nil(), x@, 1, y01@, 1, 2, k as nat)
                &&& b0 == dot_from(S::nil(), x@, 0, y02@, 0, 2, k as nat)
                &&& b1 == dot_from(S::nil(), x@, 1, y02@, 1, 2, k as nat)
            },
        decreases q - k,
    {
        let i: usize = 2 * k;
        a0 = a0.plus(x[i].times(y01[i]));
        a1 = a1.plus(x[i + 1].times(y01[i + 1]));
        b0 = b0.plus(x[i].times(y02[i]));
        b1 = b1.plus(x[i + 1].times(y02[i + 1]));
        k += 1;
    }
    let mut a = a0.plus(a1);
    let mut b = b0.plus(b1);
    let ghost (sa, sb) = (a, b);
    let mut i: usize = 2 * q;
    while i < n
        invariant
            2 * q <= i <= n,
            n <= x@.len(),
            n <= y01@.len(),
            n <= y02@.len(),
            S::functional() ==> {
                &&& a == dot_from(sa, x@, 2 * q, y01@, 2 * q, 1, (i - 2 * q) as nat)
                &&& b == dot_from(sb, x@, 2 * q, y02@, 2 * q, 1, (i - 2 * q) as nat)
            },
        decreases n - i,
    {
        a = a.plus(x[i].times(y01[i]));
        b = b.plus(x[i].times(y02[i]));
        i += 1;
    }
    (a, b)
}

/// The correlation of `x` with `y` at lag `i`: in order for whole groups of
/// four lags, in four interleaved sums for the lags that are left over.
pub open spec fn lag_corr<S: Sample>(
    x: Seq<S>,
    y: Seq<S>,
    len: nat,
    max_pitch: int,
    i: int,
) -> S {
    if i < max_pitch - max_pitch % 4 {
        dot(x, y.skip(i), len)
    } else {
        dot_by_four(x, y.skip(i), len)
    }
}

/// The correlations of the first `len` elements of `x` with `y`, at the lags
/// below `max_pitch`.
pub open spec fn lag_corrs<S: Sample>(x: Seq<S>, y: Seq<S>, len: nat, max_pitch: nat) -> Seq<S> {
    Seq::new(max_pitch, |i: int| lag_corr(x, y, len, max_pitch as int, i))
}

/// Cross-correlation at the lags below `max_pitch`.
pub fn pitch_xcorr<S: Sample>(x: &[S], y: &[S], len: usize, max_pitch: usize) -> (xcorr: Vec<S>)
    requires
        len <= x@.len(),
        len + max_pitch <= y@.len() + 1,
    ensures
        xcorr@.len() == max_pitch,
        S::functional() ==> xcorr@ == lag_corrs(x@, y@, len as nat, max_pitch as nat),
{
    let mut xcorr: Vec<S> = Vec::new();
    let mp4: usize = max_pitch - max_pitch % 4;
    let mut i: usize = 0;
    while i < max_pitch
        invariant
            i <= max_pitch,
            mp4 == max_pitch - max_pitch % 4,
            len <= x@.len(),
            len + max_pitch <= y@.len() + 1,
            xcorr@.len() == i,
            S::functional() ==> forall|k: int|
                0 <= k < i ==> #[trigger] xcorr@[k] == lag_corr(
                    x@,
                    y@,
                    len as nat,
                    max_pitch as int,
                    k,
                ),
        decreases max_pitch - i,
    {
        let shifted = tail(y, i);
        if i < mp4 {
            let mut c = S::ratio(0, 1);
            let mut j: usize = 0;
            while j < len
                invariant
                    j <= len,
                    len <= x@.len(),
                    len <= shifted@.len(),
                    S::functional() ==> c == dot(x@, shifted@, j as nat),
                decreases len - j,
            {
                c = c.plus(x[j].times(shifted[j]));
                j += 1;
            }
            xcorr.push(c);
        } else {
            xcorr.push(inner_prod(x, shifted, len));
        }
        i += 1;
    }
    xcorr
}

/// The state of the recursion that solves for a predictor: the coefficients,
/// the prediction error, and whether the recursion has ended.
pub struct Levinson<S> {
    pub coef: Seq<S>,
    pub error: S,
    pub done: bool,
}

/// One step of the recursion: reflection coefficient `i` is found, and the
/// earlier coefficients are updated with it.
pub open spec fn levinson_step<S: Sample>(st: Levinson<S>, ac: Seq<S>, i: int) -> Levinson<S> {
    let rr = reach_back(st.coef, ac, i, i as nat) + ac[i + 1];
    let r = -rr / st.error;
    let error = st.error - r * r * st.error;
    Levinson {
        coef: Seq::new(
            st.coef.len(),
            |k: int|
                if k < i {
                    st.coef[k] + r * st.coef[i - 1 - k]
                } else if k == i {
                    r
                } else {
                    st.coef[k]
                },
        ),
        error,
        done: error.lt_of(S::frac(1, 1000) * ac[0]),
    }
}

/// The sum of the first `n` products `coef[j] * ac[i - j]`.
pub open spec fn reach_back<S: Sample>(coef: Seq<S>, ac: Seq<S>, i: int, n: nat) -> S
    decreases n,
{
    if n == 0 {
        S::nil()
    } else {
        reach_back(coef, ac, i, (n - 1) as nat) + coef[n - 1] * ac[i - (n - 1)]
    }
}

/// The recursion after `i` steps; it ends early once the error is small, and
/// at once where the signal has no energy.
pub open spec fn levinson<S: Sample>(ac: Seq<S>, p: nat, i: nat) -> Levinson<S>
    decreases i,
{
    if i == 0 {
        Levinson {
            coef: Seq::new(p, |k: int| S::nil()),
            error: ac[0],
            done: ac[0].eq_of(S::nil()),
        }
    } else {
        let before = levinson(ac, p, (i - 1) as nat);
        if before.done {
            before
        } else {
            levinson_step(before, ac, i - 1)
        }
    }
}

/// The `p` coefficients of the linear predictor of a signal with the
/// autocorrelation `ac`.
pub fn lpc<S: Sample>(ac: &[S], p: usize) -> (out: Vec<S>)
    requires
        p < ac@.len(),
    ensures
        out@.len() == p,
        S::functional() ==> out@ == levinson(ac@, p as nat, p as nat).coef,
{
    let mut out = filled(S::ratio(0, 1), p);
    let mut error = ac[0];
    let mut done = ac[0].equals(S::ratio(0, 1));
    let mut i: usize = 0;
    while i < p
        invariant
            i <= p,
            p < ac@.len(),
            out@.len() == p,
            S::functional() ==> {
                let st = levinson(ac@, p as nat, i as nat);
                &&& out@ == st.coef
                &&& error == st.error
                &&& done == st.done
            },
        decreases p - i,
    {
        if !done {
            let ghost before = out@;
            let ghost st = levinson(ac@, p as nat, i as nat);
            let mut rr = S::ratio(0, 1);
            let mut j: usize = 0;
            while j < i
                invariant
                    j <= i,
                    i < p,
                    p < ac@.len(),
                    out@ == before,
                    out@.len() == p,
                    S::functional() ==> rr == reach_back(before, ac@, i as int, j as nat),
                decreases i - j,
            {
                rr = rr.plus(out[j].times(ac[i - j]));
                j += 1;
            }
            rr = rr.plus(ac[i + 1]);
            let r = rr.negated().over(error);
            out.set(i, r);
            let mut j: usize = 0;
            while j < (i + 1) / 2
                invariant
                    j <= (i + 1) / 2,
                    i < p,
                    out@.len() == p,
                    before.len() == p,
                    out@[i as int] == r,
                    forall|k: int| i < k < p ==> #[trigger] out@[k] == before[k],
                    forall|k: int| j <= k < i - j ==> #[trigger] out@[k] == before[k],
                    S::functional() ==> forall|k: int|
                        (0 <= k < j || i - j <= k < i) && k < p ==> #[trigger] out@[k] == before[k]
                            + r * before[i - 1 - k],
                decreases i - j,
            {
                let tmp1 = out[j];
                let tmp2 = out[i - 1 - j];
                assert(tmp1 == before[j as int]);
                assert(tmp2 == before[i - 1 - j]);
                out.set(j, tmp1.plus(r.times(tmp2)));
                out.set(i - 1 - j, tmp2.plus(r.times(tmp1)));
                j += 1;
            }
            error = error.minus(r.times(r).times(error));
            done = error.below(S::ratio(1, 1000).times(ac[0]));
            assert(S::functional() ==> out@ == levinson_step(st, ac@, i as int).coef);
        }
        i += 1;
    }
    out
}

/// The autocorrelation of the first `n` elements of `x` at the lags up to
/// `lag`: the part that all lags share, then what each lag has beyond it.
pub open spec fn autocorrs<S: Sample>(x: Seq<S>, lag: nat, n: nat) -> Seq<S> {
    let fast = (n - lag) as nat;
    Seq::new(
        lag + 1,
        |k: int|
            lag_corr(x, x, fast, lag as int + 1, k) + dot_from(
                S::nil(),
                x,
                k + fast,
                x,
                fast as int,
                1,
                (lag - k) as nat,
            ),
    )
}

/// Autocorrelation at the lags up to `lag`.
pub fn autocorr<S: Sample>(x: &[S], lag: usize, n: usize) -> (ac: Vec<S>)
    requires
        lag <= n <= x@.len(),
        lag < usize::MAX,
    ensures
        ac@.len() == lag + 1,
        S::functional() ==> ac@ == autocorrs(x@, lag as nat, n as nat),
{
    let fast_n: usize = n - lag;
    let mut ac = pitch_xcorr(x, x, fast_n, lag + 1);
    let ghost base = ac@;
    let mut k: usize = 0;
    while k < lag + 1
        invariant
            k <= lag + 1,
            lag <= n <= x@.len(),
            lag < usize::MAX,
            fast_n == n - lag,
            ac@.len() == lag + 1,
            base.len() == lag + 1,
            forall|j: int| k <= j <= lag ==> #[trigger] ac@[j] == base[j],
            S::functional() ==> base == lag_corrs(x@, x@, fast_n as nat, (lag + 1) as nat),
            S::functional() ==> forall|j: int|
                0 <= j < k ==> #[trigger] ac@[j] == autocorrs(x@, lag as nat, n as nat)[j],
        decreases lag + 1 - k,
    {
        let mut d = S::ratio(0, 1);
        let mut i: usize = 0;
        while i < lag - k
            invariant
                i <= lag - k,
                k <= lag,
                lag <= n <= x@.len(),
                fast_n == n - lag,
                S::functional() ==> d == dot_from(
                    S::nil(),
                    x@,
                    k + fast_n,
                    x@,
                    fast_n as int,
                    1,
                    i as nat,
                ),
            decreases lag - k - i,
        {
            d = d.plus(x[k + fast_n + i].times(x[fast_n + i]));
            i += 1;
        }
        ac.set(k, ac[k].plus(d));
        k += 1;
    }
    ac
}

/// The sample that lies `k + 1` places before place `i` of `x`, where `mem`
/// continues `x` to the left.
pub open spec fn history<S>(x: Seq<S>, mem: Seq<S>, i: int, k: int) -> S {
    if i > k {
        x[i - 1 - k]
    } else {
        mem[k - i]
    }
}

/// A signal after a filter of order five with the coefficients `num`.
pub open spec fn filtered<S: Sample>(x: Seq<S>, num: Seq<S>, mem: Seq<S>) -> Seq<S> {
    Seq::new(
        x.len(),
        |i: int|
            x[i] + num[0] * history(x, mem, i, 0) + num[1] * history(x, mem, i, 1) + num[2]
                * history(x, mem, i, 2) + num[3] * history(x, mem, i, 3) + num[4] * history(
                x,
                mem,
                i,
                4,
            ),
    )
}

/// Apply a filter of order five in place.
pub fn fir5<S: Sample>(x: &mut [S], num: &[S; 5], mem: &mut [S; 5])
    ensures
        final(x)@.len() == old(x)@.len(),
        final(mem)@ == Seq::new(
            5,
            |k: int| history(old(x)@, old(mem)@, old(x)@.len() as int, k),
        ),
        S::functional() ==> final(x)@ == filtered(old(x)@, num@, old(mem)@),
{
    let ghost x0 = x@;
    let ghost mem0 = mem@;
    let (n0, n1, n2, n3, n4) = (num[0], num[1], num[2], num[3], num[4]);
    let mut m0 = mem[0];
    let mut m1 = mem[1];
    let mut m2 = mem[2];
    let mut m3 = mem[3];
    let mut m4 = mem[4];
    let mut i: usize = 0;
    while i < x.len()
        invariant
            i <= x@.len(),
            x@.len() == x0.len(),
            n0 == num@[0],
            n1 == num@[1],
            n2 == num@[2],
            n3 == num@[3],
            n4 == num@[4],
            m0 == history(x0, mem0, i as int, 0),
            m1 == history(x0, mem0, i as int, 1),
            m2 == history(x0, mem0, i as int, 2),
            m3 == history(x0, mem0, i as int, 3),
            m4 == history(x0, mem0, i as int, 4),
            forall|k: int| i <= k < x0.len() ==> #[trigger] x@[k] == x0[k],
            S::functional() ==> forall|k: int|
                0 <= k < i ==> #[trigger] x@[k] == filtered(x0, num@, mem0)[k],
        decreases x@.len() - i,
    {
        let xi = x[i];
        let sum = xi.plus(n0.times(m0)).plus(n1.times(m1)).plus(n2.times(m2)).plus(
            n3.times(m3),
        ).plus(n4.times(m4));
        m4 = m3;
        m3 = m2;
        m2 = m1;
        m1 = m0;
        m0 = xi;
        x[i] = sum;
        i += 1;
    }
    *mem = [m0, m1, m2, m3, m4];
    assert(mem@ == Seq::new(5, |k: int| history(x0, mem0, x0.len() as int, k)));
}

} // verus!
