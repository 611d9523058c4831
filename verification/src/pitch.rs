//! Pitch analysis: decimation and whitening, the search for the best lag, and
//! the correction of period doubling.

use vstd::prelude::*;
use crate::arith::{Arith, Real, Sample, SampleArith};
use crate::celt_lpc::{autocorr, dual_inner_prod, fir5, inner_prod, lpc, pitch_xcorr, tail};
use crate::celt_lpc;

verus! {

/// Every second sample, smoothed with its neighbours.
pub open spec fn decimated<S: Sample>(x: Seq<S>, half: nat) -> Seq<S> {
    let h = S::frac(1, 2);
    Seq::new(
        half,
        |i: int|
            if i == 0 {
                h * (h * x[1] + x[0])
            } else {
                h * (h * (x[2 * i - 1] + x[2 * i + 1]) + x[2 * i])
            },
    )
}

/// The autocorrelation that the whitening filter is computed from: a noise
/// floor of -40 dB is added, and the lags are windowed.
pub open spec fn lag_windowed<S: Sample>(ac: Seq<S>) -> Seq<S> {
    Seq::new(
        ac.len(),
        |i: int|
            if i == 0 {
                ac[0] * S::frac(10001, 10000)
            } else {
                let w = S::frac(8, 1000) * S::num(i);
                ac[i] - ac[i] * w * w
            },
    )
}

/// `0.9` to the power `k`.
pub open spec fn decay<S: Sample>(k: nat) -> S
    decreases k,
{
    if k == 0 {
        S::unit()
    } else {
        decay::<S>((k - 1) as nat) * S::frac(9, 10)
    }
}

/// The whitening filter of a predictor: its coefficients decay, and a zero is
/// added.
pub open spec fn whitening<S: Sample>(coef: Seq<S>) -> Seq<S> {
    let c1 = S::frac(8, 10);
    let a0 = coef[0] * decay::<S>(1);
    let a1 = coef[1] * decay::<S>(2);
    let a2 = coef[2] * decay::<S>(3);
    let a3 = coef[3] * decay::<S>(4);
    seq![a0 + c1, a1 + c1 * a0, a2 + c1 * a1, a3 + c1 * a2, c1 * a3]
}

/// The decimated and whitened signal of the pitch search.
pub open spec fn downsampled<S: Sample>(x: Seq<S>, len: nat) -> Seq<S> {
    let low = decimated(x, len / 2);
    let ac = lag_windowed(celt_lpc::autocorrs(low, 4, len / 2));
    let coef = celt_lpc::levinson(ac, 4, 4).coef;
    celt_lpc::filtered(low, whitening(coef), Seq::new(5, |k: int| S::nil()))
}

/// Decimate the first `len` samples by two and whiten the result.
pub fn pitch_downsample<S: Sample>(x: &[S], len: usize) -> (x_lp: Vec<S>)
    requires
        8 <= len <= x@.len(),
    ensures
        x_lp@.len() == len / 2,
        S::functional() ==> x_lp@ == downsampled(x@, len as nat),
{
    let half: usize = len / 2;
    let h = S::ratio(1, 2);
    let mut low: Vec<S> = Vec::new();
    low.push(h.times(h.times(x[1]).plus(x[0])));
    let mut i: usize = 1;
    while i < half
        invariant
            1 <= i <= half,
            half == len / 2,
            len <= x@.len(),
            low@.len() == i,
            S::functional() ==> h == S::frac(1, 2),
            S::functional() ==> forall|k: int|
                0 <= k < i ==> #[trigger] low@[k] == decimated(x@, half as nat)[k],
        decreases half - i,
    {
        low.push(h.times(h.times(x[2 * i - 1].plus(x[2 * i + 1])).plus(x[2 * i])));
        i += 1;
    }
    assert(S::functional() ==> low@ == decimated(x@, half as nat));
    let mut ac = autocorr(&low, 4, half);
    let ghost raw = ac@;
    ac.set(0, ac[0].times(S::ratio(10001, 10000)));
    let mut i: usize = 1;
    while i < 5
        invariant
            1 <= i <= 5,
            ac@.len() == 5,
            raw.len() == 5,
            forall|k: int| i <= k < 5 ==> #[trigger] ac@[k] == raw[k],
            S::functional() ==> forall|k: int|
                0 <= k < i ==> #[trigger] ac@[k] == lag_windowed(raw)[k],
        decreases 5 - i,
    {
        let w = S::ratio(8, 1000).times(S::ratio(i as i64, 1));
        ac.set(i, ac[i].minus(ac[i].times(w).times(w)));
        i += 1;
    }
    assert(S::functional() ==> ac@ == lag_windowed(raw));
    let coef = lpc(&ac, 4);
    let nine = S::ratio(9, 10);
    let d1 = S::ratio(1, 1).times(nine);
    let d2 = d1.times(nine);
    let d3 = d2.times(nine);
    let d4 = d3.times(nine);
    let a0 = coef[0].times(d1);
    let a1 = coef[1].times(d2);
    let a2 = coef[2].times(d3);
    let a3 = coef[3].times(d4);
    let c1 = S::ratio(8, 10);
    let lpc2 = [
        a0.plus(c1),
        a1.plus(c1.times(a0)),
        a2.plus(c1.times(a1)),
        a3.plus(c1.times(a2)),
        c1.times(a3),
    ];
    proof {
        reveal_with_fuel(decay, 5);
        assert(S::functional() ==> lpc2@ == whitening(coef@));
    }
    let zero = S::ratio(0, 1);
    let mut mem = [zero, zero, zero, zero, zero];
    assert(S::functional() ==> mem@ == Seq::new(5, |k: int| S::nil()));
    fir5(low.as_mut_slice(), &lpc2, &mut mem);
    low
}

/// The search for the two best lags: the energy under the window, and of the
/// two lags found so far the correlations, the energies and the lags.
pub struct Search<S> {
    pub syy: S,
    pub num0: S,
    pub num1: S,
    pub den0: S,
    pub den1: S,
    pub lag0: int,
    pub lag1: int,
}

/// One plus the energy of the first `len` elements.
pub open spec fn energy_from_one<S: Sample>(y: Seq<S>, len: nat) -> S {
    celt_lpc::dot_from(S::unit(), y, 0, y, 0, 1, len)
}

/// The search before the first lag.
pub open spec fn search_start<S: Sample>(y: Seq<S>, len: nat) -> Search<S> {
    Search {
        syy: energy_from_one(y, len),
        num0: S::num(-1),
        num1: S::num(-1),
        den0: S::nil(),
        den1: S::nil(),
        lag0: 0,
        lag1: 1,
    }
}

/// The search after lag `i`: the lag is taken where its correlation is
/// positive and its normalised square beats that of the second best.
pub open spec fn search_step<S: Sample>(
    st: Search<S>,
    xcorr: Seq<S>,
    y: Seq<S>,
    len: int,
    i: int,
) -> Search<S> {
    let num = xcorr[i] * xcorr[i];
    let second = S::nil().lt_of(xcorr[i]) && (st.num1 * st.syy).lt_of(num * st.den1);
    let first = second && (st.num0 * st.syy).lt_of(num * st.den0);
    let moved = st.syy + (y[i + len] * y[i + len] - y[i] * y[i]);
    Search {
        syy: moved.max_of(S::unit()),
        num0: if first {
            num
        } else {
            st.num0
        },
        den0: if first {
            st.syy
        } else {
            st.den0
        },
        lag0: if first {
            i
        } else {
            st.lag0
        },
        num1: if first {
            st.num0
        } else if second {
            num
        } else {
            st.num1
        },
        den1: if first {
            st.den0
        } else if second {
            st.syy
        } else {
            st.den1
        },
        lag1: if first {
            st.lag0
        } else if second {
            i
        } else {
            st.lag1
        },
    }
}

/// The search after the lags below `n`.
pub open spec fn search_upto<S: Sample>(xcorr: Seq<S>, y: Seq<S>, len: nat, n: nat) -> Search<S>
    decreases n,
{
    if n == 0 {
        search_start(y, len)
    } else {
        search_step(search_upto(xcorr, y, len, (n - 1) as nat), xcorr, y, len as int, n - 1)
    }
}

/// The two lags below `max_pitch` with the largest normalised correlation.
pub fn find_best_pitch<S: Sample>(xcorr: &[S], y: &[S], len: usize, max_pitch: usize) -> (best: (
    usize,
    usize,
))
    requires
        max_pitch <= xcorr@.len(),
        len + max_pitch <= y@.len(),
    ensures
        best.0 == 0 || best.0 < max_pitch,
        best.1 <= 1 || best.1 < max_pitch,
        S::functional() ==> {
            let st = search_upto(xcorr@, y@, len as nat, max_pitch as nat);
            best.0 == st.lag0 && best.1 == st.lag1
        },
{
    let one = S::ratio(1, 1);
    let zero = S::ratio(0, 1);
    let mut syy = one;
    let mut num0 = S::ratio(-1, 1);
    let mut num1 = S::ratio(-1, 1);
    let mut den0 = zero;
    let mut den1 = zero;
    let mut lag0: usize = 0;
    let mut lag1: usize = 1;
    let mut j: usize = 0;
    while j < len
        invariant
            j <= len,
            len <= y@.len(),
            S::functional() ==> syy == energy_from_one(y@, j as nat),
        decreases len - j,
    {
        syy = syy.plus(y[j].times(y[j]));
        j += 1;
    }
    let mut i: usize = 0;
    while i < max_pitch
        invariant
            i <= max_pitch,
            max_pitch <= xcorr@.len(),
            len + max_pitch <= y@.len(),
            lag0 == 0 || lag0 < i,
            lag1 <= 1 || lag1 < i,
            S::functional() ==> {
                &&& one == S::unit()
                &&& zero == S::nil()
                &&& search_upto(xcorr@, y@, len as nat, i as nat) == Search {
                    syy,
                    num0,
                    num1,
                    den0,
                    den1,
                    lag0: lag0 as int,
                    lag1: lag1 as int,
                }
            },
        decreases max_pitch - i,
    {
        if zero.below(xcorr[i]) {
            let num = xcorr[i].times(xcorr[i]);
            if num1.times(syy).below(num.times(den1)) {
                if num0.times(syy).below(num.times(den0)) {
                    num1 = num0;
                    den1 = den0;
                    lag1 = lag0;
                    num0 = num;
                    den0 = syy;
                    lag0 = i;
                } else {
                    num1 = num;
                    den1 = syy;
                    lag1 = i;
                }
            }
        }
        assert(y@.len() == y.len());
        let moved = syy.plus(y[i + len].times(y[i + len]).minus(y[i].times(y[i])));
        syy = moved.larger(one);
        i += 1;
    }
    (lag0, lag1)
}

/// Every second element, `n` of them.
pub open spec fn evens<S>(x: Seq<S>, n: nat) -> Seq<S> {
    Seq::new(n, |j: int| x[2 * j])
}

/// On which side of a peak `b` between `a` and `c` the true peak lies: 1 on the
/// side of `c`, -1 on the side of `a`, 0 for neither.
pub open spec fn side_of<S: Sample>(a: S, b: S, c: S) -> int {
    let k = S::frac(7, 10);
    if (k * (b - a)).lt_of(c - a) {
        1
    } else if (k * (b - c)).lt_of(a - c) {
        -1
    } else {
        0
    }
}

/// Whether lag `i` is within two of twice the coarse lag `b`.
pub open spec fn near(i: int, b: int) -> bool {
    -2 <= i - 2 * b <= 2
}

/// The search on every fourth sample.
pub open spec fn coarse_search<S: Sample>(
    x_lp: Seq<S>,
    y: Seq<S>,
    len: nat,
    max_pitch: nat,
) -> Search<S> {
    let x4 = evens(x_lp, len / 4);
    let y4 = evens(y, (len + max_pitch) / 4);
    search_upto(
        celt_lpc::lag_corrs(x4, y4, len / 4, max_pitch / 4),
        y4,
        len / 4,
        max_pitch / 4,
    )
}

/// The correlations on every second sample, near the two coarse lags.
pub open spec fn fine_corrs<S: Sample>(
    x_lp: Seq<S>,
    y: Seq<S>,
    len: nat,
    max_pitch: nat,
    lag0: int,
    lag1: int,
) -> Seq<S> {
    Seq::new(
        max_pitch / 2,
        |i: int|
            if near(i, lag0) || near(i, lag1) {
                celt_lpc::dot_by_four(x_lp, y.skip(i), len / 2).max_of(S::num(-1))
            } else {
                S::nil()
            },
    )
}

/// The lag that the search finds: twice the best fine lag, corrected by one
/// where a neighbour is nearly as good.
pub open spec fn best_lag<S: Sample>(x_lp: Seq<S>, y: Seq<S>, len: nat, max_pitch: nat) -> int {
    let coarse = coarse_search(x_lp, y, len, max_pitch);
    let corrs = fine_corrs(x_lp, y, len, max_pitch, coarse.lag0, coarse.lag1);
    let b = search_upto(corrs, y, len / 2, max_pitch / 2).lag0;
    if 0 < b < max_pitch / 2 - 1 {
        2 * b - side_of(corrs[b - 1], corrs[b], corrs[b + 1])
    } else {
        2 * b
    }
}

fn peak_side<S: Sample>(a: S, b: S, c: S) -> (side: i32)
    ensures
        -1 <= side <= 1,
        S::functional() ==> side == side_of(a, b, c),
{
    let k = S::ratio(7, 10);
    if k.times(b.minus(a)).below(c.minus(a)) {
        1
    } else if k.times(b.minus(c)).below(a.minus(c)) {
        -1
    } else {
        0
    }
}

fn every_second<S: Sample>(x: &[S], n: usize) -> (v: Vec<S>)
    requires
        2 * n <= x@.len() + 1,
    ensures
        v@ == evens(x@, n as nat),
{
    let mut v: Vec<S> = Vec::new();
    let mut j: usize = 0;
    while j < n
        invariant
            j <= n,
            2 * n <= x@.len() + 1,
            v@ == evens(x@, j as nat),
        decreases n - j,
    {
        assert(x@.len() == x.len());
        v.push(x[2 * j]);
        j += 1;
        assert(v@ == evens(x@, j as nat));
    }
    v
}

fn is_near(i: usize, b: usize) -> (r: bool)
    requires
        2 * b + 2 <= usize::MAX,
        i + 2 <= usize::MAX,
    ensures
        r == near(i as int, b as int),
{
    i + 2 >= 2 * b && i <= 2 * b + 2
}

/// Find the lag below `max_pitch` at which `y` correlates best with `x_lp`, in
/// units of the signal before decimation. Both signals are decimated by two;
/// `len` and `max_pitch` count samples before it.
pub fn pitch_search<S: Sample>(x_lp: &[S], y: &[S], len: usize, max_pitch: usize) -> (lag: i32)
    requires
        max_pitch <= 0x1000_0000,
        len <= 0x1000_0000,
        len / 2 <= x_lp@.len(),
        (len + max_pitch) / 2 <= y@.len(),
    ensures
        0 <= lag,
        lag == 0 || lag <= 2 * (max_pitch / 2) - 2,
        S::functional() ==> lag == best_lag(x_lp@, y@, len as nat, max_pitch as nat),
{
    let x4 = every_second(x_lp, len / 4);
    let y4 = every_second(y, (len + max_pitch) / 4);
    let corr4 = pitch_xcorr(&x4, &y4, len / 4, max_pitch / 4);
    let (b0, b1) = find_best_pitch(&corr4, &y4, len / 4, max_pitch / 4);

    let half: usize = max_pitch / 2;
    let zero = S::ratio(0, 1);
    let floor = S::ratio(-1, 1);
    let mut corrs: Vec<S> = Vec::new();
    let mut i: usize = 0;
    while i < half
        invariant
            i <= half,
            half == max_pitch / 2,
            max_pitch <= 0x1000_0000,
            len <= 0x1000_0000,
            len / 2 <= x_lp@.len(),
            (len + max_pitch) / 2 <= y@.len(),
            b0 <= 0x1000_0000,
            b1 <= 0x1000_0000,
            corrs@.len() == i,
            S::functional() ==> {
                &&& zero == S::nil()
                &&& floor == S::num(-1)
                &&& forall|k: int|
                    0 <= k < i ==> #[trigger] corrs@[k] == fine_corrs(
                        x_lp@,
                        y@,
                        len as nat,
                        max_pitch as nat,
                        b0 as int,
                        b1 as int,
                    )[k]
            },
        decreases half - i,
    {
        if is_near(i, b0) || is_near(i, b1) {
            corrs.push(inner_prod(x_lp, tail(y, i), len / 2).larger(floor));
        } else {
            corrs.push(zero);
        }
        i += 1;
    }
    assert(S::functional() ==> corrs@ == fine_corrs(
        x_lp@,
        y@,
        len as nat,
        max_pitch as nat,
        b0 as int,
        b1 as int,
    ));
    let (best, _) = find_best_pitch(&corrs, y, len / 2, half);
    if best > 0 && best < half - 1 {
        let side = peak_side(corrs[best - 1], corrs[best], corrs[best + 1]);
        2 * (best as i32) - side
    } else {
        2 * (best as i32)
    }
}

/// The gain of a pitch period with correlation `xy` and energies `xx`, `yy`.
pub open spec fn gain_of<S: Sample>(xy: S, xx: S, yy: S) -> S {
    S::narrowed(xy.wide() / (S::unit() + xx * yy).wide().sqrt_of())
}

fn compute_pitch_gain<S: Sample>(xy: S, xx: S, yy: S) -> (g: S)
    ensures
        S::functional() ==> g == gain_of(xy, xx, yy),
{
    S::narrow(xy.widen().over(S::ratio(1, 1).plus(xx.times(yy)).widen().root()))
}

/// The second multiple of the period to look at, for each divisor.
pub open spec fn second_check(k: int) -> int {
    if k == 6 || k == 12 {
        5
    } else if k == 4 || k == 8 || k == 10 || k == 14 || k == 2 {
        3
    } else {
        2
    }
}

/// What the correction of a period works on: the signal, the place `base` from
/// which periods reach back, the shortest period, the window length, the
/// period to correct and what is known of the previous frame. All lengths
/// count decimated samples.
pub struct Setting<S> {
    pub x: Seq<S>,
    pub base: int,
    pub shortest: int,
    pub n: nat,
    pub t0: int,
    pub last_period: int,
    pub last_gain: S,
}

/// The best period found so far, its gain, correlation and energy, and whether
/// the search has ended.
pub struct Period<S> {
    pub t: int,
    pub gain: S,
    pub xy: S,
    pub yy: S,
    pub done: bool,
}

impl<S: Sample> Setting<S> {
    /// The correlation of the window with the one `t` samples earlier.
    pub open spec fn corr(self, t: int) -> S {
        celt_lpc::dot_by_two(self.x.skip(self.base), self.x.skip(self.base - t), self.n)
    }

    /// The energy of the window `t` samples earlier, updated sample by sample.
    pub open spec fn running_energy(self, t: nat) -> S
        decreases t,
    {
        if t == 0 {
            self.corr(0)
        } else {
            let a = self.x[self.base - t];
            let b = self.x[self.base + self.n - t];
            self.running_energy((t - 1) as nat) + a * a - b * b
        }
    }

    /// The energy of the window `t` samples earlier; not negative for `t` above
    /// zero.
    pub open spec fn energy(self, t: int) -> S {
        if t == 0 {
            self.corr(0)
        } else {
            self.running_energy(t as nat).max_of(S::nil())
        }
    }

    /// The period to try for divisor `k`.
    pub open spec fn divided(self, k: int) -> int {
        (2 * self.t0 + k) / (2 * k)
    }

    /// The multiple of that period that has to agree with it.
    pub open spec fn partner(self, k: int) -> int {
        if k == 2 {
            if self.divided(k) + self.t0 > self.base {
                self.t0
            } else {
                self.t0 + self.divided(k)
            }
        } else {
            (2 * second_check(k) * self.t0 + k) / (2 * k)
        }
    }

    /// The gain of the period to correct.
    pub open spec fn gain0(self) -> S {
        gain_of(self.corr(self.t0), self.corr(0), self.energy(self.t0))
    }

    /// How much a period gains from being close to that of the last frame.
    pub open spec fn continuity(self, k: int) -> S {
        let d = self.divided(k) - self.last_period;
        if -1 <= d <= 1 {
            self.last_gain
        } else if -2 <= d <= 2 && 5 * k * k < self.t0 {
            S::frac(1, 2) * self.last_gain
        } else {
            S::nil()
        }
    }

    /// The gain that a period has to exceed; short periods have to do better.
    pub open spec fn threshold(self, k: int) -> S {
        if self.divided(k) < 3 * self.shortest {
            (S::frac(85, 100) * self.gain0() - self.continuity(k)).max_of(S::frac(4, 10))
        } else {
            (S::frac(7, 10) * self.gain0() - self.continuity(k)).max_of(S::frac(3, 10))
        }
    }

    /// The search before the first divisor.
    pub open spec fn start(self) -> Period<S> {
        Period {
            t: self.t0,
            gain: self.gain0(),
            xy: self.corr(self.t0),
            yy: self.energy(self.t0),
            done: false,
        }
    }

    /// The search after divisor `k`.
    pub open spec fn step(self, p: Period<S>, k: int) -> Period<S> {
        let t1 = self.divided(k);
        let t2 = self.partner(k);
        let half = S::frac(1, 2);
        let xy = half * (self.corr(t1) + self.corr(t2));
        let yy = half * (self.energy(t1) + self.energy(t2));
        let g = gain_of(xy, self.corr(0), yy);
        if p.done || t1 < self.shortest {
            Period { done: true, ..p }
        } else if self.threshold(k).lt_of(g) {
            Period { t: t1, gain: g, xy, yy, done: false }
        } else {
            p
        }
    }

    /// The search after the divisors below `k`.
    pub open spec fn upto(self, k: nat) -> Period<S>
        decreases k,
    {
        if k <= 2 {
            self.start()
        } else {
            self.step(self.upto((k - 1) as nat), k - 1)
        }
    }

    /// The gain of the corrected period.
    pub open spec fn gain(self) -> S {
        let p = self.upto(16);
        let xy = p.xy.max_of(S::nil());
        let g = if p.yy.le_of(xy) {
            S::unit()
        } else {
            xy / (p.yy + S::unit())
        };
        g.min_of(p.gain)
    }

    /// The correlation that refines the corrected period.
    pub open spec fn near_corr(self, t: int) -> S {
        celt_lpc::dot_by_four(self.x.skip(self.base), self.x.skip(self.base - t), self.n)
    }

    /// The corrected period, in samples before decimation.
    pub open spec fn period(self) -> int {
        let t = self.upto(16).t;
        2 * t + side_of(self.near_corr(t - 1), self.near_corr(t), self.near_corr(t + 1))
    }
}

/// The setting of a correction whose arguments count samples before
/// decimation.
pub open spec fn setting<S: Sample>(
    x: Seq<S>,
    maxperiod: int,
    minperiod: int,
    n: int,
    t0: int,
    prev_period: int,
    prev_gain: S,
) -> Setting<S> {
    Setting {
        x,
        base: maxperiod / 2,
        shortest: minperiod / 2,
        n: (n / 2) as nat,
        t0: if t0 / 2 >= maxperiod / 2 {
            maxperiod / 2 - 1
        } else {
            t0 / 2
        },
        last_period: toward_zero(prev_period),
        last_gain: prev_gain,
    }
}

/// Half of `x`, rounded toward zero.
pub open spec fn toward_zero(x: int) -> int {
    if x >= 0 {
        x / 2
    } else {
        -((-x) / 2)
    }
}

/// The periods that a correction looks at are periods of the signal.
proof fn lemma_periods<S: Sample>(s: Setting<S>, k: int)
    requires
        1 <= s.t0 < s.base,
        2 <= k <= 15,
    ensures
        0 <= s.divided(k) <= s.t0,
        0 <= s.partner(k) <= s.base,
        k > 2 ==> s.partner(k) <= s.t0,
{
    let t = s.t0;
    let c = second_check(k);
    assert(0 <= (2 * t + k) / (2 * k) <= t) by (nonlinear_arith)
        requires
            t >= 1,
            2 <= k,
    ;
    if k > 2 {
        assert(1 <= c < k);
        assert(0 <= (2 * c * t + k) / (2 * k) <= t) by (nonlinear_arith)
            requires
                t >= 1,
                1 <= c < k,
        ;
    }
}

/// Correct a period that is a multiple of the true one. `x` is the decimated
/// signal, of which the last `n / 2` samples are the window; `t0` holds the
/// period before and after. Returns the gain of the period.
pub fn remove_doubling<S: Sample>(
    x: &[S],
    maxperiod: i32,
    minperiod: i32,
    n: i32,
    t0: &mut i32,
    prev_period: i32,
    prev_gain: S,
) -> (gain: S)
    requires
        4 <= maxperiod <= 0x100_0000,
        2 <= minperiod <= 0x100_0000,
        0 <= n <= 0x100_0000,
        2 <= *old(t0),
        maxperiod / 2 + n / 2 <= x@.len(),
    ensures
        minperiod <= *final(t0),
        *final(t0) == minperiod || *final(t0) < maxperiod,
        S::functional() ==> {
            let s = setting(
                x@,
                maxperiod as int,
                minperiod as int,
                n as int,
                *old(t0) as int,
                prev_period as int,
                prev_gain,
            );
            &&& gain == s.gain()
            &&& *final(t0) == if s.period() < minperiod {
                minperiod as int
            } else {
                s.period()
            }
        },
{
    let ghost s = setting(
        x@,
        maxperiod as int,
        minperiod as int,
        n as int,
        *t0 as int,
        prev_period as int,
        prev_gain,
    );
    let base: usize = (maxperiod / 2) as usize;
    let shortest: usize = (minperiod / 2) as usize;
    let len: usize = (n / 2) as usize;
    let last_period: i32 = prev_period / 2;
    let half: i32 = *t0 / 2;
    let start: usize = if half >= maxperiod / 2 {
        base - 1
    } else {
        half as usize
    };
    assert(last_period == s.last_period);
    assert(start == s.t0);

    let window = tail(x, base);
    let (xx, xy0) = dual_inner_prod(window, window, tail(x, base - start), len);
    assert(x@.skip(s.base - 0) == x@.skip(s.base));

    let zero = S::ratio(0, 1);
    let mut energies: Vec<S> = Vec::new();
    energies.push(xx);
    let mut running = xx;
    let mut i: usize = 1;
    while i <= base
        invariant
            1 <= i <= base + 1,
            base == s.base,
            len == s.n,
            s.x == x@,
            base + len <= x@.len(),
            base <= 0x1000_0000,
            len <= 0x1000_0000,
            energies@.len() == i,
            S::functional() ==> {
                &&& zero == S::nil()
                &&& running == s.running_energy((i - 1) as nat)
                &&& forall|k: int| 0 <= k < i ==> #[trigger] energies@[k] == s.energy(k)
            },
        decreases base + 1 - i,
    {
        let a = x[base - i];
        let b = x[base + len - i];
        running = running.plus(a.times(a)).minus(b.times(b));
        energies.push(running.larger(zero));
        i += 1;
    }

    let g0 = compute_pitch_gain(xy0, xx, energies[start]);
    let mut t: usize = start;
    let mut g = g0;
    let mut best_xy = xy0;
    let mut best_yy = energies[start];
    let mut done = false;
    let mut k: usize = 2;
    while k < 16
        invariant
            2 <= k <= 16,
            base == s.base,
            shortest == s.shortest,
            len == s.n,
            start == s.t0,
            last_period == s.last_period,
            prev_gain == s.last_gain,
            s.x == x@,
            1 <= start < base,
            1 <= shortest,
            shortest <= 0x100_0000,
            base <= 0x100_0000,
            -0x4000_0000 <= last_period <= 0x4000_0000,
            base + len <= x@.len(),
            window@ == x@.skip(s.base),
            energies@.len() == base + 1,
            1 <= t <= start,
            S::functional() ==> {
                &&& zero == S::nil()
                &&& xx == s.corr(0)
                &&& g0 == s.gain0()
                &&& forall|j: int| 0 <= j <= base ==> #[trigger] energies@[j] == s.energy(j)
                &&& s.upto(k as nat) == (Period {
                    t: t as int,
                    gain: g,
                    xy: best_xy,
                    yy: best_yy,
                    done,
                })
            },
        decreases 16 - k,
    {
        if !done {
            proof {
                lemma_periods(s, k as int);
            }
            let t1: usize = (2 * start + k) / (2 * k);
            if t1 < shortest {
                done = true;
            } else {
                let c: usize = if k == 6 || k == 12 {
                    5
                } else if k == 4 || k == 8 || k == 10 || k == 14 || k == 2 {
                    3
                } else {
                    2
                };
                assert(2 * c * start <= 0xa00_0000) by (nonlinear_arith)
                    requires
                        c <= 5,
                        start <= 0x100_0000,
                ;
                let t2: usize = if k == 2 {
                    if t1 + start > base {
                        start
                    } else {
                        start + t1
                    }
                } else {
                    (2 * c * start + k) / (2 * k)
                };
                assert(t1 == s.divided(k as int));
                assert(t2 == s.partner(k as int));
                let (c1, c2) = dual_inner_prod(window, tail(x, base - t1), tail(x, base - t2), len);
                let h = S::ratio(1, 2);
                let xy = h.times(c1.plus(c2));
                let yy = h.times(energies[t1].plus(energies[t2]));
                let g1 = compute_pitch_gain(xy, xx, yy);
                let d: i32 = t1 as i32 - last_period;
                assert(5 * k * k <= 1280) by (nonlinear_arith)
                    requires
                        k <= 16,
                ;
                let cont = if -1 <= d && d <= 1 {
                    prev_gain
                } else if -2 <= d && d <= 2 && 5 * k * k < start {
                    h.times(prev_gain)
                } else {
                    zero
                };
                let thresh = if t1 < 3 * shortest {
                    S::ratio(85, 100).times(g0).minus(cont).larger(S::ratio(4, 10))
                } else {
                    S::ratio(7, 10).times(g0).minus(cont).larger(S::ratio(3, 10))
                };
                if thresh.below(g1) {
                    best_xy = xy;
                    best_yy = yy;
                    t = t1;
                    g = g1;
                }
            }
        }
        k += 1;
    }
    best_xy = best_xy.larger(zero);
    let one = S::ratio(1, 1);
    let pg = if best_yy.at_most(best_xy) {
        one
    } else {
        best_xy.over(best_yy.plus(one))
    };
    let a = inner_prod(window, tail(x, base - (t - 1)), len);
    let b = inner_prod(window, tail(x, base - t), len);
    let c = inner_prod(window, tail(x, base - (t + 1)), len);
    let side = peak_side(a, b, c);
    let period: i32 = 2 * (t as i32) + side;
    *t0 = if period < minperiod {
        minperiod
    } else {
        period
    };
    pg.smaller(g)
}

} // verus!
