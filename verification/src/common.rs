//! The tables and transforms that every stream shares: the window, the cosine
//! transform, band sums and gains, and the high-pass filter.

use vstd::prelude::*;
use crate::arith::{filled, Arith, Real, Sample, SampleArith};
use crate::bands::{band_sums, push_flat, push_ramps};
use crate::bands;
use crate::factor;
use crate::fft::{Cpx, KissFft};
use crate::fft;
use crate::{EBAND20MS, FRAME_SIZE, FREQ_SIZE, NB_BANDS, WINDOW_SIZE};

verus! {

/// Sample `i` of the rising half of the window, in the wider format:
/// `sin(pi/2 * sin(pi/2 * (i + 1/2) / 480)^2)`.
pub open spec fn window_angle<W: Real>(i: int) -> W {
    let quarter = W::frac(1, 2) * W::pi_of();
    let inner = (quarter * (W::num(i) + W::frac(1, 2)) / W::num(FRAME_SIZE as int)).sin_of();
    quarter * inner * inner
}

/// The rising half of the window.
pub open spec fn half_window_of<S: Sample>() -> Seq<S> {
    Seq::new(
        FRAME_SIZE as nat,
        |i: int| S::narrowed(window_angle::<S::Wide>(i).sin_of()),
    )
}

/// Entry `(i, j)` of the cosine transform of `n` bands, in the wider format.
pub open spec fn cosine_entry<W: Real>(n: int, i: int, j: int) -> W {
    let v = ((W::num(i) + W::frac(1, 2)) * W::num(j) * W::pi_of() / W::num(n)).cos_of();
    if j == 0 {
        v * W::frac(1, 2).sqrt_of()
    } else {
        v
    }
}

/// The table of the cosine transform of `n` bands, row by row.
pub open spec fn cosine_table<S: Sample>(n: nat) -> Seq<S> {
    Seq::new(
        n * n,
        |k: int| S::narrowed(cosine_entry::<S::Wide>(n as int, k / (n as int), k % (n as int))),
    )
}

/// The sum of the first `m` products of `x` with column `i` of a table with
/// `n` columns.
pub open spec fn column_sum<S: Sample>(table: Seq<S>, n: int, x: Seq<S>, i: int, m: nat) -> S
    decreases m,
{
    if m == 0 {
        S::nil()
    } else {
        column_sum(table, n, x, i, (m - 1) as nat) + x[m - 1] * table[(m - 1) * n + i]
    }
}

/// The factor `sqrt(2/22)` of the cosine transform.
pub open spec fn dct_scale<W: Real>() -> W {
    W::frac(3015113445777635, 10000000000000000)
}

/// The cosine transform of `n` numbers.
pub open spec fn cosines<S: Sample>(table: Seq<S>, n: nat, x: Seq<S>) -> Seq<S> {
    Seq::new(
        n,
        |i: int|
            S::narrowed(
                column_sum(table, n as int, x, i, n).wide() * dct_scale::<S::Wide>(),
            ),
    )
}

/// Compute the rising half of the window.
pub fn half_window_table<S: Sample>() -> (w: Vec<S>)
    ensures
        w@.len() == FRAME_SIZE,
        S::functional() ==> w@ == half_window_of::<S>(),
{
    let half = <S::Wide as Real>::ratio(1, 2);
    let quarter = half.times(<S::Wide as Real>::pi());
    let size = <S::Wide as Real>::ratio(FRAME_SIZE as i64, 1);
    let mut w: Vec<S> = Vec::new();
    let mut i: usize = 0;
    while i < FRAME_SIZE
        invariant
            i <= FRAME_SIZE,
            w@.len() == i,
            S::functional() ==> {
                &&& half == <S::Wide as Arith>::frac(1, 2)
                &&& quarter == half * <S::Wide as Arith>::pi_of()
                &&& size == <S::Wide as Arith>::num(FRAME_SIZE as int)
                &&& forall|k: int| 0 <= k < i ==> #[trigger] w@[k] == half_window_of::<S>()[k]
            },
        decreases FRAME_SIZE - i,
    {
        let at = <S::Wide as Real>::ratio(i as i64, 1).plus(half);
        let inner = quarter.times(at).over(size).sine();
        w.push(S::narrow(quarter.times(inner).times(inner).sine()));
        i += 1;
    }
    w
}

/// Compute the table of the cosine transform of `n` bands.
pub fn dct_table<S: Sample>(n: usize) -> (t: Vec<S>)
    requires
        1 <= n <= 1000,
    ensures
        t@.len() == n * n,
        S::functional() ==> t@ == cosine_table::<S>(n as nat),
{
    let half = <S::Wide as Real>::ratio(1, 2);
    let pi = <S::Wide as Real>::pi();
    let size = <S::Wide as Real>::ratio(n as i64, 1);
    let root = <S::Wide as Real>::ratio(1, 2).root();
    assert(n * n <= 1_000_000) by (nonlinear_arith)
        requires
            n <= 1000,
    ;
    let count: usize = n * n;
    let mut t: Vec<S> = Vec::new();
    let mut k: usize = 0;
    while k < count
        invariant
            1 <= n <= 1000,
            count == n * n,
            count <= 1_000_000,
            k <= count,
            t@.len() == k,
            S::functional() ==> {
                &&& half == <S::Wide as Arith>::frac(1, 2)
                &&& pi == <S::Wide as Arith>::pi_of()
                &&& size == <S::Wide as Arith>::num(n as int)
                &&& root == <S::Wide as Arith>::frac(1, 2).sqrt_of()
                &&& forall|l: int|
                    0 <= l < k ==> #[trigger] t@[l] == S::narrowed(
                        cosine_entry::<S::Wide>(n as int, l / (n as int), l % (n as int)),
                    )
            },
        decreases count - k,
    {
        let i: usize = k / n;
        let j: usize = k % n;
        let v = <S::Wide as Real>::ratio(i as i64, 1).plus(half).times(
            <S::Wide as Real>::ratio(j as i64, 1),
        ).times(pi).over(size).cosine();
        if j == 0 {
            t.push(S::narrow(v.times(root)));
        } else {
            t.push(S::narrow(v));
        }
        k += 1;
    }
    assert(S::functional() ==> t@ == cosine_table::<S>(n as nat));
    t
}

/// The cosine transform of the first `n` elements of `x`.
pub fn dct<S: Sample>(table: &Vec<S>, n: usize, x: &[S]) -> (out: Vec<S>)
    requires
        table@.len() == n * n,
        n <= x@.len(),
    ensures
        out@.len() == n,
        S::functional() ==> out@ == cosines(table@, n as nat, x@),
{
    let scale = <S::Wide as Real>::ratio(3015113445777635, 10000000000000000);
    let mut out: Vec<S> = Vec::new();
    let mut i: usize = 0;
    while i < n
        invariant
            table@.len() == n * n,
            n <= x@.len(),
            i <= n,
            out@.len() == i,
            S::functional() ==> {
                &&& scale == dct_scale::<S::Wide>()
                &&& forall|k: int|
                    0 <= k < i ==> #[trigger] out@[k] == cosines(table@, n as nat, x@)[k]
            },
        decreases n - i,
    {
        let mut sum = S::ratio(0, 1);
        let mut j: usize = 0;
        while j < n
            invariant
                table@.len() == n * n,
                n <= x@.len(),
                i < n,
                j <= n,
                S::functional() ==> sum == column_sum(table@, n as int, x@, i as int, j as nat),
            decreases n - j,
        {
            assert(j * n + i < n * n && j * n <= n * n) by (nonlinear_arith)
                requires
                    j < n,
                    i < n,
            ;
            assert(table@.len() == table.len());
            sum = sum.plus(x[j].times(table[j * n + i]));
            j += 1;
        }
        out.push(S::narrow(sum.widen().times(scale)));
        i += 1;
    }
    out
}

/// A signal after the window, which falls as it rose.
pub open spec fn windowed<S: Sample>(x: Seq<S>, half: Seq<S>) -> Seq<S> {
    Seq::new(
        WINDOW_SIZE as nat,
        |i: int|
            x[i] * half[if i < FRAME_SIZE {
                i
            } else {
                WINDOW_SIZE - 1 - i
            }],
    )
}

/// Apply the window to two frames.
pub fn apply_window<S: Sample>(half: &Vec<S>, x: &[S]) -> (out: Vec<S>)
    requires
        half@.len() == FRAME_SIZE,
        WINDOW_SIZE <= x@.len(),
    ensures
        out@.len() == WINDOW_SIZE,
        S::functional() ==> out@ == windowed(x@, half@),
{
    let mut out: Vec<S> = Vec::new();
    let mut i: usize = 0;
    while i < WINDOW_SIZE
        invariant
            half@.len() == FRAME_SIZE,
            WINDOW_SIZE <= x@.len(),
            i <= WINDOW_SIZE,
            out@.len() == i,
            S::functional() ==> forall|k: int|
                0 <= k < i ==> #[trigger] out@[k] == windowed(x@, half@)[k],
        decreases WINDOW_SIZE - i,
    {
        let k: usize = if i < FRAME_SIZE {
            i
        } else {
            WINDOW_SIZE - 1 - i
        };
        out.push(x[i].times(half[k]));
        i += 1;
    }
    out
}

/// The stages of the transform of a window: radix 5, 3 and three times 4.
pub proof fn lemma_window_plan()
    ensures
        fft::supported(WINDOW_SIZE as int),
        factor::order(WINDOW_SIZE as int) == seq![5int, 3int, 4int, 4int, 4int],
{
    reveal_with_fuel(factor::times, 5);
    reveal_with_fuel(factor::without, 5);
    reveal_with_fuel(factor::divided, 2);
    assert(factor::times(960, 4) == 3);
    assert(factor::without(960, 4) == 15);
    assert(factor::times(15, 2) == 0);
    assert(factor::odd_part(960) == 15);
    assert(factor::times(15, 3) == 1);
    assert(factor::without(15, 3) == 5);
    assert(factor::times(5, 5) == 1);
    assert(factor::without(5, 5) == 1);
    assert(factor::radices(960) == seq![4int, 4int, 4int, 3int, 5int]);
    let o = factor::order(960);
    assert(o == seq![5int, 3int, 4int, 4int, 4int]);
    assert(factor::divided(960, o, 0) == 960);
    let p = o[0];
    assert(factor::divided(960, o, 1) == 960int / p);
    assert(960int / p == 192) by (nonlinear_arith)
        requires
            p == 5,
    ;
}

/// Real samples as complex numbers.
pub open spec fn as_complex<S: Sample>(x: Seq<S>) -> Seq<Cpx<S>> {
    Seq::new(WINDOW_SIZE as nat, |i: int| Cpx { r: x[i], i: S::nil() })
}

/// The lower half of the spectrum of two frames.
pub open spec fn spectrum<S: Sample>(x: Seq<S>) -> Seq<Cpx<S>> {
    fft::transformed(as_complex(x)).take(FREQ_SIZE as int)
}

/// A whole spectrum of a real signal, from its lower half.
pub open spec fn mirrored<S: Sample>(x: Seq<Cpx<S>>) -> Seq<Cpx<S>> {
    Seq::new(
        WINDOW_SIZE as nat,
        |i: int|
            if i < FREQ_SIZE {
                x[i]
            } else {
                Cpx { r: x[WINDOW_SIZE - i].r, i: -x[WINDOW_SIZE - i].i }
            },
    )
}

/// The two frames with the given spectrum: a forward transform, read backward.
pub open spec fn signal<S: Sample>(x: Seq<Cpx<S>>) -> Seq<S> {
    let y = fft::transformed(mirrored(x));
    Seq::new(
        WINDOW_SIZE as nat,
        |i: int|
            S::num(WINDOW_SIZE as int) * y[if i == 0 {
                0
            } else {
                WINDOW_SIZE - i
            }].r,
    )
}

/// The tables that every stream shares.
pub struct Common<S> {
    half_window: Vec<S>,
    dct_table: Vec<S>,
    fft: KissFft<S>,
}

impl<S: Sample> Common<S> {
    /// The tables are complete.
    pub closed spec fn wf(&self) -> bool {
        &&& self.half_window@.len() == FRAME_SIZE
        &&& self.dct_table@.len() == NB_BANDS * NB_BANDS
        &&& self.fft.wf()
        &&& self.fft.size() == WINDOW_SIZE
        &&& S::functional() ==> {
            &&& self.half_window@ == half_window_of::<S>()
            &&& self.dct_table@ == cosine_table::<S>(NB_BANDS as nat)
        }
    }

    /// Compute the tables.
    pub fn new() -> (c: Self)
        ensures
            c.wf(),
    {
        proof {
            lemma_window_plan();
        }
        Common {
            half_window: half_window_table(),
            dct_table: dct_table(NB_BANDS),
            fft: KissFft::new(WINDOW_SIZE),
        }
    }

    /// The cosine transform of the bands.
    pub fn dct(&self, x: &[S]) -> (out: Vec<S>)
        requires
            self.wf(),
            NB_BANDS <= x@.len(),
        ensures
            out@.len() == NB_BANDS,
            S::functional() ==> out@ == cosines(
                cosine_table::<S>(NB_BANDS as nat),
                NB_BANDS as nat,
                x@,
            ),
    {
        dct(&self.dct_table, NB_BANDS, x)
    }

    /// Apply the window to two frames.
    pub fn apply_window(&self, x: &[S]) -> (out: Vec<S>)
        requires
            self.wf(),
            WINDOW_SIZE <= x@.len(),
        ensures
            out@.len() == WINDOW_SIZE,
            S::functional() ==> out@ == windowed(x@, half_window_of::<S>()),
    {
        apply_window(&self.half_window, x)
    }

    /// The spectrum of two frames, scaled by the inverse of their length.
    pub fn forward_transform(&self, x: &[S]) -> (out: Vec<Cpx<S>>)
        requires
            self.wf(),
            WINDOW_SIZE <= x@.len(),
        ensures
            out@.len() == FREQ_SIZE,
            S::functional() ==> out@ == spectrum(x@),
    {
        let zero = S::ratio(0, 1);
        let mut c: Vec<Cpx<S>> = Vec::new();
        let mut i: usize = 0;
        while i < WINDOW_SIZE
            invariant
                WINDOW_SIZE <= x@.len(),
                i <= WINDOW_SIZE,
                c@.len() == i,
                S::functional() ==> zero == S::nil(),
                S::functional() ==> forall|k: int|
                    0 <= k < i ==> #[trigger] c@[k] == as_complex(x@)[k],
            decreases WINDOW_SIZE - i,
        {
            c.push(Cpx::new(x[i], zero));
            i += 1;
        }
        assert(S::functional() ==> c@ == as_complex(x@));
        let mut y = filled(Cpx::new(zero, zero), WINDOW_SIZE);
        self.fft.forward(&c, y.as_mut_slice());
        y.truncate(FREQ_SIZE);
        y
    }

    /// The two frames with the given spectrum.
    pub fn inverse_transform(&self, x: &[Cpx<S>]) -> (out: Vec<S>)
        requires
            self.wf(),
            FREQ_SIZE <= x@.len(),
        ensures
            out@.len() == WINDOW_SIZE,
            S::functional() ==> out@ == signal(x@),
    {
        let zero = S::ratio(0, 1);
        let mut c: Vec<Cpx<S>> = Vec::new();
        let mut i: usize = 0;
        while i < WINDOW_SIZE
            invariant
                FREQ_SIZE <= x@.len(),
                i <= WINDOW_SIZE,
                c@.len() == i,
                S::functional() ==> forall|k: int|
                    0 <= k < i ==> #[trigger] c@[k] == mirrored(x@)[k],
            decreases WINDOW_SIZE - i,
        {
            if i < FREQ_SIZE {
                c.push(x[i]);
            } else {
                let m = x[WINDOW_SIZE - i];
                c.push(Cpx::new(m.r, m.i.negated()));
            }
            i += 1;
        }
        assert(S::functional() ==> c@ == mirrored(x@));
        let mut y = filled(Cpx::new(zero, zero), WINDOW_SIZE);
        self.fft.forward(&c, y.as_mut_slice());
        let size = S::ratio(WINDOW_SIZE as i64, 1);
        let mut out: Vec<S> = Vec::new();
        let mut i: usize = 0;
        while i < WINDOW_SIZE
            invariant
                y@.len() == WINDOW_SIZE,
                i <= WINDOW_SIZE,
                out@.len() == i,
                S::functional() ==> {
                    &&& size == S::num(WINDOW_SIZE as int)
                    &&& y@ == fft::transformed(mirrored(x@))
                    &&& forall|k: int| 0 <= k < i ==> #[trigger] out@[k] == signal(x@)[k]
                },
            decreases WINDOW_SIZE - i,
        {
            let k: usize = if i == 0 {
                0
            } else {
                WINDOW_SIZE - i
            };
            out.push(size.times(y[k].r));
            i += 1;
        }
        out
    }
}

/// The edges of the bands are increasing and end inside a spectrum.
pub proof fn lemma_edges()
    ensures
        EBAND20MS@.len() == NB_BANDS + 2,
        bands::increasing(EBAND20MS@),
        EBAND20MS@[1] == 2,
        EBAND20MS@[32] == 356,
        EBAND20MS@[33] == 400,
{
    let e = EBAND20MS@;
    assert(forall|i: int| 0 <= i < 33 ==> #[trigger] e[i] < e[i + 1]);
    assert forall|i: int, j: int| 0 <= i < j < e.len() implies e[i] < e[j] by {
        lemma_chain(e, i, j);
    }
}

/// A sequence in which every element is below the next is increasing.
pub proof fn lemma_chain(e: Seq<usize>, i: int, j: int)
    requires
        0 <= i < j < e.len(),
        forall|k: int| 0 <= k < e.len() - 1 ==> #[trigger] e[k] < e[k + 1],
    ensures
        e[i] < e[j],
    decreases j - i,
{
    if i + 1 < j {
        lemma_chain(e, i, j - 1);
    }
    assert(e[j - 1] < e[j - 1 + 1]);
}

/// The sum of two neighbouring bands that share one place at the end of the
/// range, scaled to two thirds.
pub open spec fn end_band<S: Sample>(a: S, b: S) -> S {
    (a + b) * S::num(2) / S::num(3)
}

/// The correlations of two spectra in the bands; the outermost edges count for
/// the bands next to them.
pub open spec fn band_corr<S: Sample>(x: Seq<Cpx<S>>, p: Seq<Cpx<S>>) -> Seq<S> {
    let sums = bands::band_sums_of(EBAND20MS@, x, p);
    Seq::new(
        NB_BANDS as nat,
        |b: int|
            if b == 0 {
                end_band(sums[0], sums[1])
            } else if b == NB_BANDS - 1 {
                end_band(sums[NB_BANDS as int], sums[NB_BANDS + 1])
            } else {
                sums[b + 1]
            },
    )
}

/// The energies of a spectrum in the bands.
pub open spec fn band_energy<S: Sample>(x: Seq<Cpx<S>>) -> Seq<S> {
    band_corr(x, x)
}

/// Correlate two spectra in the bands.
pub fn compute_band_corr<S: Sample>(x: &[Cpx<S>], p: &[Cpx<S>]) -> (out: Vec<S>)
    requires
        400 <= x@.len(),
        400 <= p@.len(),
    ensures
        out@.len() == NB_BANDS,
        S::functional() ==> out@ == band_corr(x@, p@),
{
    proof {
        lemma_edges();
    }
    let sums = band_sums(&EBAND20MS, x, p);
    let mut out: Vec<S> = Vec::new();
    let two = S::ratio(2, 1);
    let three = S::ratio(3, 1);
    out.push(sums[0].plus(sums[1]).times(two).over(three));
    let mut b: usize = 1;
    while b < NB_BANDS - 1
        invariant
            1 <= b <= NB_BANDS - 1,
            sums@.len() == NB_BANDS + 2,
            out@.len() == b,
            S::functional() ==> {
                &&& sums@ == bands::band_sums_of(EBAND20MS@, x@, p@)
                &&& forall|k: int| 0 <= k < b ==> #[trigger] out@[k] == band_corr(x@, p@)[k]
            },
        decreases NB_BANDS - b,
    {
        out.push(sums[b + 1]);
        b += 1;
    }
    out.push(sums[NB_BANDS].plus(sums[NB_BANDS + 1]).times(two).over(three));
    assert(S::functional() ==> out@ == band_corr(x@, p@));
    out
}

/// The energies of a spectrum in the bands.
pub fn compute_band_energy<S: Sample>(x: &[Cpx<S>]) -> (out: Vec<S>)
    requires
        400 <= x@.len(),
    ensures
        out@.len() == NB_BANDS,
        S::functional() ==> out@ == band_energy(x@),
{
    compute_band_corr(x, x)
}

/// The gains of the bins: the first and the last band reach to the ends of
/// their bands, the others run into one another, and nothing is left above the
/// last band.
pub open spec fn bin_gains<S: Sample>(e: Seq<S>) -> Seq<S> {
    bands::flat(e[0], EBAND20MS@[1] as nat) + bands::ramps(
        EBAND20MS@,
        e,
        1,
        (NB_BANDS - 1) as nat,
    ) + bands::flat(e[NB_BANDS - 1], bands::width(EBAND20MS@, NB_BANDS as int)) + bands::flat(
        S::nil(),
        (FREQ_SIZE - 400) as nat,
    )
}

/// Expand the gains of the bands to gains of the bins.
pub fn interp_band_gain<S: Sample>(e: &[S]) -> (g: Vec<S>)
    requires
        NB_BANDS <= e@.len(),
    ensures
        g@.len() == FREQ_SIZE,
        S::functional() ==> g@ == bin_gains(e@),
{
    proof {
        lemma_edges();
        bands::lemma_ramps(EBAND20MS@, e@, 1, (NB_BANDS - 1) as nat);
    }
    let mut g: Vec<S> = Vec::new();
    push_flat(&mut g, e[0], EBAND20MS[1]);
    push_ramps(&mut g, &EBAND20MS, e, 1, NB_BANDS - 1);
    push_flat(&mut g, e[NB_BANDS - 1], EBAND20MS[NB_BANDS + 1] - EBAND20MS[NB_BANDS]);
    push_flat(&mut g, S::ratio(0, 1), FREQ_SIZE - 400);
    assert(S::functional() ==> g@ == bin_gains(e@));
    g
}

/// The two memories of a second-order filter after `i` samples.
pub open spec fn biquad_mem<S: Sample>(
    x: Seq<S>,
    mem: (S, S),
    b: (S, S),
    a: (S, S),
    i: nat,
) -> (S, S)
    decreases i,
{
    if i == 0 {
        mem
    } else {
        let m = biquad_mem(x, mem, b, a, (i - 1) as nat);
        let xi = x[i - 1].wide();
        let yi = (x[i - 1] + m.0).wide();
        (
            S::narrowed(m.1.wide() + (b.0.wide() * xi - a.0.wide() * yi)),
            S::narrowed(b.1.wide() * xi - a.1.wide() * yi),
        )
    }
}

/// A signal after a second-order filter.
pub open spec fn biquad_out<S: Sample>(x: Seq<S>, mem: (S, S), b: (S, S), a: (S, S)) -> Seq<S> {
    Seq::new(x.len(), |i: int| x[i] + biquad_mem(x, mem, b, a, i as nat).0)
}

/// Apply a second-order filter; its memories are updated in the wider format.
pub fn biquad<S: Sample>(mem: &mut (S, S), x: &[S], b: (S, S), a: (S, S)) -> (y: Vec<S>)
    ensures
        y@.len() == x@.len(),
        S::functional() ==> {
            &&& y@ == biquad_out(x@, *old(mem), b, a)
            &&& *final(mem) == biquad_mem(x@, *old(mem), b, a, x@.len())
        },
{
    let ghost mem0 = *mem;
    let b0 = b.0.widen();
    let b1 = b.1.widen();
    let a0 = a.0.widen();
    let a1 = a.1.widen();
    let mut m0 = mem.0;
    let mut m1 = mem.1;
    let mut y: Vec<S> = Vec::new();
    let mut i: usize = 0;
    while i < x.len()
        invariant
            i <= x@.len(),
            y@.len() == i,
            S::functional() ==> {
                &&& b0 == b.0.wide()
                &&& b1 == b.1.wide()
                &&& a0 == a.0.wide()
                &&& a1 == a.1.wide()
                &&& (m0, m1) == biquad_mem(x@, mem0, b, a, i as nat)
                &&& forall|k: int| 0 <= k < i ==> #[trigger] y@[k] == biquad_out(x@, mem0, b, a)[k]
            },
        decreases x@.len() - i,
    {
        let xi = x[i].widen();
        let yi = x[i].plus(m0);
        let yid = yi.widen();
        m0 = S::narrow(m1.widen().plus(b0.times(xi).minus(a0.times(yid))));
        m1 = S::narrow(b1.times(xi).minus(a1.times(yid)));
        y.push(yi);
        i += 1;
    }
    *mem = (m0, m1);
    y
}

/// The coefficients of the filter that removes the constant part of a signal.
pub open spec fn high_pass_b<S: Sample>() -> (S, S) {
    (S::num(-2), S::unit())
}

pub open spec fn high_pass_a<S: Sample>() -> (S, S) {
    (S::frac((-199599) as i64, 100000), S::frac(996, 1000))
}

/// Remove the constant part of a signal.
pub fn high_pass<S: Sample>(mem: &mut (S, S), x: &[S]) -> (y: Vec<S>)
    ensures
        y@.len() == x@.len(),
        S::functional() ==> {
            &&& y@ == biquad_out(x@, *old(mem), high_pass_b::<S>(), high_pass_a::<S>())
            &&& *final(mem) == biquad_mem(
                x@,
                *old(mem),
                high_pass_b::<S>(),
                high_pass_a::<S>(),
                x@.len(),
            )
        },
{
    biquad(
        mem,
        x,
        (S::ratio(-2, 1), S::ratio(1, 1)),
        (S::ratio(-199599, 100000), S::ratio(996, 1000)),
    )
}

} // verus!
