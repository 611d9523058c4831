//! Sums over frequency bands, and gains that run from band to band.
//!
//! A band rises from its lower neighbour's edge and falls to its upper
//! neighbour's: the bins between two edges count for both bands, in shares that
//! add up to one.

use vstd::prelude::*;
use crate::arith::{Arith, Sample, SampleArith};
use crate::fft::Cpx;

verus! {

/// Edges from which bands can be formed: at least two, in increasing order.
pub open spec fn increasing(edges: Seq<usize>) -> bool {
    &&& edges.len() >= 2
    &&& edges[0] == 0
    &&& forall|i: int, j: int| 0 <= i < j < edges.len() ==> edges[i] < edges[j]
}

/// Number of bins between edge `i` and the next.
pub open spec fn width(edges: Seq<usize>, i: int) -> nat {
    (edges[i + 1] - edges[i]) as nat
}

/// How far bin `j` of `n` is from the lower edge.
pub open spec fn share<S: Sample>(j: int, n: nat) -> S {
    S::num(j) / S::num(n as int)
}

/// What bin `k` contributes to a correlation of two spectra.
pub open spec fn bin<S: Sample>(x: Seq<Cpx<S>>, p: Seq<Cpx<S>>, k: int) -> S {
    x[k].r * p[k].r + x[k].i * p[k].i
}

/// `init`, plus the rising shares of the first `n` bins above edge `i`.
pub open spec fn rising<S: Sample>(
    init: S,
    edges: Seq<usize>,
    x: Seq<Cpx<S>>,
    p: Seq<Cpx<S>>,
    i: int,
    n: nat,
) -> S
    decreases n,
{
    if n == 0 {
        init
    } else {
        rising(init, edges, x, p, i, (n - 1) as nat) + share::<S>(n - 1, width(edges, i)) * bin(
            x,
            p,
            edges[i] + (n - 1),
        )
    }
}

/// `init`, plus the falling shares of the first `n` bins above edge `i`.
pub open spec fn falling<S: Sample>(
    init: S,
    edges: Seq<usize>,
    x: Seq<Cpx<S>>,
    p: Seq<Cpx<S>>,
    i: int,
    n: nat,
) -> S
    decreases n,
{
    if n == 0 {
        init
    } else {
        falling(init, edges, x, p, i, (n - 1) as nat) + (S::unit() - share::<S>(
            n - 1,
            width(edges, i),
        )) * bin(x, p, edges[i] + (n - 1))
    }
}

/// The rising side of the band at edge `b`.
pub open spec fn lower_side<S: Sample>(
    edges: Seq<usize>,
    x: Seq<Cpx<S>>,
    p: Seq<Cpx<S>>,
    b: int,
) -> S {
    if b == 0 {
        S::nil()
    } else {
        rising(S::nil(), edges, x, p, b - 1, width(edges, b - 1))
    }
}

/// The correlation of two spectra in the band at edge `b`.
pub open spec fn band_sum<S: Sample>(
    edges: Seq<usize>,
    x: Seq<Cpx<S>>,
    p: Seq<Cpx<S>>,
    b: int,
) -> S {
    if b == edges.len() - 1 {
        lower_side(edges, x, p, b)
    } else {
        falling(lower_side(edges, x, p, b), edges, x, p, b, width(edges, b))
    }
}

/// The correlations of two spectra in the bands at all edges.
pub open spec fn band_sums_of<S: Sample>(
    edges: Seq<usize>,
    x: Seq<Cpx<S>>,
    p: Seq<Cpx<S>>,
) -> Seq<S> {
    Seq::new(edges.len(), |b: int| band_sum(edges, x, p, b))
}

/// Correlate two spectra in the bands at all edges.
pub fn band_sums<S: Sample>(edges: &[usize], x: &[Cpx<S>], p: &[Cpx<S>]) -> (sums: Vec<S>)
    requires
        increasing(edges@),
        edges@.last() <= x@.len(),
        edges@.last() <= p@.len(),
        edges@.last() <= 0x1000_0000,
    ensures
        sums@.len() == edges@.len(),
        S::functional() ==> sums@ == band_sums_of(edges@, x@, p@),
{
    let zero = S::ratio(0, 1);
    let one = S::ratio(1, 1);
    let last: usize = edges.len() - 1;
    let mut sums: Vec<S> = Vec::new();
    let mut low = zero;
    let mut i: usize = 0;
    while i < last
        invariant
            increasing(edges@),
            edges@.last() <= x@.len(),
            edges@.last() <= p@.len(),
            edges@.last() <= 0x1000_0000,
            last == edges@.len() - 1,
            i <= last,
            sums@.len() == i,
            S::functional() ==> {
                &&& zero == S::nil()
                &&& one == S::unit()
                &&& low == lower_side(edges@, x@, p@, i as int)
                &&& forall|b: int| 0 <= b < i ==> #[trigger] sums@[b] == band_sum(edges@, x@, p@, b)
            },
        decreases last - i,
    {
        assert(edges@[i as int] < edges@[i + 1]);
        assert(edges@[i + 1] <= edges@.last()) by {
            if i + 1 < last {
                assert(edges@[i + 1] < edges@[last as int]);
            }
        }
        let size: usize = edges[i + 1] - edges[i];
        let mut high = low;
        let mut next = zero;
        let mut j: usize = 0;
        while j < size
            invariant
                increasing(edges@),
                i < edges@.len() - 1,
                size == edges@[i + 1] - edges@[i as int],
                edges@[i + 1] <= x@.len(),
                edges@[i + 1] <= p@.len(),
                size <= 0x1000_0000,
                j <= size,
                S::functional() ==> {
                    &&& zero == S::nil()
                    &&& one == S::unit()
                    &&& high == falling(low, edges@, x@, p@, i as int, j as nat)
                    &&& next == rising(S::nil(), edges@, x@, p@, i as int, j as nat)
                },
            decreases size - j,
        {
            let f = S::ratio(j as i64, 1).over(S::ratio(size as i64, 1));
            let k: usize = edges[i] + j;
            let c = x[k].r.times(p[k].r).plus(x[k].i.times(p[k].i));
            high = high.plus(one.minus(f).times(c));
            next = next.plus(f.times(c));
            j += 1;
        }
        sums.push(high);
        low = next;
        i += 1;
    }
    sums.push(low);
    assert(S::functional() ==> sums@ == band_sums_of(edges@, x@, p@));
    sums
}

/// A gain that runs from `a` toward `b` over `n` bins.
pub open spec fn ramp<S: Sample>(a: S, b: S, n: nat) -> Seq<S> {
    Seq::new(n, |j: int| (S::unit() - share::<S>(j, n)) * a + share::<S>(j, n) * b)
}

/// The same gain for `n` bins.
pub open spec fn flat<S>(a: S, n: nat) -> Seq<S> {
    Seq::new(n, |j: int| a)
}

/// Gains that run through the first `n + 1` elements of `e`, one edge after
/// another from edge `first` on.
pub open spec fn ramps<S: Sample>(edges: Seq<usize>, e: Seq<S>, first: int, n: nat) -> Seq<S>
    decreases n,
{
    if n == 0 {
        Seq::empty()
    } else {
        ramps(edges, e, first, (n - 1) as nat) + ramp(
            e[n - 1],
            e[n as int],
            width(edges, first + n - 1),
        )
    }
}

/// Runs of gains cover the bins between their first and their last edge.
pub proof fn lemma_ramps<S: Sample>(edges: Seq<usize>, e: Seq<S>, first: int, n: nat)
    requires
        increasing(edges),
        0 <= first,
        first + n < edges.len(),
    ensures
        ramps(edges, e, first, n).len() == edges[first + n] - edges[first],
    decreases n,
{
    if n > 0 {
        lemma_ramps(edges, e, first, (n - 1) as nat);
    }
}

/// Run `i` of the gains starts at its edge: its bin `j` lies `j` bins above it.
pub proof fn lemma_ramps_at<S: Sample>(
    edges: Seq<usize>,
    e: Seq<S>,
    first: int,
    n: nat,
    i: int,
    j: int,
)
    requires
        increasing(edges),
        0 <= first,
        first + n < edges.len(),
        0 <= i < n,
        0 <= j < width(edges, first + i),
    ensures
        0 <= edges[first + i] - edges[first] + j < ramps(edges, e, first, n).len(),
        ramps(edges, e, first, n)[edges[first + i] - edges[first] + j] == ramp(
            e[i],
            e[i + 1],
            width(edges, first + i),
        )[j],
    decreases n,
{
    let m = (n - 1) as nat;
    lemma_ramps(edges, e, first, m);
    let before = ramps(edges, e, first, m);
    if i < m {
        lemma_ramps_at(edges, e, first, m, i, j);
    } else if i > 0 {
        assert(edges[first] < edges[first + i]);
    }
}

/// Append `n` bins with the gain `a`.
pub fn push_flat<S: Copy>(g: &mut Vec<S>, a: S, n: usize)
    ensures
        final(g)@ == old(g)@ + flat(a, n as nat),
{
    let ghost g0 = g@;
    let mut j: usize = 0;
    assert(g@ == g0 + flat(a, 0));
    while j < n
        invariant
            j <= n,
            g@ == g0 + flat(a, j as nat),
        decreases n - j,
    {
        g.push(a);
        j += 1;
        assert(g@ == g0 + flat(a, j as nat));
    }
}

/// Append gains that run through the first `n + 1` elements of `e`, one edge
/// after another from edge `first` on.
pub fn push_ramps<S: Sample>(g: &mut Vec<S>, edges: &[usize], e: &[S], first: usize, n: usize)
    requires
        increasing(edges@),
        first + n < edges@.len(),
        n < e@.len(),
        edges@.last() <= 0x1000_0000,
    ensures
        final(g)@.len() == old(g)@.len() + (edges@[first + n] - edges@[first as int]),
        S::functional() ==> final(g)@ == old(g)@ + ramps(edges@, e@, first as int, n as nat),
{
    let ghost g0 = g@;
    let one = S::ratio(1, 1);
    let mut i: usize = 0;
    assert(g@ == g0 + ramps(edges@, e@, first as int, 0));
    while i < n
        invariant
            increasing(edges@),
            first + n < edges@.len(),
            n < e@.len(),
            edges@.last() <= 0x1000_0000,
            i <= n,
            g@.len() == g0.len() + (edges@[first + i] - edges@[first as int]),
            S::functional() ==> {
                &&& one == S::unit()
                &&& g@ == g0 + ramps(edges@, e@, first as int, i as nat)
            },
        decreases n - i,
    {
        let ghost before = g@;
        assert(edges@.len() == edges.len());
        assert(edges@[first + i] < edges@[first + i + 1]);
        assert(edges@[first + i + 1] <= edges@.last()) by {
            if first + i + 1 < edges@.len() - 1 {
                assert(edges@[first + i + 1] < edges@[edges@.len() - 1]);
            }
        }
        let size: usize = edges[first + i + 1] - edges[first + i];
        let a = e[i];
        let b = e[i + 1];
        let mut j: usize = 0;
        while j < size
            invariant
                size <= 0x1000_0000,
                j <= size,
                g@.len() == before.len() + j,
                forall|k: int| 0 <= k < before.len() ==> #[trigger] g@[k] == before[k],
                S::functional() ==> {
                    &&& one == S::unit()
                    &&& forall|k: int|
                        0 <= k < j ==> #[trigger] g@[before.len() + k] == ramp(
                            a,
                            b,
                            size as nat,
                        )[k]
                },
            decreases size - j,
        {
            let f = S::ratio(j as i64, 1).over(S::ratio(size as i64, 1));
            g.push(one.minus(f).times(a).plus(f.times(b)));
            j += 1;
        }
        proof {
            if S::functional() {
                let r = ramp(a, b, size as nat);
                assert(g@ =~= before + r) by {
                    assert forall|k: int| 0 <= k < g@.len() implies g@[k] == (before + r)[k] by {
                        if k >= before.len() {
                            let m = k - before.len();
                            assert(g@[before.len() + m] == r[m]);
                        }
                    }
                }
                assert(g@ =~= g0 + ramps(edges@, e@, first as int, (i + 1) as nat));
            }
        }
        i += 1;
    }
}

} // verus!
