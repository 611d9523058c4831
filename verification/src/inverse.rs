//! What the inverse transform undoes: in exact arithmetic the signal of a
//! spectrum is the signal that the spectrum was computed from, and overlapping
//! windows add up to the signal.

use vstd::prelude::*;
use vstd::arithmetic::div_mod::*;
use crate::arith::{Arith, Sample};
use crate::common;
use crate::denoise;
use crate::dft::Point;
use crate::dft;
use crate::factor;
use crate::fft::Cpx;
use crate::fft;
use crate::{FRAME_SIZE, FREQ_SIZE, WINDOW_SIZE};

verus! {

/// Sums may be taken in either order.
proof fn lemma_sum_swap(f: spec_fn(int, int) -> Point, a: nat, b: nat)
    ensures
        dft::sum(|i: int| dft::sum(|j: int| f(i, j), b), a) == dft::sum(
            |j: int| dft::sum(|i: int| f(i, j), a),
            b,
        ),
    decreases a,
{
    let cols = |j: int| dft::sum(|i: int| f(i, j), a);
    if a == 0 {
        let nothing = |j: int| dft::zero();
        assert forall|j: int| 0 <= j < b implies #[trigger] cols(j) == nothing(j) by {}
        dft::lemma_sum_same(cols, nothing, b);
        dft::lemma_sum_zero(b);
    } else {
        let k = (a - 1) as nat;
        lemma_sum_swap(f, k, b);
        let before = |j: int| dft::sum(|i: int| f(i, j), k);
        let last = |j: int| f(k as int, j);
        assert forall|j: int| 0 <= j < b implies #[trigger] cols(j) == before(j) + last(j) by {
            let row = |i: int| f(i, j);
            assert(dft::sum(row, a) == dft::sum(row, k) + row(k as int));
        }
        dft::lemma_sum_add(before, last, cols, b);
        let rows = |i: int| dft::sum(|j: int| f(i, j), b);
        assert(dft::sum(rows, a) == dft::sum(rows, k) + rows(k as int));
        assert(rows(k as int) == dft::sum(last, b)) by {
            let r = |j: int| f(k as int, j);
            dft::lemma_sum_same(r, last, b);
        }
    }
}

/// A sum with one term that is not zero.
proof fn lemma_sum_pick(f: spec_fn(int) -> Point, n: nat, l: int)
    requires
        forall|i: int| 0 <= i < n && i != l ==> #[trigger] f(i) == dft::zero(),
    ensures
        dft::sum(f, n) == if 0 <= l < n {
            f(l)
        } else {
            dft::zero()
        },
    decreases n,
{
    if n > 0 {
        lemma_sum_pick(f, (n - 1) as nat, l);
        if l != n - 1 {
            assert(f(n - 1) == dft::zero());
        }
    }
}

/// A sum of terms whose last follows from the first by one step.
proof fn lemma_sum_shift(f: spec_fn(int) -> Point, g: spec_fn(int) -> Point, n: nat)
    requires
        forall|i: int| 0 <= i < n ==> #[trigger] g(i) == f(i + 1),
    ensures
        dft::sum(g, n) + f(0) == dft::sum(f, n) + f(n as int),
    decreases n,
{
    if n > 0 {
        lemma_sum_shift(f, g, (n - 1) as nat);
        assert(g(n - 1) == f(n - 1 + 1));
    }
}

/// A product is zero only where a factor is.
proof fn lemma_no_divisors(a: real, b: real)
    requires
        a * b == 0real,
        b != 0real,
    ensures
        a == 0real,
{
    assert(a == 0real) by (nonlinear_arith)
        requires
            a * b == 0real,
            b != 0real,
    ;
}

/// A square is positive where the number is not zero.
proof fn lemma_square(a: real)
    ensures
        a * a >= 0real,
        a != 0real ==> a * a > 0real,
{
    assert(a * a >= 0real) by (nonlinear_arith);
    if a != 0real {
        assert(a * a != 0real) by {
            if a * a == 0real {
                lemma_no_divisors(a, a);
            }
        }
    }
}

/// A point that a turn leaves in place is the origin, unless the turn is none.
proof fn lemma_fixed(s: Point, w: Point)
    requires
        s * w == s,
        w != dft::one(),
    ensures
        s == dft::zero(),
{
    let a = w.re - 1real;
    let b = w.im;
    let (x, y) = (s.re, s.im);
    dft::lemma_dist(w.re, 1real, x);
    dft::lemma_dist(w.re, 1real, y);
    dft::lemma_units(x);
    dft::lemma_units(y);
    assert(x * a == y * b);
    assert(x * b == 0real - y * a);
    // x * (a * a + b * b) == 0 and y * (a * a + b * b) == 0
    let c = a * a + b * b;
    lemma_square(a);
    lemma_square(b);
    assert(c > 0real) by {
        if a == 0real {
            assert(w.re == 1real);
            assert(b != 0real);
        }
    }
    dft::lemma_dist(a * a, b * b, x);
    dft::lemma_dist(a * a, b * b, y);
    dft::lemma_assoc(x, a, a);
    dft::lemma_assoc(x, b, b);
    dft::lemma_assoc(y, a, a);
    dft::lemma_assoc(y, b, b);
    dft::lemma_assoc(y, a, b);
    dft::lemma_assoc(y, b, a);
    dft::lemma_assoc(x, a, b);
    dft::lemma_assoc(x, b, a);
    dft::lemma_comm(a, b);
    dft::lemma_dist(0real, y * a, b);
    dft::lemma_dist(0real, y * a, a);
    dft::lemma_units(a);
    dft::lemma_units(b);
    assert((x * a) * a == (y * b) * a);
    assert((x * b) * b == (0real - y * a) * b);
    assert(x * c == 0real);
    lemma_no_divisors(x, c);
    assert((x * a) * b == (y * b) * b);
    assert((x * b) * a == (0real - y * a) * a);
    assert(y * c == 0real);
    lemma_no_divisors(y, c);
}

/// No root but the first is one.
pub open spec fn distinct_roots<S: Sample>(phi: spec_fn(S) -> real, tw: Seq<Cpx<S>>) -> bool {
    forall|d: int| 0 < d < tw.len() ==> #[trigger] dft::omega(phi, tw, d) != dft::one()
}

/// A sum of ones.
proof fn lemma_sum_ones(n: nat)
    ensures
        dft::sum(|k: int| dft::one(), n) == (Point { re: n as real, im: 0real }),
    decreases n,
{
    if n > 0 {
        lemma_sum_ones((n - 1) as nat);
    }
}

/// The sum of the powers of a root: the number of roots for the first one, zero
/// for all others.
pub proof fn lemma_orthogonal<S: Sample>(phi: spec_fn(S) -> real, tw: Seq<Cpx<S>>, d: int)
    requires
        dft::exact(phi),
        dft::exact_roots(phi, tw),
        distinct_roots(phi, tw),
    ensures
        dft::sum(|k: int| dft::omega(phi, tw, k * d), tw.len()) == if d % (tw.len() as int) == 0 {
            Point { re: tw.len() as real, im: 0real }
        } else {
            dft::zero()
        },
{
    let n = tw.len() as int;
    let r = d % n;
    let c = d / n;
    lemma_fundamental_div_mod(d, n);
    let f = |k: int| dft::omega(phi, tw, k * d);
    if r == 0 {
        let ones = |k: int| dft::one();
        assert forall|k: int| 0 <= k < n implies #[trigger] f(k) == ones(k) by {
            assert(k * d == 0 + (k * c) * n) by (nonlinear_arith)
                requires
                    d == n * c,
            ;
            dft::lemma_omega_turns(phi, tw, 0, k * c);
        }
        dft::lemma_sum_same(f, ones, n as nat);
        lemma_sum_ones(n as nat);
    } else {
        let w = dft::omega(phi, tw, d);
        assert(w != dft::one()) by {
            assert(d == r + c * n) by (nonlinear_arith)
                requires
                    d == n * c + r,
            ;
            dft::lemma_omega_turns(phi, tw, r, c);
            assert(dft::omega(phi, tw, r) != dft::one());
        }
        let g = |k: int| dft::omega(phi, tw, (k + 1) * d);
        assert forall|k: int| 0 <= k < n implies #[trigger] g(k) == f(k) * w by {
            assert((k + 1) * d == k * d + d) by (nonlinear_arith);
            assert(dft::adds_up(phi, tw, k * d, d));
        }
        dft::lemma_sum_scale(f, g, w, n as nat);
        assert forall|k: int| 0 <= k < n implies #[trigger] g(k) == f(k + 1) by {}
        lemma_sum_shift(f, g, n as nat);
        assert(f(n) == f(0)) by {
            assert(n * d == 0 + d * n) by (nonlinear_arith);
            assert(0 * d == 0);
            dft::lemma_omega_turns(phi, tw, 0, d);
        }
        let s = dft::sum(f, n as nat);
        assert(s * w == s);
        lemma_fixed(s, w);
    }
}

/// The mirror image of a sum is the sum of the mirror images.
proof fn lemma_conj_sum(f: spec_fn(int) -> Point, g: spec_fn(int) -> Point, n: nat)
    requires
        forall|i: int| 0 <= i < n ==> #[trigger] g(i) == dft::conj(f(i)),
    ensures
        dft::sum(g, n) == dft::conj(dft::sum(f, n)),
    decreases n,
{
    if n > 0 {
        lemma_conj_sum(f, g, (n - 1) as nat);
        assert(g(n - 1) == dft::conj(f(n - 1)));
    }
}

/// The constants of the transform of a window are exact.
pub open spec fn exact_scale<S: Sample>(phi: spec_fn(S) -> real) -> bool {
    &&& phi(S::nil()) == 0real
    &&& phi(S::num(WINDOW_SIZE as int)) == 960real
    &&& phi(fft::scale_of::<S>(WINDOW_SIZE as int)) * 960real == 1real
}

/// Arithmetic, roots of unity and constants are exact.
pub open spec fn ideal<S: Sample>(phi: spec_fn(S) -> real) -> bool {
    &&& dft::exact(phi)
    &&& dft::exact_roots(phi, fft::roots::<S>(WINDOW_SIZE as int))
    &&& distinct_roots(phi, fft::roots::<S>(WINDOW_SIZE as int))
    &&& exact_scale(phi)
}

/// A real number as a point.
pub open spec fn on_axis(x: real) -> Point {
    Point { re: x, im: 0real }
}

/// Frequency `k` of a real signal, scaled.
pub open spec fn frequency<S: Sample>(phi: spec_fn(S) -> real, x: Seq<S>, k: int) -> Point {
    let tw = fft::roots::<S>(WINDOW_SIZE as int);
    let sigma = phi(fft::scale_of::<S>(WINDOW_SIZE as int));
    dft::sum(
        |j: int| on_axis(sigma * phi(x[j])) * dft::omega(phi, tw, k * j),
        WINDOW_SIZE as nat,
    )
}

/// The transform of a real signal holds its frequencies.
pub proof fn lemma_forward<S: Sample>(phi: spec_fn(S) -> real, x: Seq<S>, k: int)
    requires
        ideal(phi),
        0 <= k < WINDOW_SIZE,
    ensures
        dft::point(phi, fft::transformed(common::as_complex(x))[k]) == frequency(phi, x, k),
{
    common::lemma_window_plan();
    let n = WINDOW_SIZE as int;
    let z = common::as_complex(x);
    let tw = fft::roots::<S>(n);
    let scale = fft::scale_of::<S>(n);
    dft::lemma_transform_is_dft(phi, z, k);
    let f = |j: int| dft::point(phi, z[j].scaled(scale)) * dft::omega(phi, tw, k * j);
    let g = |j: int| on_axis(phi(scale) * phi(x[j])) * dft::omega(phi, tw, k * j);
    assert forall|j: int| 0 <= j < n implies #[trigger] f(j) == g(j) by {
        dft::lemma_units(phi(scale));
    }
    dft::lemma_sum_same(f, g, n as nat);
}

/// The frequencies of a real signal beyond the middle mirror those before it.
proof fn lemma_mirror<S: Sample>(phi: spec_fn(S) -> real, x: Seq<S>, k: int)
    requires
        ideal(phi),
    ensures
        dft::conj(frequency(phi, x, WINDOW_SIZE - k)) == frequency(phi, x, k),
{
    let n = WINDOW_SIZE as int;
    let tw = fft::roots::<S>(n);
    let sigma = phi(fft::scale_of::<S>(n));
    let f = |j: int| on_axis(sigma * phi(x[j])) * dft::omega(phi, tw, (n - k) * j);
    let g = |j: int| on_axis(sigma * phi(x[j])) * dft::omega(phi, tw, k * j);
    assert forall|j: int| 0 <= j < n implies #[trigger] g(j) == dft::conj(f(j)) by {
        let m = (n - k) * j;
        assert(dft::mirrors(phi, tw, m));
        assert(k * j == -m + j * n) by (nonlinear_arith)
            requires
                m == (n - k) * j,
        ;
        dft::lemma_omega_turns(phi, tw, -m, j);
        let a = sigma * phi(x[j]);
        let w = dft::omega(phi, tw, m);
        dft::lemma_units(w.re);
        dft::lemma_units(w.im);
        dft::lemma_units(0real - w.im);
        dft::lemma_dist(0real, w.im, a);
        dft::lemma_units(a);
    }
    lemma_conj_sum(f, g, n as nat);
}

/// Term `(k, j)` of the transform of a transform, at frequency `l`.
pub open spec fn cross<S: Sample>(
    phi: spec_fn(S) -> real,
    x: Seq<S>,
    l: int,
    k: int,
    j: int,
) -> Point {
    let tw = fft::roots::<S>(WINDOW_SIZE as int);
    let sigma = phi(fft::scale_of::<S>(WINDOW_SIZE as int));
    on_axis(sigma * (sigma * phi(x[j]))) * dft::omega(phi, tw, k * (j + l))
}

/// A scaled frequency, turned, as a sum over the signal.
proof fn lemma_cross_row<S: Sample>(phi: spec_fn(S) -> real, x: Seq<S>, l: int, k: int)
    requires
        ideal(phi),
    ensures
        ({
            let tw = fft::roots::<S>(WINDOW_SIZE as int);
            let sigma = phi(fft::scale_of::<S>(WINDOW_SIZE as int));
            let m = frequency(phi, x, k);
            (Point { re: sigma * m.re, im: sigma * m.im }) * dft::omega(phi, tw, l * k)
                == dft::sum(|j: int| cross(phi, x, l, k, j), WINDOW_SIZE as nat)
        }),
{
    let n = WINDOW_SIZE as int;
    let tw = fft::roots::<S>(n);
    let sigma = phi(fft::scale_of::<S>(n));
    let m = frequency(phi, x, k);
    let f = |j: int| on_axis(sigma * phi(x[j])) * dft::omega(phi, tw, k * j);
    let s = on_axis(sigma);
    let w = dft::omega(phi, tw, l * k);
    let c = s * w;
    let g = |j: int| cross(phi, x, l, k, j);
    assert forall|j: int| 0 <= j < n implies #[trigger] g(j) == f(j) * c by {
        let a = on_axis(sigma * phi(x[j]));
        let v = dft::omega(phi, tw, k * j);
        assert(k * (j + l) == k * j + l * k) by (nonlinear_arith);
        assert(dft::adds_up(phi, tw, k * j, l * k));
        // (a * v) * (s * w) == (s * a) * (v * w)
        dft::lemma_mul_assoc(a * v, s, w);
        dft::lemma_mul_comm(a * v, s);
        dft::lemma_mul_assoc(s, a, v);
        dft::lemma_mul_assoc(s * a, v, w);
        dft::lemma_units(sigma);
        dft::lemma_units(sigma * phi(x[j]));
        dft::lemma_units(0real);
        assert(s * a == on_axis(sigma * (sigma * phi(x[j]))));
    }
    dft::lemma_sum_scale(f, g, c, n as nat);
    dft::lemma_mul_comm(m, c);
    dft::lemma_mul_assoc(s, w, m);
    dft::lemma_mul_comm(w, m);
    dft::lemma_mul_assoc(s, m, w);
    dft::lemma_units(m.re);
    dft::lemma_units(m.im);
    dft::lemma_comm(sigma, m.re);
    dft::lemma_comm(sigma, m.im);
    assert(s * m == (Point { re: sigma * m.re, im: sigma * m.im }));
}

/// The sum over all frequencies of what sample `j` contributes.
proof fn lemma_column<S: Sample>(phi: spec_fn(S) -> real, x: Seq<S>, l: int, j: int)
    requires
        ideal(phi),
    ensures
        dft::sum(|k: int| cross(phi, x, l, k, j), WINDOW_SIZE as nat) == (if (j + l)
            % WINDOW_SIZE as int == 0 {
            on_axis(960real)
        } else {
            dft::zero()
        }) * on_axis(
            phi(fft::scale_of::<S>(WINDOW_SIZE as int)) * (phi(
                fft::scale_of::<S>(WINDOW_SIZE as int),
            ) * phi(x[j])),
        ),
{
    let n = WINDOW_SIZE as int;
    let tw = fft::roots::<S>(n);
    let sigma = phi(fft::scale_of::<S>(n));
    let c = on_axis(sigma * (sigma * phi(x[j])));
    let f = |k: int| dft::omega(phi, tw, k * (j + l));
    let g = |k: int| cross(phi, x, l, k, j);
    assert forall|k: int| 0 <= k < n implies #[trigger] g(k) == f(k) * c by {
        dft::lemma_mul_comm(c, f(k));
    }
    dft::lemma_sum_scale(f, g, c, n as nat);
    lemma_orthogonal(phi, tw, j + l);
    assert(tw.len() as real == 960real);
}

/// A transform keeps the number of elements.
pub proof fn lemma_transformed_len<S: Sample>(x: Seq<Cpx<S>>)
    ensures
        fft::transformed(x).len() == x.len(),
{
    let n = x.len() as int;
    let radix = factor::order(n);
    lemma_run_len(
        fft::arranged(x, radix, fft::scale_of::<S>(n)),
        radix,
        radix.len(),
        fft::roots::<S>(n),
    );
}

proof fn lemma_run_len<S: Sample>(f: Seq<Cpx<S>>, radix: Seq<int>, i: nat, tw: Seq<Cpx<S>>)
    ensures
        fft::run(f, radix, i, tw).len() == f.len(),
    decreases i,
{
    if i > 0 {
        lemma_run_len(
            fft::staged(
                f,
                radix[i - 1],
                factor::product(radix.skip(i as int)),
                factor::product(radix.take(i - 1)),
                tw,
            ),
            radix,
            (i - 1) as nat,
            tw,
        );
    }
}

/// The transform of the whole spectrum of a real signal: the signal backward.
proof fn lemma_backward<S: Sample>(phi: spec_fn(S) -> real, x: Seq<S>, l: int)
    requires
        ideal(phi),
        0 <= l < WINDOW_SIZE,
    ensures
        dft::point(
            phi,
            fft::transformed(common::mirrored(common::spectrum(x)))[l],
        ).re * 960real == phi(x[if l == 0 {
            0
        } else {
            WINDOW_SIZE - l
        }]) * phi(fft::scale_of::<S>(WINDOW_SIZE as int)) * 960real,
{
    common::lemma_window_plan();
    let n = WINDOW_SIZE as int;
    let tw = fft::roots::<S>(n);
    let scale = fft::scale_of::<S>(n);
    let sigma = phi(scale);
    let z = common::mirrored(common::spectrum(x));
    dft::lemma_transform_is_dft(phi, z, l);
    let f = |k: int| dft::point(phi, z[k].scaled(scale)) * dft::omega(phi, tw, l * k);
    let rows = |k: int| dft::sum(|j: int| cross(phi, x, l, k, j), n as nat);
    let y = common::spectrum(x);
    lemma_transformed_len(common::as_complex(x));
    assert(forall|k: int|
        0 <= k < FREQ_SIZE ==> y[k] == fft::transformed(common::as_complex(x))[k]);
    assert forall|k: int| 0 <= k < n implies #[trigger] f(k) == rows(k) by {
        let m = frequency(phi, x, k);
        if k < FREQ_SIZE {
            lemma_forward(phi, x, k);
            assert(dft::point(phi, z[k]) == m);
        } else {
            lemma_forward(phi, x, n - k);
            lemma_mirror(phi, x, k);
            assert(dft::point(phi, z[k]) == m);
        }
        lemma_cross_row(phi, x, l, k);
    }
    dft::lemma_sum_same(f, rows, n as nat);
    let h = |k: int, j: int| cross(phi, x, l, k, j);
    lemma_sum_swap(h, n as nat, n as nat);
    let rows2 = |k: int| dft::sum(|j: int| h(k, j), n as nat);
    assert forall|k: int| 0 <= k < n implies #[trigger] rows(k) == rows2(k) by {
        let a = |j: int| cross(phi, x, l, k, j);
        let b = |j: int| h(k, j);
        dft::lemma_sum_same(a, b, n as nat);
    }
    dft::lemma_sum_same(rows, rows2, n as nat);
    let cols = |j: int| dft::sum(|k: int| h(k, j), n as nat);
    let at = if l == 0 {
        0
    } else {
        n - l
    };
    let top = on_axis(sigma * (sigma * phi(x[at])));
    assert forall|j: int| 0 <= j < n && j != at implies #[trigger] cols(j) == dft::zero() by {
        lemma_column(phi, x, l, j);
        assert((j + l) % n != 0) by {
            if j + l < n {
                lemma_small_mod((j + l) as nat, n as nat);
            } else {
                lemma_fundamental_div_mod_converse(j + l, n, 1, j + l - n);
            }
        }
        let a = |k: int| cross(phi, x, l, k, j);
        let b = |k: int| h(k, j);
        dft::lemma_sum_same(b, a, n as nat);
        let c = on_axis(sigma * (sigma * phi(x[j])));
        dft::lemma_mul_units(c);
    }
    lemma_sum_pick(cols, n as nat, at);
    assert(cols(at) == on_axis(960real) * top) by {
        lemma_column(phi, x, l, at);
        assert((at + l) % n == 0);
        let a = |k: int| cross(phi, x, l, k, at);
        let b = |k: int| h(k, at);
        dft::lemma_sum_same(b, a, n as nat);
    }
    let t = sigma * (sigma * phi(x[at]));
    dft::lemma_units(0real);
    assert(0real * 0real == 0real);
    assert((on_axis(960real) * top).re == 960real * t);
    // 960 * (sigma * (sigma * v)) * 960 == v * sigma * 960
    let v = phi(x[at]);
    dft::lemma_assoc(960real, sigma, sigma * v);
    dft::lemma_comm(960real, sigma);
    dft::lemma_units(sigma * v);
    dft::lemma_comm(sigma, v);
}

/// The signal of a spectrum is the signal that the spectrum was computed from.
pub proof fn lemma_inverse<S: Sample>(phi: spec_fn(S) -> real, x: Seq<S>, i: int)
    requires
        ideal(phi),
        0 <= i < WINDOW_SIZE,
    ensures
        phi(common::signal(common::spectrum(x))[i]) == phi(x[i]),
{
    let n = WINDOW_SIZE as int;
    let l = if i == 0 {
        0
    } else {
        n - i
    };
    lemma_backward(phi, x, l);
    let sigma = phi(fft::scale_of::<S>(n));
    let y = phi(fft::transformed(common::mirrored(common::spectrum(x)))[l].r);
    let v = phi(x[i]);
    dft::lemma_comm(960real, y);
    dft::lemma_assoc(v, sigma, 960real);
    dft::lemma_units(v);
}

/// The window and its mirror image share the power of every sample.
pub open spec fn power_complementary<S: Sample>(phi: spec_fn(S) -> real, half: Seq<S>) -> bool {
    forall|i: int|
        0 <= i < FRAME_SIZE ==> phi(#[trigger] half[i]) * phi(half[i]) + phi(
            half[FRAME_SIZE - 1 - i],
        ) * phi(half[FRAME_SIZE - 1 - i]) == 1real
}

/// A signal that is windowed, transformed, transformed back and windowed again
/// is the signal times the square of the window.
proof fn lemma_windowed_twice<S: Sample>(phi: spec_fn(S) -> real, x: Seq<S>, i: int, w: S)
    requires
        ideal(phi),
        0 <= i < WINDOW_SIZE,
        w == common::half_window_of::<S>()[if i < FRAME_SIZE {
            i
        } else {
            WINDOW_SIZE - 1 - i
        }],
    ensures
        phi(denoise::windowed_signal(denoise::windowed_spectrum(x))[i]) == phi(x[i]) * (phi(w)
            * phi(w)),
{
    reveal(denoise::windowed_signal);
    let half = common::half_window_of::<S>();
    let xw = common::windowed(x, half);
    lemma_inverse(phi, xw, i);
    let y = common::signal(common::spectrum(xw));
    assert(phi(xw[i]) == phi(x[i]) * phi(w));
    assert(phi(y[i] * w) == phi(y[i]) * phi(w));
    dft::lemma_assoc(phi(x[i]), phi(w), phi(w));
}

/// Overlapping windows add up to the signal: where the spectra of two
/// neighbouring windows are put out as they are, the frame that both hold comes
/// out as it went in.
pub proof fn lemma_overlap_add<S: Sample>(
    phi: spec_fn(S) -> real,
    a: Seq<S>,
    b: Seq<S>,
    c: Seq<S>,
    i: int,
)
    requires
        ideal(phi),
        power_complementary(phi, common::half_window_of::<S>()),
        a.len() == FRAME_SIZE,
        b.len() == FRAME_SIZE,
        c.len() == FRAME_SIZE,
        0 <= i < FRAME_SIZE,
    ensures
        phi(
            denoise::windowed_signal(denoise::windowed_spectrum(b + c))[i]
                + denoise::windowed_signal(denoise::windowed_spectrum(a + b))[FRAME_SIZE + i],
        ) == phi(b[i]),
{
    let half = common::half_window_of::<S>();
    let j = FRAME_SIZE - 1 - i;
    lemma_windowed_twice(phi, b + c, i, half[i]);
    lemma_windowed_twice(phi, a + b, FRAME_SIZE + i, half[j]);
    assert((b + c)[i] == b[i]);
    assert((a + b)[FRAME_SIZE + i] == b[i]);
    let v = phi(b[i]);
    let (p, q) = (phi(half[i]) * phi(half[i]), phi(half[j]) * phi(half[j]));
    assert(p + q == 1real);
    dft::lemma_dist(p, q, v);
    dft::lemma_units(v);
}

} // verus!
