//! Splitting a transform length into the radices of its stages.
//!
//! A length is split into 4s as far as possible, then 2, 3s and 5s. The stages
//! run in the reverse order, so that the radix-4 stages work on the smallest
//! groups; a factor 2 is placed so that its stage works on groups of one or
//! four.

use vstd::prelude::*;
use vstd::arithmetic::div_mod::*;
use vstd::arithmetic::mul::*;

verus! {

/// Dividing by a factor leaves a smaller number.
pub proof fn lemma_quotient(n: int, p: int)
    requires
        n > 0,
        p >= 2,
        n % p == 0,
    ensures
        1 <= n / p < n,
        n == p * (n / p),
{
    lemma_fundamental_div_mod(n, p);
    assert(1 <= n / p < n) by (nonlinear_arith)
        requires
            n > 0,
            p >= 2,
            n == p * (n / p),
    ;
}

/// How often `p` divides `n`.
pub open spec fn times(n: int, p: int) -> nat
    decreases n,
{
    if n > 0 && p >= 2 && n % p == 0 {
        proof {
            lemma_quotient(n, p);
        }
        1 + times(n / p, p)
    } else {
        0
    }
}

/// `n` without its factors `p`.
pub open spec fn without(n: int, p: int) -> int
    decreases n,
{
    if n > 0 && p >= 2 && n % p == 0 {
        proof {
            lemma_quotient(n, p);
        }
        without(n / p, p)
    } else {
        n
    }
}

/// `k` copies of `x`.
pub open spec fn copies(x: int, k: nat) -> Seq<int> {
    Seq::new(k, |i: int| x)
}

/// What is left of `n` without its factors 2.
pub open spec fn odd_part(n: int) -> int {
    without(without(n, 4), 2)
}

/// The factors 4 and 2 of `n`; a factor 2 comes second where there are more
/// than two factors.
pub open spec fn even_radices(n: int) -> Seq<int> {
    let fours = times(n, 4);
    let twos = times(without(n, 4), 2);
    if twos == 1 && fours >= 2 {
        seq![4int, 2int] + copies(4, (fours - 1) as nat)
    } else {
        copies(4, fours) + copies(2, twos)
    }
}

/// The radices that are found in `n`, in the order in which they are found.
pub open spec fn radices(n: int) -> Seq<int> {
    if n == 1 {
        seq![1int]
    } else {
        even_radices(n) + copies(3, times(odd_part(n), 3)) + copies(
            5,
            times(without(odd_part(n), 3), 5),
        )
    }
}

/// Whether `n` has no prime factor but 2, 3 and 5.
pub open spec fn smooth(n: int) -> bool {
    without(without(odd_part(n), 3), 5) == 1
}

/// The radices of the stages of a transform of length `n`, first stage first.
pub open spec fn order(n: int) -> Seq<int> {
    radices(n).reverse()
}

/// The product of a sequence of numbers.
pub open spec fn product(s: Seq<int>) -> int
    decreases s.len(),
{
    if s.len() == 0 {
        1
    } else {
        s[0] * product(s.drop_first())
    }
}

/// What is left of `n` after division by the first `i` numbers of `s`.
pub open spec fn divided(n: int, s: Seq<int>, i: nat) -> int
    decreases i,
{
    if i == 0 {
        n
    } else {
        divided(n, s, (i - 1) as nat) / s[i - 1]
    }
}

proof fn lemma_without(n: int, p: int)
    requires
        n >= 1,
        p >= 2,
    ensures
        1 <= without(n, p) <= n,
        without(n, p) % p != 0,
    decreases n,
{
    if n % p == 0 {
        lemma_quotient(n, p);
        lemma_without(n / p, p);
    }
}

/// Append the factors `p` of `n` to the radices found so far.
fn strip(n: i32, p: i16, facbuf: &mut [i16], stages: usize) -> (r: (i32, usize))
    requires
        n >= 1,
        p >= 2,
        2 * (stages + times(n as int, p as int)) <= old(facbuf)@.len(),
    ensures
        r.0 == without(n as int, p as int),
        r.0 >= 1,
        r.1 == stages + times(n as int, p as int),
        final(facbuf)@ == Seq::new(
            old(facbuf)@.len(),
            |k: int|
                if 2 * stages <= k < 2 * r.1 && k % 2 == 0 {
                    p
                } else {
                    old(facbuf)@[k]
                },
        ),
{
    let mut n = n;
    let mut stages = stages;
    let ghost n0 = n as int;
    let ghost s0 = stages as int;
    let ghost f0 = facbuf@;
    assert(facbuf@ == Seq::new(
        f0.len(),
        |k: int|
            if 2 * s0 <= k < 2 * stages && k % 2 == 0 {
                p
            } else {
                f0[k]
            },
    ));
    while n % (p as i32) == 0
        invariant
            n >= 1,
            p >= 2,
            s0 <= stages,
            without(n as int, p as int) == without(n0, p as int),
            stages + times(n as int, p as int) == s0 + times(n0, p as int),
            2 * (s0 + times(n0, p as int)) <= f0.len(),
            facbuf@ == Seq::new(
                f0.len(),
                |k: int|
                    if 2 * s0 <= k < 2 * stages && k % 2 == 0 {
                        p
                    } else {
                        f0[k]
                    },
            ),
        decreases n,
    {
        proof {
            lemma_quotient(n as int, p as int);
        }
        assert(facbuf@.len() == facbuf.len());
        facbuf[2 * stages] = p;
        stages += 1;
        n = n / (p as i32);
        assert(facbuf@ == Seq::new(
            f0.len(),
            |k: int|
                if 2 * s0 <= k < 2 * stages && k % 2 == 0 {
                    p
                } else {
                    f0[k]
                },
        ));
    }
    (n, stages)
}

/// A number is the product of its factors `p` and what is left without them.
proof fn lemma_times(n: int, p: int)
    requires
        n >= 1,
        p >= 2,
    ensures
        n == product(copies(p, times(n, p))) * without(n, p),
    decreases n,
{
    if n % p == 0 {
        lemma_quotient(n, p);
        lemma_times(n / p, p);
        let k = times(n / p, p);
        assert(copies(p, k + 1).drop_first() == copies(p, k));
        let c = product(copies(p, k));
        assert(p * (c * without(n / p, p)) == (p * c) * without(n / p, p)) by (nonlinear_arith);
    } else {
        assert(product(copies(p, 0)) == 1);
    }
}

/// The product of two sequences together is the product of their products.
proof fn lemma_product_add(a: Seq<int>, b: Seq<int>)
    ensures
        product(a + b) == product(a) * product(b),
    decreases a.len(),
{
    if a.len() == 0 {
        assert(a + b == b);
    } else {
        lemma_product_add(a.drop_first(), b);
        assert((a + b).drop_first() == a.drop_first() + b);
        let x = a[0];
        let y = product(a.drop_first());
        let z = product(b);
        assert(x * (y * z) == (x * y) * z) by (nonlinear_arith);
    }
}

/// Reversing a sequence keeps its product.
proof fn lemma_product_reverse(a: Seq<int>)
    ensures
        product(a.reverse()) == product(a),
    decreases a.len(),
{
    if a.len() > 0 {
        lemma_product_reverse(a.drop_first());
        assert(a.reverse() == a.drop_first().reverse() + seq![a[0]]);
        lemma_product_add(a.drop_first().reverse(), seq![a[0]]);
        assert(seq![a[0]].drop_first() == Seq::<int>::empty());
        assert(product(Seq::<int>::empty()) == 1);
        assert(product(seq![a[0]]) == a[0] * product(seq![a[0]].drop_first()));
        let x = a[0];
        let y = product(a.drop_first());
        assert(y * x == x * y) by (nonlinear_arith);
    } else {
        assert(a.reverse() == a);
    }
}

/// The radices that are found in `n`, times what is left of it, give `n`.
pub proof fn lemma_radices_product(n: int)
    requires
        n >= 1,
    ensures
        n == product(radices(n)) * without(without(odd_part(n), 3), 5),
        smooth(n) ==> product(order(n)) == n,
{
    reveal_with_fuel(product, 3);
    let n4 = without(n, 4);
    let n2 = odd_part(n);
    let n3 = without(n2, 3);
    let n5 = without(n3, 5);
    lemma_without(n, 4);
    lemma_without(n4, 2);
    lemma_without(n2, 3);
    lemma_without(n3, 5);
    lemma_product_reverse(radices(n));
    if n == 1 {
        assert(radices(n).drop_first() == Seq::<int>::empty());
    } else {
        lemma_times(n, 4);
        lemma_times(n4, 2);
        lemma_times(n2, 3);
        lemma_times(n3, 5);
        lemma_twos(n);
        let a = times(n, 4);
        let b = times(n4, 2);
        let p4 = product(copies(4, a));
        let p2 = product(copies(2, b));
        let p3 = product(copies(3, times(n2, 3)));
        let p5 = product(copies(5, times(n3, 5)));
        assert(product(even_radices(n)) == p4 * p2) by {
            if b == 1 && a >= 2 {
                let rest = copies(4, (a - 1) as nat);
                lemma_product_add(seq![4int, 2int], rest);
                assert(copies(4, a).drop_first() == rest);
                assert(copies(2, b).drop_first() == Seq::<int>::empty());
                assert(seq![4int, 2int].drop_first() == seq![2int]);
                assert(seq![2int].drop_first() == Seq::<int>::empty());
                assert(product(seq![4int, 2int]) == 8);
                assert(p4 == 4 * product(rest));
                assert(p2 == 2);
                let r = product(rest);
                assert(p4 * p2 == 8 * r) by (nonlinear_arith)
                    requires
                        p4 == 4 * r,
                        p2 == 2,
                ;
            } else {
                lemma_product_add(copies(4, a), copies(2, b));
            }
        }
        lemma_product_add(even_radices(n), copies(3, times(n2, 3)));
        lemma_product_add(
            even_radices(n) + copies(3, times(n2, 3)),
            copies(5, times(n3, 5)),
        );
        assert(product(radices(n)) == p4 * p2 * p3 * p5);
        assert(p4 * (p2 * (p3 * (p5 * n5))) == (p4 * p2 * p3 * p5) * n5) by (nonlinear_arith);
        if n5 == 1 {
            let all = product(radices(n));
            assert(all * n5 == all) by (nonlinear_arith)
                requires
                    n5 == 1,
            ;
        }
    }
}

/// A product of positive numbers is positive.
proof fn lemma_product_positive(s: Seq<int>)
    requires
        forall|k: int| 0 <= k < s.len() ==> 1 <= #[trigger] s[k],
    ensures
        product(s) >= 1,
    decreases s.len(),
{
    if s.len() > 0 {
        lemma_product_positive(s.drop_first());
        let x = s[0];
        let y = product(s.drop_first());
        assert(x * y >= 1) by (nonlinear_arith)
            requires
                x >= 1,
                y >= 1,
        ;
    }
}

/// Dividing a product by its first `i` numbers leaves the product of the rest.
proof fn lemma_divided(s: Seq<int>, i: nat)
    requires
        i <= s.len(),
        forall|k: int| 0 <= k < s.len() ==> 1 <= #[trigger] s[k],
    ensures
        divided(product(s), s, i) == product(s.skip(i as int)),
        product(s.skip(i as int)) >= 1,
    decreases i,
{
    lemma_product_positive(s.skip(i as int));
    if i == 0 {
        assert(s.skip(0) == s);
    } else {
        lemma_divided(s, (i - 1) as nat);
        let t = s.skip(i - 1);
        assert(t.drop_first() == s.skip(i as int));
        let p = s[i - 1];
        let m = product(s.skip(i as int));
        lemma_div_by_multiple(m, p);
        assert(p * m == m * p) by (nonlinear_arith);
    }
}

/// The products before and after a stage.
pub proof fn lemma_stage(radix: Seq<int>, i: int)
    requires
        0 <= i < radix.len(),
        forall|k: int| 0 <= k < radix.len() ==> 1 <= #[trigger] radix[k],
    ensures
        product(radix.take(i)) >= 1,
        product(radix.skip(i + 1)) >= 1,
        product(radix.take(i + 1)) == product(radix.take(i)) * radix[i],
        product(radix.skip(i)) == radix[i] * product(radix.skip(i + 1)),
        product(radix.skip(i + 1)) <= product(radix.skip(i)),
        product(radix.take(i)) * (radix[i] * product(radix.skip(i + 1))) == product(radix),
{
    reveal_with_fuel(product, 2);
    lemma_product_positive(radix.take(i));
    lemma_product_positive(radix.skip(i + 1));
    assert(radix.take(i + 1) == radix.take(i) + seq![radix[i]]);
    lemma_product_add(radix.take(i), seq![radix[i]]);
    assert(seq![radix[i]].drop_first() == Seq::<int>::empty());
    assert(product(seq![radix[i]]) == radix[i]);
    assert(radix.skip(i).drop_first() == radix.skip(i + 1));
    assert(radix == radix.take(i) + radix.skip(i));
    lemma_product_add(radix.take(i), radix.skip(i));
    let p = radix[i];
    let m = product(radix.skip(i + 1));
    assert(m <= p * m) by (nonlinear_arith)
        requires
            p >= 1,
            m >= 1,
    ;
}

/// The lengths below later stages are no larger.
proof fn lemma_below(radix: Seq<int>, i: int, j: int)
    requires
        0 <= i <= j <= radix.len(),
        forall|k: int| 0 <= k < radix.len() ==> 1 <= #[trigger] radix[k],
    ensures
        product(radix.skip(j)) <= product(radix.skip(i)),
    decreases j - i,
{
    if i < j {
        lemma_stage(radix, i);
        lemma_below(radix, i + 1, j);
    }
}

/// The stages of `n`: there is at least one, no length below a stage exceeds
/// the length below the first, and the last stage is the one below which
/// nothing is left.
pub proof fn lemma_order(n: int)
    requires
        n >= 1,
        smooth(n),
    ensures
        order(n).len() >= 1,
        product(order(n)) == n,
        forall|i: int| 0 <= i < order(n).len() ==> 1 <= #[trigger] order(n)[i] <= 5,
        forall|i: int|
            0 <= i < order(n).len() ==> {
                let m = #[trigger] divided(n, order(n), (i + 1) as nat);
                &&& m == product(order(n).skip(i + 1))
                &&& 1 <= m <= divided(n, order(n), 1)
                &&& m == 1 <==> i + 1 == order(n).len()
            },
{
    lemma_radices_product(n);
    lemma_radix_range(n);
    let o = order(n);
    assert(o.len() >= 1) by {
        if o.len() == 0 {
            assert(product(o) == 1);
        }
    }
    assert forall|i: int| 0 <= i < o.len() implies {
        let m = #[trigger] divided(n, o, (i + 1) as nat);
        &&& m == product(o.skip(i + 1))
        &&& 1 <= m <= divided(n, o, 1)
        &&& m == 1 <==> i + 1 == o.len()
    } by {
        lemma_divided(o, (i + 1) as nat);
        lemma_divided(o, 1);
        lemma_below(o, 1, i + 1);
        if i + 1 == o.len() {
            assert(o.skip(i + 1) == Seq::<int>::empty());
        } else {
            assert(n != 1) by {
                if n == 1 {
                    assert(o.len() == 1);
                }
            }
            assert(o[i + 1] >= 2);
            lemma_stage(o, i + 1);
            let p = o[i + 1];
            let rest = product(o.skip(i + 2));
            assert(p * rest >= 2) by (nonlinear_arith)
                requires
                    p >= 2,
                    rest >= 1,
            ;
        }
    }
}

/// What a plan of stages has to satisfy for a transform to run over it.
pub open spec fn runnable(radix: Seq<int>, n: int) -> bool {
    &&& radix.len() >= 1
    &&& product(radix) == n
    &&& forall|i: int|
        0 <= i < radix.len() ==> {
            &&& 2 <= #[trigger] radix[i] <= 5
            &&& radix[i] == 2 ==> {
                ||| product(radix.skip(i + 1)) == 1
                ||| product(radix.skip(i + 1)) == 4
            }
        }
}

/// The stages of every length without other prime factors than 2, 3 and 5 can
/// be run: their radices multiply to the length, each is one of 2, 3, 4 and 5,
/// and a stage of radix 2 works on groups of one or four. The length that is
/// left below a stage is the product of the radices after it.
pub proof fn lemma_plan(n: int)
    requires
        n >= 2,
        smooth(n),
    ensures
        runnable(order(n), n),
        forall|i: nat|
            i <= order(n).len() ==> #[trigger] divided(n, order(n), i) == product(
                order(n).skip(i as int),
            ),
{
    reveal_with_fuel(product, 3);
    lemma_radices_product(n);
    lemma_twos(n);
    let o = order(n);
    assert(forall|k: int| 0 <= k < o.len() ==> 2 <= #[trigger] o[k] <= 5);
    assert forall|i: nat| i <= o.len() implies #[trigger] divided(n, o, i) == product(
        o.skip(i as int),
    ) by {
        lemma_divided(o, i);
    }
    if o.len() == 0 {
        assert(product(o) == 1);
    }
    assert forall|i: int| 0 <= i < o.len() && o[i] == 2 implies product(o.skip(i + 1)) == 1
        || product(o.skip(i + 1)) == 4 by {
        let r = radices(n);
        let at = r.len() - 1 - i;
        assert(r[at] == 2);
        let a = times(n, 4);
        assert(at == 0 || at == 1) by {
            assert(times(without(n, 4), 2) == 1);
        }
        if at == 0 {
            assert(o.skip(i + 1) == Seq::<int>::empty());
        } else {
            assert(r[0] == 4);
            assert(o.skip(i + 1) == seq![4int]);
            assert(seq![4int].drop_first() == Seq::<int>::empty());
        }
    }
}

/// A buffer after the numbers of `evens` were written to its even places.
pub open spec fn written(buf: Seq<i16>, evens: Seq<int>) -> Seq<i16> {
    Seq::new(
        buf.len(),
        |k: int|
            if k < 2 * evens.len() && k % 2 == 0 {
                evens[k / 2] as i16
            } else {
                buf[k]
            },
    )
}

/// A buffer after the stages of a transform of length `n` were written to it:
/// for each stage its radix and the length that is left below it.
pub open spec fn planned(buf: Seq<i16>, n: int) -> Seq<i16> {
    Seq::new(
        buf.len(),
        |k: int|
            if k >= 2 * order(n).len() {
                buf[k]
            } else if k % 2 == 0 {
                order(n)[k / 2] as i16
            } else {
                divided(n, order(n), (k / 2 + 1) as nat) as i16
            },
    )
}

/// At most one factor 2 is left beside the factors 4.
proof fn lemma_twos(n: int)
    requires
        n >= 1,
    ensures
        times(without(n, 4), 2) <= 1,
        without(n, 4) % 2 == 0 ==> {
            &&& times(without(n, 4), 2) == 1
            &&& without(without(n, 4), 2) == without(n, 4) / 2
        },
{
    lemma_without(n, 4);
    let m = without(n, 4);
    if m % 2 == 0 {
        assert((m / 2) % 2 != 0);
        assert(times(m / 2, 2) == 0);
        assert(without(m / 2, 2) == m / 2);
    }
}

/// Every radix is between 1 and 5.
proof fn lemma_radix_range(n: int)
    requires
        n >= 1,
    ensures
        forall|i: int| 0 <= i < radices(n).len() ==> 1 <= #[trigger] radices(n)[i] <= 5,
{
}

/// The number 1 has one stage of radix 1.
proof fn lemma_one()
    ensures
        smooth(1),
        radices(1) == seq![1int],
        order(1) == seq![1int],
        divided(1, order(1), 1) == 1,
{
    let one = order(1);
    assert(one == seq![1int]);
    assert(divided(1, one, 0) == 1);
    assert(one[0] == 1);
    assert(divided(1, one, 1) == divided(1, one, 0) / one[0]);
    lemma_div_basics(1);
}

/// Split `n` into the radices of its stages. Succeeds where `n` has no prime
/// factor but 2, 3 and 5; the buffer then holds, for each stage, its radix and
/// the length that is left below it. Otherwise the buffer holds, at its even
/// places, the radices that were found.
pub fn kf_factor(n: i32, facbuf: &mut [i16]) -> (ok: bool)
    requires
        n >= 1,
        2 * radices(n as int).len() <= old(facbuf)@.len(),
    ensures
        ok == smooth(n as int),
        ok ==> final(facbuf)@ == planned(old(facbuf)@, n as int),
        !ok ==> final(facbuf)@ == written(old(facbuf)@, radices(n as int)),
{
    let ghost f0 = facbuf@;
    let ghost n0 = n as int;
    assert(facbuf@.len() == facbuf.len());
    if n == 1 {
        facbuf[0] = 1;
        facbuf[1] = 1;
        proof {
            lemma_one();
            assert(facbuf@ == planned(f0, 1));
        }
        return true;
    }
    proof {
        lemma_without(n0, 4);
        lemma_twos(n0);
    }
    let (n1, s1) = strip(n, 4, facbuf, 0);
    let mut n2 = n1;
    let mut stages = s1;
    if n1 % 2 == 0 {
        facbuf[2 * stages] = 2;
        if stages > 1 {
            facbuf[2 * stages] = 4;
            facbuf[2] = 2;
        }
        stages += 1;
        n2 = n1 / 2;
    }
    assert(stages == even_radices(n0).len());
    assert(facbuf@ == written(f0, even_radices(n0)));
    let (n3, s3) = strip(n2, 3, facbuf, stages);
    assert(facbuf@ == written(f0, even_radices(n0) + copies(3, times(odd_part(n0), 3))));
    let (n5, stages) = strip(n3, 5, facbuf, s3);
    assert(facbuf@ == written(f0, radices(n0)));
    if n5 != 1 {
        return false;
    }
    proof {
        lemma_radix_range(n0);
    }
    let ghost found = radices(n0);
    let mut i: usize = 0;
    while i < stages / 2
        invariant
            i <= stages / 2,
            stages == found.len(),
            2 * stages <= f0.len(),
            facbuf@ == written(
                f0,
                Seq::new(
                    found.len(),
                    |j: int|
                        if i <= j < stages - i {
                            found[j]
                        } else {
                            found[stages - 1 - j]
                        },
                ),
            ),
        decreases stages - i,
    {
        let ghost before = facbuf@;
        assert(facbuf@.len() == facbuf.len());
        let low: usize = 2 * i;
        let high: usize = 2 * (stages - i - 1);
        let x = facbuf[low];
        facbuf[low] = facbuf[high];
        facbuf[high] = x;
        i += 1;
        assert(facbuf@ == written(
            f0,
            Seq::new(
                found.len(),
                |j: int|
                    if i <= j < stages - i {
                        found[j]
                    } else {
                        found[stages - 1 - j]
                    },
            ),
        ));
    }
    assert(facbuf@ == written(f0, order(n0)));
    let mut rest = n;
    let mut i: usize = 0;
    while i < stages
        invariant
            i <= stages,
            stages == found.len(),
            2 * stages <= f0.len(),
            found == radices(n0),
            forall|j: int| 0 <= j < found.len() ==> 1 <= #[trigger] found[j] <= 5,
            rest >= 0,
            rest == divided(n0, order(n0), i as nat),
            facbuf@ == Seq::new(
                f0.len(),
                |k: int|
                    if k < 2 * i {
                        planned(f0, n0)[k]
                    } else {
                        written(f0, order(n0))[k]
                    },
            ),
        decreases stages - i,
    {
        assert(facbuf@.len() == facbuf.len());
        assert(facbuf@[2 * i] == order(n0)[i as int]);
        let p = facbuf[2 * i] as i32;
        assert(rest as int / (p as int) >= 0 && rest as int / (p as int) <= rest) by (nonlinear_arith)
            requires
                rest >= 0,
                p >= 1,
        ;
        rest = rest / p;
        facbuf[2 * i + 1] = rest as i16;
        i += 1;
    }
    assert(facbuf@ == planned(f0, n0));
    true
}

/// Whether `d` divides `n`, and none of 2, 3 and 5 divides `d`.
pub open spec fn foreign_divisor(n: int, d: int) -> bool {
    d >= 1 && n % d == 0 && d % 2 != 0 && d % 3 != 0 && d % 5 != 0
}

/// A divisor of `p * m` that `p` does not divide is a divisor of `m`.
proof fn lemma_coprime(d: int, m: int, p: int)
    requires
        d >= 1,
        p == 2 || p == 3 || p == 5,
        d % p != 0,
        (p * m) % d == 0,
    ensures
        m % d == 0,
{
    let k = (p * m) / d;
    lemma_fundamental_div_mod(p * m, d);
    assert(p * m == d * k);
    let a = d % p;
    let b = k % p;
    lemma_mul_mod_noop(d, k, p);
    assert((d * k) % p == 0) by {
        lemma_mod_multiples_basic(m, p);
        lemma_mul_is_commutative(p, m);
    }
    assert((a * b) % p == 0);
    assert(b == 0) by {
        if a == 1 {
            assert(a * b == b) by (nonlinear_arith)
                requires
                    a == 1,
            ;
        } else if a == 2 {
            assert(a * b == 2 * b) by (nonlinear_arith)
                requires
                    a == 2,
            ;
        } else if a == 3 {
            assert(a * b == 3 * b) by (nonlinear_arith)
                requires
                    a == 3,
            ;
        } else {
            assert(a == 4);
            assert(a * b == 4 * b) by (nonlinear_arith)
                requires
                    a == 4,
            ;
        }
    }
    let q = k / p;
    lemma_fundamental_div_mod(k, p);
    assert(m == d * q) by (nonlinear_arith)
        requires
            p * m == d * k,
            k == p * q,
            p >= 2,
    ;
    lemma_mod_multiples_basic(q, d);
    lemma_mul_is_commutative(d, q);
}

/// What is left of `n` without its factors `p` divides `n`.
proof fn lemma_without_divides(n: int, p: int)
    requires
        n >= 1,
        p >= 2,
    ensures
        n % without(n, p) == 0,
    decreases n,
{
    lemma_without(n, p);
    let r = without(n, p);
    if n % p == 0 {
        lemma_quotient(n, p);
        lemma_without_divides(n / p, p);
        let m = n / p;
        lemma_fundamental_div_mod(m, r);
        assert(n == (p * (m / r)) * r) by (nonlinear_arith)
            requires
                n == p * m,
                m == r * (m / r),
        ;
        lemma_mod_multiples_basic(p * (m / r), r);
    } else {
        lemma_mod_self_0(n);
    }
}

/// A foreign divisor of `n` divides what is left of `n` without a radix.
proof fn lemma_foreign_divisor_stays(n: int, d: int, p: int)
    requires
        n >= 1,
        foreign_divisor(n, d),
        p == 2 || p == 3 || p == 4 || p == 5,
    ensures
        foreign_divisor(without(n, p), d),
    decreases n,
{
    if n % p == 0 {
        lemma_quotient(n, p);
        let m = n / p;
        if p == 4 {
            assert(n == 2 * (2 * m));
            lemma_coprime(d, 2 * m, 2);
            lemma_coprime(d, m, 2);
        } else {
            lemma_coprime(d, m, p);
        }
        lemma_foreign_divisor_stays(m, d, p);
    }
}

/// A divisor of a divisor is a divisor.
proof fn lemma_divides_on(n: int, m: int, r: int)
    requires
        m >= 1,
        r >= 1,
        n % m == 0,
        m % r == 0,
    ensures
        n % r == 0,
{
    lemma_fundamental_div_mod(n, m);
    lemma_fundamental_div_mod(m, r);
    let (a, b) = (n / m, m / r);
    assert(n == (a * b) * r) by (nonlinear_arith)
        requires
            n == m * a,
            m == r * b,
    ;
    lemma_mod_multiples_basic(a * b, r);
}

/// A multiple of a number has its factors.
proof fn lemma_factor_kept(n: int, m: int, p: int)
    requires
        m >= 1,
        p >= 2,
        n % m == 0,
        n % p != 0,
    ensures
        m % p != 0,
{
    if m % p == 0 {
        lemma_divides_on(n, m, p);
    }
}

/// A length has a plan exactly where nothing divides it but products of 2, 3
/// and 5: its only divisor that none of these divides is one.
pub proof fn lemma_smooth(n: int)
    requires
        n >= 1,
    ensures
        smooth(n) <==> forall|d: int| #[trigger] foreign_divisor(n, d) ==> d == 1,
{
    let a = without(n, 4);
    let b = without(a, 2);
    let c = without(b, 3);
    let r = without(c, 5);
    lemma_without(n, 4);
    lemma_without(a, 2);
    lemma_without(b, 3);
    lemma_without(c, 5);
    lemma_without_divides(n, 4);
    lemma_without_divides(a, 2);
    lemma_without_divides(b, 3);
    lemma_without_divides(c, 5);
    lemma_divides_on(b, c, r);
    lemma_divides_on(a, b, r);
    lemma_divides_on(n, a, r);
    lemma_factor_kept(b, r, 2);
    lemma_factor_kept(c, r, 3);
    assert(foreign_divisor(n, r));
    if smooth(n) {
        assert forall|d: int| #[trigger] foreign_divisor(n, d) implies d == 1 by {
            lemma_foreign_divisor_stays(n, d, 4);
            lemma_foreign_divisor_stays(a, d, 2);
            lemma_foreign_divisor_stays(b, d, 3);
            lemma_foreign_divisor_stays(c, d, 5);
            assert(1int % d == 0);
            if d > 1 {
                lemma_small_mod(1, d as nat);
            }
        }
    }
}

} // verus!
