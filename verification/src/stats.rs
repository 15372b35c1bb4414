//! Per-group dispersion statistics: integer mean (floor of sum over count)
//! and integer population standard deviation (floor of the square root of
//! the mean squared deviation).

use vstd::prelude::*;

verus! {

/// Sum of a sequence of durations.
pub open spec fn sum_of(s: Seq<u128>) -> int
    decreases s.len(),
{
    if s.len() == 0 {
        0
    } else {
        sum_of(s.drop_last()) + s.last()
    }
}

/// Integer mean: floor of sum over count.
pub open spec fn mean_of(s: Seq<u128>) -> int
    recommends
        s.len() > 0,
{
    sum_of(s) / s.len() as int
}

/// Sum of squared deviations from `m`.
pub open spec fn sq_dev_sum(s: Seq<u128>, m: int) -> int
    decreases s.len(),
{
    if s.len() == 0 {
        0
    } else {
        sq_dev_sum(s.drop_last(), m) + (s.last() - m) * (s.last() - m)
    }
}

/// Sum of squared deviations from the group's own mean.
pub open spec fn ssd_of(s: Seq<u128>) -> int {
    sq_dev_sum(s, mean_of(s))
}

/// `r` is the integer square root of `q`: the greatest integer whose
/// square does not exceed `q`.
pub open spec fn is_isqrt(q: int, r: int) -> bool {
    r >= 0 && r * r <= q < (r + 1) * (r + 1)
}

pub proof fn lemma_sum_nonneg(s: Seq<u128>)
    ensures
        sum_of(s) >= 0,
    decreases s.len(),
{
    if s.len() > 0 {
        lemma_sum_nonneg(s.drop_last());
    }
}

/// Appending one element adds its value to the sum.
pub proof fn lemma_sum_step(s: Seq<u128>, t: int)
    requires
        0 <= t < s.len(),
    ensures
        sum_of(s.subrange(0, t + 1)) == sum_of(s.subrange(0, t)) + s[t],
{
    let pre = s.subrange(0, t + 1);
    assert(pre.drop_last() =~= s.subrange(0, t));
    assert(pre.last() == s[t]);
}

/// A prefix of non-negative terms never exceeds the whole sum.
pub proof fn lemma_sum_prefix_le(s: Seq<u128>, t: int)
    requires
        0 <= t <= s.len(),
    ensures
        sum_of(s.subrange(0, t)) <= sum_of(s),
    decreases s.len() - t,
{
    if t == s.len() {
        assert(s.subrange(0, t) =~= s);
    } else {
        lemma_sum_step(s, t);
        lemma_sum_prefix_le(s, t + 1);
    }
}

pub proof fn lemma_sq_nonneg(s: Seq<u128>, m: int)
    ensures
        sq_dev_sum(s, m) >= 0,
    decreases s.len(),
{
    if s.len() > 0 {
        lemma_sq_nonneg(s.drop_last(), m);
        let d = s.last() - m;
        assert(d * d >= 0) by (nonlinear_arith);
    }
}

pub proof fn lemma_sq_step(s: Seq<u128>, m: int, t: int)
    requires
        0 <= t < s.len(),
    ensures
        sq_dev_sum(s.subrange(0, t + 1), m) == sq_dev_sum(s.subrange(0, t), m) + (s[t] - m) * (s[t]
            - m),
{
    let pre = s.subrange(0, t + 1);
    assert(pre.drop_last() =~= s.subrange(0, t));
    assert(pre.last() == s[t]);
}

pub proof fn lemma_sq_prefix_le(s: Seq<u128>, m: int, t: int)
    requires
        0 <= t <= s.len(),
    ensures
        sq_dev_sum(s.subrange(0, t), m) <= sq_dev_sum(s, m),
    decreases s.len() - t,
{
    if t == s.len() {
        assert(s.subrange(0, t) =~= s);
    } else {
        lemma_sq_step(s, m, t);
        let d = s[t] - m;
        assert(d * d >= 0) by (nonlinear_arith);
        lemma_sq_prefix_le(s, m, t + 1);
    }
}

/// A group holding a single sample has that sample as its mean and a
/// zero sum of squared deviations, so its standard deviation is zero.
pub proof fn lemma_single_sample(s: Seq<u128>)
    requires
        s.len() == 1,
    ensures
        mean_of(s) == s[0],
        ssd_of(s) == 0,
        forall|r: int| is_isqrt(0, r) ==> r == 0,
{
    assert(s.drop_last().len() == 0);
    assert(sum_of(s.drop_last()) == 0);
    assert(s.last() == s[0]);
    assert(sum_of(s) == s[0]);
    assert(mean_of(s) == s[0]);
    assert(sq_dev_sum(s.drop_last(), mean_of(s)) == 0);
    assert(ssd_of(s) == 0);
    assert forall|r: int| is_isqrt(0, r) implies r == 0 by {
        if r > 0 {
            assert(r * r >= 1) by (nonlinear_arith)
                requires
                    r >= 1,
            ;
        }
    }
}

/// Integer square root by bisection.
pub(crate) fn isqrt(q: u128) -> (r: u128)
    ensures
        is_isqrt(q as int, r as int),
{
    if q == 0 {
        return 0;
    }
    let mut lo: u128 = 0;
    let mut hi: u128 = 18446744073709551616u128;  // 2^64
    proof {
        assert(hi as int * hi as int > q as int) by (nonlinear_arith)
            requires
                hi == 18446744073709551616u128,
                q <= u128::MAX,
        ;
    }
    while hi - lo > 1
        invariant
            lo < hi,
            hi <= 18446744073709551616u128,
            lo as int * lo as int <= q as int,
            hi as int * hi as int > q as int,
        decreases hi - lo,
    {
        let mid: u128 = lo + (hi - lo) / 2;
        proof {
            assert(mid as int * mid as int <= u128::MAX as int) by (nonlinear_arith)
                requires
                    mid < 18446744073709551616u128,
            ;
        }
        if mid * mid <= q {
            lo = mid;
        } else {
            hi = mid;
        }
    }
    lo
}

/// One mean / standard-deviation pair per group, in the groups' own
/// (ascending) key order.  The mean is the floor of sum over count; the
/// standard deviation is the floor of the square root of the mean squared
/// deviation from that mean, a population statistic (no Bessel
/// correction).  Every non-empty group yields a stat; a single-sample
/// group yields its sample as mean and zero spread.
pub fn dispersion(g: &Vec<(Vec<u32>, Vec<u128>)>) -> (out: Vec<(Vec<u32>, u128, u128)>)
    requires
        forall|i: int| 0 <= i < g@.len() ==> (#[trigger] g@[i]).1@.len() > 0,
        forall|i: int| 0 <= i < g@.len() ==> sum_of((#[trigger] g@[i]).1@) <= u128::MAX,
        forall|i: int| 0 <= i < g@.len() ==> ssd_of((#[trigger] g@[i]).1@) <= u128::MAX,
    ensures
        out@.len() == g@.len(),
        forall|i: int| 0 <= i < g@.len() ==> (#[trigger] out@[i]).0@ == g@[i].0@,
        forall|i: int| 0 <= i < g@.len() ==> (#[trigger] out@[i]).1 == mean_of(g@[i].1@),
        forall|i: int|
            0 <= i < g@.len() ==> is_isqrt(
                ssd_of(g@[i].1@) / g@[i].1@.len() as int,
                (#[trigger] out@[i]).2 as int,
            ),
{
    let mut out: Vec<(Vec<u32>, u128, u128)> = Vec::new();
    let mut i: usize = 0;
    while i < g.len()
        invariant
            i <= g@.len(),
            out@.len() == i,
            forall|p: int| 0 <= p < g@.len() ==> (#[trigger] g@[p]).1@.len() > 0,
            forall|p: int| 0 <= p < g@.len() ==> sum_of((#[trigger] g@[p]).1@) <= u128::MAX,
            forall|p: int| 0 <= p < g@.len() ==> ssd_of((#[trigger] g@[p]).1@) <= u128::MAX,
            forall|p: int| 0 <= p < i ==> (#[trigger] out@[p]).0@ == g@[p].0@,
            forall|p: int| 0 <= p < i ==> (#[trigger] out@[p]).1 == mean_of(g@[p].1@),
            forall|p: int|
                0 <= p < i ==> is_isqrt(
                    ssd_of(g@[p].1@) / g@[p].1@.len() as int,
                    (#[trigger] out@[p]).2 as int,
                ),
        decreases g@.len() - i,
    {
        let key: &Vec<u32> = &g[i].0;
        let vs: &Vec<u128> = &g[i].1;
        // Copy the key.
        let mut kc: Vec<u32> = Vec::new();
        let mut j: usize = 0;
        while j < key.len()
            invariant
                j <= key@.len(),
                key@ == g@[i as int].0@,
                kc@ =~= key@.subrange(0, j as int),
            decreases key@.len() - j,
        {
            kc.push(key[j]);
            proof {
                assert(key@.subrange(0, j as int).push(key@[j as int]) =~= key@.subrange(
                    0,
                    j + 1,
                ));
            }
            j = j + 1;
        }
        proof {
            assert(kc@ =~= g@[i as int].0@);
        }
        // Sum.
        let mut total: u128 = 0;
        let mut t: usize = 0;
        while t < vs.len()
            invariant
                t <= vs@.len(),
                vs@ == g@[i as int].1@,
                0 <= i < g@.len(),
                sum_of(vs@) <= u128::MAX,
                total == sum_of(vs@.subrange(0, t as int)),
            decreases vs@.len() - t,
        {
            proof {
                lemma_sum_step(vs@, t as int);
                lemma_sum_prefix_le(vs@, t as int + 1);
                lemma_sum_nonneg(vs@.subrange(0, t as int));
            }
            total = total + vs[t];
            t = t + 1;
        }
        proof {
            assert(vs@.subrange(0, vs@.len() as int) =~= vs@);
        }
        let mean: u128 = total / (vs.len() as u128);
        proof {
            assert(mean == mean_of(vs@));
            lemma_sum_nonneg(vs@);
        }
        // Sum of squared deviations.
        let ghost m = mean_of(vs@);
        let mut ssd: u128 = 0;
        let mut t2: usize = 0;
        while t2 < vs.len()
            invariant
                t2 <= vs@.len(),
                vs@ == g@[i as int].1@,
                0 <= i < g@.len(),
                ssd_of(vs@) <= u128::MAX,
                m == mean_of(vs@),
                0 <= m <= u128::MAX,
                mean == m,
                ssd == sq_dev_sum(vs@.subrange(0, t2 as int), m),
            decreases vs@.len() - t2,
        {
            let v = vs[t2];
            let d: u128 = if v >= mean {
                v - mean
            } else {
                mean - v
            };
            proof {
                lemma_sq_step(vs@, m, t2 as int);
                lemma_sq_prefix_le(vs@, m, t2 as int + 1);
                lemma_sq_nonneg(vs@.subrange(0, t2 as int), m);
                let dd = vs@[t2 as int] - m;
                assert(d as int * d as int == dd * dd) by (nonlinear_arith)
                    requires
                        d == if dd >= 0 {
                            dd
                        } else {
                            -dd
                        },
                ;
            }
            ssd = ssd + d * d;
            t2 = t2 + 1;
        }
        proof {
            assert(vs@.subrange(0, vs@.len() as int) =~= vs@);
            assert(ssd == ssd_of(vs@));
        }
        let sd: u128 = isqrt(ssd / (vs.len() as u128));
        out.push((kc, mean, sd));
        i = i + 1;
    }
    out
}

} // verus!
