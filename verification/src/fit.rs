//! Ordinary least squares over the trimmed groups: the normal equations
//! are formed exactly in integers and solved by Cramer's rule, so the
//! fitted intercept and coefficients are the exactly rounded rational
//! solution.  Standard errors come from the residual sum of squares and
//! the inverse-matrix diagonal, floored to whole nanoseconds.

use vstd::prelude::*;
use crate::aggregate::gview;
use crate::linalg::{
    det, det_exec, det_fits, det_sum, in_range, mat_view, mat_wf, minor_rc, lemma_minor_entries,
    sign,
};
use crate::stats::{sum_of, lemma_sum_nonneg, lemma_sum_step, lemma_sum_prefix_le};

verus! {

/// The fitted cost model: intercept, one named coefficient per parameter,
/// and the per-parameter standard errors in whole nanoseconds.
pub struct FittedModel {
    pub base: u128,
    pub parameters: Vec<(String, u128)>,
    pub errors: Vec<u128>,
}

/// The design-matrix cell for position `i`: the constant one for the
/// intercept, else the parameter value.
pub open spec fn xval(key: Seq<u32>, i: int) -> int {
    if i == 0 {
        1
    } else {
        key[i - 1] as int
    }
}

/// Entry (i, j) of the normal matrix: over all rows, the product of the
/// design cells at `i` and `j`; rows repeat per group.
pub open spec fn a_sum(g: Seq<(Seq<u32>, Seq<u128>)>, i: int, j: int) -> int
    decreases g.len(),
{
    if g.len() == 0 {
        0
    } else {
        a_sum(g.drop_last(), i, j) + g.last().1.len() * xval(g.last().0, i) * xval(g.last().0, j)
    }
}

/// Entry `i` of the right-hand side: over all rows, design cell at `i`
/// times the duration.
pub open spec fn b_sum(g: Seq<(Seq<u32>, Seq<u128>)>, i: int) -> int
    decreases g.len(),
{
    if g.len() == 0 {
        0
    } else {
        b_sum(g.drop_last(), i) + xval(g.last().0, i) * sum_of(g.last().1)
    }
}

/// The normal matrix of the least-squares problem, dimension `k + 1`.
pub open spec fn mat_a(g: Seq<(Seq<u32>, Seq<u128>)>, k: int) -> Seq<Seq<int>> {
    Seq::new((k + 1) as nat, |i: int| Seq::new((k + 1) as nat, |j: int| a_sum(g, i, j)))
}

/// The normal matrix with column `j` replaced by the right-hand side.
pub open spec fn mat_aj(g: Seq<(Seq<u32>, Seq<u128>)>, k: int, j: int) -> Seq<Seq<int>> {
    Seq::new(
        (k + 1) as nat,
        |r: int|
            Seq::new(
                (k + 1) as nat,
                |c: int|
                    if c == j {
                        b_sum(g, r)
                    } else {
                        a_sum(g, r, c)
                    },
            ),
    )
}

/// Round a non-negative rational `n / d` half-up to an integer; a
/// non-positive rounded value comes out as zero (the reported units are
/// unsigned).
pub open spec fn round_ratio(n: int, d: int) -> int
    recommends
        d != 0,
{
    let n2 = if d < 0 {
        -n
    } else {
        n
    };
    let d2 = if d < 0 {
        -d
    } else {
        d
    };
    if 2 * n2 + d2 <= 0 {
        0
    } else {
        (2 * n2 + d2) / (2 * d2)
    }
}

/// The rounding computation stays within the `i128` range.
pub open spec fn round_fits(n: int, d: int) -> bool {
    let n2 = if d < 0 {
        -n
    } else {
        n
    };
    let d2 = if d < 0 {
        -d
    } else {
        d
    };
    &&& in_range(2 * n2)
    &&& in_range(2 * n2 + d2)
    &&& (2 * n2 + d2 > 0 ==> in_range(2 * d2))
}

/// Shape of a grouped structure ready for fitting: `k` parameters per
/// key and no empty group.
pub open spec fn groups_wf(g: Seq<(Seq<u32>, Seq<u128>)>, k: int) -> bool {
    &&& forall|i: int| 0 <= i < g.len() ==> (#[trigger] g[i]).0.len() == k
    &&& forall|i: int| 0 <= i < g.len() ==> (#[trigger] g[i]).1.len() > 0
}

/// The normal-equation entries all fit in `i128`; a machine limit on the
/// inputs, not a restriction of the mathematics.
pub open spec fn sums_bounded(g: Seq<(Seq<u32>, Seq<u128>)>, k: int) -> bool {
    &&& forall|i: int, j: int| 0 <= i <= k && 0 <= j <= k ==> #[trigger] a_sum(g, i, j) <= i128::MAX
    &&& forall|i: int| 0 <= i <= k ==> #[trigger] b_sum(g, i) <= i128::MAX
}

pub proof fn lemma_a_term_nonneg(e: (Seq<u32>, Seq<u128>), i: int, j: int)
    ensures
        e.1.len() * xval(e.0, i) * xval(e.0, j) >= 0,
        xval(e.0, i) * sum_of(e.1) >= 0,
{
    lemma_sum_nonneg(e.1);
    assert(e.1.len() * xval(e.0, i) * xval(e.0, j) >= 0) by (nonlinear_arith)
        requires
            e.1.len() >= 0,
            xval(e.0, i) >= 0,
            xval(e.0, j) >= 0,
    ;
    assert(xval(e.0, i) * sum_of(e.1) >= 0) by (nonlinear_arith)
        requires
            xval(e.0, i) >= 0,
            sum_of(e.1) >= 0,
    ;
}

pub proof fn lemma_a_sum_nonneg(g: Seq<(Seq<u32>, Seq<u128>)>, i: int, j: int)
    ensures
        a_sum(g, i, j) >= 0,
        b_sum(g, i) >= 0,
    decreases g.len(),
{
    if g.len() > 0 {
        lemma_a_sum_nonneg(g.drop_last(), i, j);
        lemma_a_term_nonneg(g.last(), i, j);
    }
}

/// Step of the group sums along a growing prefix.
pub proof fn lemma_g_step(g: Seq<(Seq<u32>, Seq<u128>)>, t: int, i: int, j: int)
    requires
        0 <= t < g.len(),
    ensures
        a_sum(g.subrange(0, t + 1), i, j) == a_sum(g.subrange(0, t), i, j) + g[t].1.len() * xval(
            g[t].0,
            i,
        ) * xval(g[t].0, j),
        b_sum(g.subrange(0, t + 1), i) == b_sum(g.subrange(0, t), i) + xval(g[t].0, i) * sum_of(
            g[t].1,
        ),
{
    let pre = g.subrange(0, t + 1);
    assert(pre.drop_last() =~= g.subrange(0, t));
    assert(pre.last() == g[t]);
}

/// A prefix of the (non-negative) group sums never exceeds the whole.
pub proof fn lemma_g_prefix_le(g: Seq<(Seq<u32>, Seq<u128>)>, t: int, i: int, j: int)
    requires
        0 <= t <= g.len(),
    ensures
        a_sum(g.subrange(0, t), i, j) <= a_sum(g, i, j),
        b_sum(g.subrange(0, t), i) <= b_sum(g, i),
    decreases g.len() - t,
{
    if t == g.len() {
        assert(g.subrange(0, t) =~= g);
    } else {
        lemma_g_step(g, t, i, j);
        lemma_a_term_nonneg(g[t], i, j);
        lemma_g_prefix_le(g, t + 1, i, j);
    }
}

/// Round `n / d` half-up, watching the machine range.
fn round_half(n: i128, d: i128) -> (r: Option<u128>)
    requires
        d != 0,
        in_range(n as int),
        in_range(d as int),
    ensures
        r is Some <==> round_fits(n as int, d as int),
        r matches Some(v) ==> v == round_ratio(n as int, d as int),
{
    let n2: i128 = if d < 0 {
        -n
    } else {
        n
    };
    let d2: i128 = if d < 0 {
        -d
    } else {
        d
    };
    let t1 = match n2.checked_mul(2) {
        Some(v) => if v == i128::MIN {
            return None;
        } else {
            v
        },
        None => {
            return None;
        },
    };
    let t2 = match t1.checked_add(d2) {
        Some(v) => if v == i128::MIN {
            return None;
        } else {
            v
        },
        None => {
            return None;
        },
    };
    if t2 <= 0 {
        return Some(0);
    }
    let dd2 = match d2.checked_mul(2) {
        Some(v) => v,
        None => {
            return None;
        },
    };
    let q: u128 = (t2 as u128) / (dd2 as u128);
    Some(q)
}

/// Sum a group's durations.
fn sum_durs(vs: &Vec<u128>) -> (r: u128)
    requires
        sum_of(vs@) <= u128::MAX,
    ensures
        r == sum_of(vs@),
{
    let mut total: u128 = 0;
    let mut t: usize = 0;
    proof {
        assert(vs@.subrange(0, 0) =~= Seq::<u128>::empty());
    }
    while t < vs.len()
        invariant
            t <= vs@.len(),
            sum_of(vs@) <= u128::MAX,
            total == sum_of(vs@.subrange(0, t as int)),
        decreases vs@.len() - t,
    {
        proof {
            lemma_sum_step(vs@, t as int);
            lemma_sum_prefix_le(vs@, t as int + 1);
            lemma_sum_nonneg(vs@.subrange(0, t as int));
        }
        total = total + vs[t];
        t = t + 1;
    }
    proof {
        assert(vs@.subrange(0, vs@.len() as int) =~= vs@);
    }
    total
}

/// The design cell for group key `key` at position `i`.
fn xval_exec(key: &Vec<u32>, i: usize) -> (r: i128)
    requires
        i <= key@.len(),
    ensures
        r == xval(key@, i as int),
        0 <= r <= u32::MAX,
{
    if i == 0 {
        1
    } else {
        key[i - 1] as i128
    }
}

/// Build the normal matrix `A`.
fn build_a(g: &Vec<(Vec<u32>, Vec<u128>)>, k: usize) -> (a: Vec<Vec<i128>>)
    requires
        k + 1 <= usize::MAX,
        groups_wf(gview(g@), k as int),
        sums_bounded(gview(g@), k as int),
    ensures
        mat_view(a@) == mat_a(gview(g@), k as int),
        mat_wf(mat_view(a@), k + 1),
{
    let ghost gv = gview(g@);
    let n = g.len();
    let mut a: Vec<Vec<i128>> = Vec::new();
    let mut i: usize = 0;
    while i < k + 1
        invariant
            k < usize::MAX,
            i <= k + 1,
            n == g@.len(),
            gv == gview(g@),
            groups_wf(gv, k as int),
            sums_bounded(gv, k as int),
            a@.len() == i,
            forall|p: int| 0 <= p < i ==> (#[trigger] a@[p])@.len() == k + 1,
            forall|p: int, q: int|
                0 <= p < i && 0 <= q < k + 1 ==> #[trigger] a@[p]@[q] as int == a_sum(gv, p, q),
        decreases k + 1 - i,
    {
        let mut row: Vec<i128> = Vec::new();
        let mut j: usize = 0;
        while j < k + 1
            invariant
                k < usize::MAX,
                j <= k + 1,
                i <= k,
                n == g@.len(),
                gv == gview(g@),
                groups_wf(gv, k as int),
                sums_bounded(gv, k as int),
                row@.len() == j,
                forall|q: int| 0 <= q < j ==> #[trigger] row@[q] as int == a_sum(gv, i as int, q),
            decreases k + 1 - j,
        {
            let mut acc: i128 = 0;
            let mut t: usize = 0;
            proof {
                assert(gv.subrange(0, 0) =~= Seq::<(Seq<u32>, Seq<u128>)>::empty());
                lemma_a_sum_nonneg(gv, i as int, j as int);
            }
            while t < n
                invariant
                    t <= n,
                    i <= k,
                    j <= k,
                    n == g@.len(),
                    gv == gview(g@),
                    groups_wf(gv, k as int),
                    sums_bounded(gv, k as int),
                    acc == a_sum(gv.subrange(0, t as int), i as int, j as int),
                    0 <= acc,
                decreases n - t,
            {
                proof {
                    assert(gv[t as int] == (g@[t as int].0@, g@[t as int].1@));
                    lemma_g_step(gv, t as int, i as int, j as int);
                    lemma_g_step(gv, t as int, i as int, 0);
                    lemma_g_prefix_le(gv, t as int + 1, i as int, j as int);
                    lemma_g_prefix_le(gv, t as int + 1, i as int, 0);
                    lemma_a_sum_nonneg(gv.subrange(0, t as int), i as int, j as int);
                    lemma_a_sum_nonneg(gv.subrange(0, t as int), i as int, 0);
                    lemma_a_term_nonneg(gv[t as int], i as int, j as int);
                    lemma_a_term_nonneg(gv[t as int], i as int, 0);
                }
                let key: &Vec<u32> = &g[t].0;
                let li: i128 = g[t].1.len() as i128;
                let xi = xval_exec(key, i);
                let xj = xval_exec(key, j);
                proof {
                    let e = gv[t as int];
                    assert(e.1.len() * xval(e.0, i as int) * xval(e.0, 0) == e.1.len() * xval(
                        e.0,
                        i as int,
                    )) by (nonlinear_arith);
                    assert(e.1.len() * xval(e.0, i as int) <= a_sum(gv, i as int, 0));
                    assert(0 <= li * xi) by (nonlinear_arith)
                        requires
                            li >= 0,
                            xi >= 0,
                    ;
                }
                let p1: i128 = li * xi;
                let term: i128 = p1 * xj;
                acc = acc + term;
                t = t + 1;
            }
            proof {
                assert(gv.subrange(0, n as int) =~= gv);
            }
            row.push(acc);
            j = j + 1;
        }
        a.push(row);
        i = i + 1;
    }
    proof {
        assert(mat_view(a@) =~~= mat_a(gv, k as int));
        assert forall|p: int, q: int|
            0 <= p < k + 1 && 0 <= q < k + 1 implies in_range(#[trigger] mat_view(a@)[p][q]) by {
            lemma_a_sum_nonneg(gv, p, q);
        }
    }
    a
}

/// Build the right-hand side `b`.
fn build_b(g: &Vec<(Vec<u32>, Vec<u128>)>, k: usize) -> (b: Vec<i128>)
    requires
        k + 1 <= usize::MAX,
        groups_wf(gview(g@), k as int),
        sums_bounded(gview(g@), k as int),
    ensures
        b@.len() == k + 1,
        forall|p: int| 0 <= p < k + 1 ==> #[trigger] b@[p] as int == b_sum(gview(g@), p),
        forall|p: int| 0 <= p < k + 1 ==> 0 <= #[trigger] b@[p],
{
    let ghost gv = gview(g@);
    let n = g.len();
    let mut b: Vec<i128> = Vec::new();
    let mut i: usize = 0;
    while i < k + 1
        invariant
            k < usize::MAX,
            i <= k + 1,
            n == g@.len(),
            gv == gview(g@),
            groups_wf(gv, k as int),
            sums_bounded(gv, k as int),
            b@.len() == i,
            forall|p: int| 0 <= p < i ==> #[trigger] b@[p] as int == b_sum(gv, p),
            forall|p: int| 0 <= p < i ==> 0 <= #[trigger] b@[p],
        decreases k + 1 - i,
    {
        let mut acc: i128 = 0;
        let mut t: usize = 0;
        proof {
            assert(gv.subrange(0, 0) =~= Seq::<(Seq<u32>, Seq<u128>)>::empty());
            lemma_a_sum_nonneg(gv, i as int, 0);
        }
        while t < n
            invariant
                t <= n,
                i <= k,
                n == g@.len(),
                gv == gview(g@),
                groups_wf(gv, k as int),
                sums_bounded(gv, k as int),
                acc == b_sum(gv.subrange(0, t as int), i as int),
                0 <= acc,
            decreases n - t,
        {
            proof {
                assert(gv[t as int] == (g@[t as int].0@, g@[t as int].1@));
                lemma_g_step(gv, t as int, i as int, 0);
                lemma_g_step(gv, t as int, 0, 0);
                lemma_g_prefix_le(gv, t as int + 1, i as int, 0);
                lemma_g_prefix_le(gv, t as int + 1, 0, 0);
                lemma_a_sum_nonneg(gv.subrange(0, t as int), i as int, 0);
                lemma_a_sum_nonneg(gv.subrange(0, t as int), 0, 0);
                lemma_a_term_nonneg(gv[t as int], i as int, 0);
                lemma_a_term_nonneg(gv[t as int], 0, 0);
                lemma_sum_nonneg(gv[t as int].1);
                // The plain sum of this group's durations is bounded by b[0].
                assert(xval(gv[t as int].0, 0) * sum_of(gv[t as int].1) == sum_of(gv[t as int].1))
                    by (nonlinear_arith);
            }
            let key: &Vec<u32> = &g[t].0;
            let gs: u128 = sum_durs(&g[t].1);
            let gsi: i128 = gs as i128;
            let xi = xval_exec(key, i);
            proof {
                let e = gv[t as int];
                assert(0 <= xi * gsi) by (nonlinear_arith)
                    requires
                        xi >= 0,
                        gsi >= 0,
                ;
            }
            let term: i128 = xi * gsi;
            acc = acc + term;
            t = t + 1;
        }
        proof {
            assert(gv.subrange(0, n as int) =~= gv);
        }
        b.push(acc);
        i = i + 1;
    }
    b
}

/// The cofactor numerators as mathematical integers.
pub open spec fn nview(s: Seq<i128>) -> Seq<int> {
    s.map_values(|x: i128| x as int)
}

/// Dot product of the design cells of `key` with the first `t` numerators.
pub open spec fn dot_n(key: Seq<u32>, nv: Seq<int>, t: int) -> int
    decreases t,
{
    if t <= 0 {
        0
    } else {
        dot_n(key, nv, t - 1) + xval(key, t - 1) * nv[t - 1]
    }
}

/// The dot product stays within the `i128` range at every step.
pub open spec fn dot_fits(key: Seq<u32>, nv: Seq<int>, t: int) -> bool
    decreases t,
{
    t <= 0 || {
        &&& dot_fits(key, nv, t - 1)
        &&& in_range(xval(key, t - 1) * nv[t - 1])
        &&& in_range(dot_n(key, nv, t))
    }
}

/// Scaled squared residuals of one group: each duration times the
/// determinant, minus the dot product with the numerators, squared.
pub open spec fn rss_group(key: Seq<u32>, vs: Seq<u128>, nv: Seq<int>, dd: int, k: int) -> int
    decreases vs.len(),
{
    if vs.len() == 0 {
        0
    } else {
        rss_group(key, vs.drop_last(), nv, dd, k) + (vs.last() * dd - dot_n(key, nv, k + 1)) * (
        vs.last() * dd - dot_n(key, nv, k + 1))
    }
}

/// The group's residual computation stays within the `i128` range.
pub open spec fn rss_group_fits(key: Seq<u32>, vs: Seq<u128>, nv: Seq<int>, dd: int, k: int) -> bool
    decreases vs.len(),
{
    vs.len() == 0 || {
        &&& rss_group_fits(key, vs.drop_last(), nv, dd, k)
        &&& in_range(vs.last() * dd)
        &&& in_range(vs.last() * dd - dot_n(key, nv, k + 1))
        &&& in_range(
            (vs.last() * dd - dot_n(key, nv, k + 1)) * (vs.last() * dd - dot_n(key, nv, k + 1)),
        )
        &&& in_range(rss_group(key, vs, nv, dd, k))
    }
}

/// The scaled residual sum of squares over all groups.
pub open spec fn rss_total(g: Seq<(Seq<u32>, Seq<u128>)>, nv: Seq<int>, dd: int, k: int) -> int
    decreases g.len(),
{
    if g.len() == 0 {
        0
    } else {
        rss_total(g.drop_last(), nv, dd, k) + rss_group(g.last().0, g.last().1, nv, dd, k)
    }
}

/// The whole residual computation stays within the `i128` range.
pub open spec fn rss_fits(g: Seq<(Seq<u32>, Seq<u128>)>, nv: Seq<int>, dd: int, k: int) -> bool
    decreases g.len(),
{
    g.len() == 0 || {
        &&& rss_fits(g.drop_last(), nv, dd, k)
        &&& dot_fits(g.last().0, nv, k + 1)
        &&& rss_group_fits(g.last().0, g.last().1, nv, dd, k)
        &&& in_range(rss_total(g, nv, dd, k))
    }
}

/// The Cramer numerators: one determinant per column replacement.
pub open spec fn cramer_nv(g: Seq<(Seq<u32>, Seq<u128>)>, k: int) -> Seq<int> {
    Seq::new((k + 1) as nat, |j: int| det(mat_aj(g, k, j)))
}

/// The number of rows of the design matrix.
pub open spec fn rows_of(g: Seq<(Seq<u32>, Seq<u128>)>) -> int {
    a_sum(g, 0, 0)
}

/// Numerator of the squared standard error of parameter `j` (zero-based).
pub open spec fn se_num(g: Seq<(Seq<u32>, Seq<u128>)>, k: int, j: int) -> int {
    rss_total(g, cramer_nv(g, k), det(mat_a(g, k)), k) * det(
        minor_rc(mat_a(g, k), j + 1, j + 1),
    )
}

/// Denominator of the squared standard errors: degrees of freedom times
/// the cube of the determinant.
pub open spec fn se_den(g: Seq<(Seq<u32>, Seq<u128>)>, k: int) -> int {
    (rows_of(g) - (k + 1)) * det(mat_a(g, k)) * det(mat_a(g, k)) * det(mat_a(g, k))
}

/// The standard-error computation stays within the `i128` range (only
/// demanded when there are degrees of freedom left).
pub open spec fn se_fits(g: Seq<(Seq<u32>, Seq<u128>)>, k: int) -> bool {
    let aa = mat_a(g, k);
    let dd = det(aa);
    let nv = cramer_nv(g, k);
    let dof = rows_of(g) - (k + 1);
    dof > 0 ==> {
        &&& rss_fits(g, nv, dd, k)
        &&& in_range(dof * dd)
        &&& in_range(dof * dd * dd)
        &&& in_range(dof * dd * dd * dd)
        &&& forall|j: int| 0 <= j < k ==> det_fits(#[trigger] minor_rc(aa, j + 1, j + 1))
        &&& forall|j: int|
            0 <= j < k ==> in_range(
                rss_total(g, nv, dd, k) * det(#[trigger] minor_rc(aa, j + 1, j + 1)),
            )
    }
}

/// The fit succeeds: the normal matrix is nonsingular and every exact
/// computation stays within the machine range.
pub open spec fn fit_accepts(g: Seq<(Seq<u32>, Seq<u128>)>, k: int) -> bool {
    &&& det_fits(mat_a(g, k))
    &&& det(mat_a(g, k)) != 0
    &&& forall|j: int| 0 <= j <= k ==> det_fits(#[trigger] mat_aj(g, k, j))
    &&& forall|j: int| 0 <= j <= k ==> round_fits(det(#[trigger] mat_aj(g, k, j)), det(mat_a(g, k)))
    &&& se_fits(g, k)
}

pub proof fn lemma_dot_fits_mono(key: Seq<u32>, nv: Seq<int>, t1: int, t2: int)
    requires
        0 <= t1 <= t2,
        dot_fits(key, nv, t2),
    ensures
        dot_fits(key, nv, t1),
    decreases t2 - t1,
{
    if t1 < t2 {
        lemma_dot_fits_mono(key, nv, t1, t2 - 1);
    }
}

pub proof fn lemma_rss_group_fits_prefix(
    key: Seq<u32>,
    vs: Seq<u128>,
    nv: Seq<int>,
    dd: int,
    k: int,
    t: int,
)
    requires
        0 <= t <= vs.len(),
        rss_group_fits(key, vs, nv, dd, k),
    ensures
        rss_group_fits(key, vs.subrange(0, t), nv, dd, k),
    decreases vs.len(),
{
    if t == vs.len() {
        assert(vs.subrange(0, t) =~= vs);
    } else if vs.len() > 0 {
        assert(vs.drop_last() =~= vs.subrange(0, vs.len() - 1));
        lemma_rss_group_fits_prefix(key, vs.drop_last(), nv, dd, k, t);
        assert(vs.drop_last().subrange(0, t) =~= vs.subrange(0, t));
    }
}

pub proof fn lemma_rss_fits_prefix(
    g: Seq<(Seq<u32>, Seq<u128>)>,
    nv: Seq<int>,
    dd: int,
    k: int,
    t: int,
)
    requires
        0 <= t <= g.len(),
        rss_fits(g, nv, dd, k),
    ensures
        rss_fits(g.subrange(0, t), nv, dd, k),
    decreases g.len(),
{
    if t == g.len() {
        assert(g.subrange(0, t) =~= g);
    } else if g.len() > 0 {
        assert(g.drop_last() =~= g.subrange(0, g.len() - 1));
        lemma_rss_fits_prefix(g.drop_last(), nv, dd, k, t);
        assert(g.drop_last().subrange(0, t) =~= g.subrange(0, t));
    }
}

/// Step of the group residual sum along a growing prefix.
pub proof fn lemma_rss_group_step(
    key: Seq<u32>,
    vs: Seq<u128>,
    nv: Seq<int>,
    dd: int,
    k: int,
    t: int,
)
    requires
        0 <= t < vs.len(),
    ensures
        rss_group(key, vs.subrange(0, t + 1), nv, dd, k) == rss_group(
            key,
            vs.subrange(0, t),
            nv,
            dd,
            k,
        ) + (vs[t] * dd - dot_n(key, nv, k + 1)) * (vs[t] * dd - dot_n(key, nv, k + 1)),
        rss_group_fits(key, vs.subrange(0, t + 1), nv, dd, k) <==> (rss_group_fits(
            key,
            vs.subrange(0, t),
            nv,
            dd,
            k,
        ) && in_range(vs[t] * dd) && in_range(vs[t] * dd - dot_n(key, nv, k + 1)) && in_range(
            (vs[t] * dd - dot_n(key, nv, k + 1)) * (vs[t] * dd - dot_n(key, nv, k + 1)),
        ) && in_range(rss_group(key, vs.subrange(0, t + 1), nv, dd, k))),
{
    let pre = vs.subrange(0, t + 1);
    assert(pre.drop_last() =~= vs.subrange(0, t));
    assert(pre.last() == vs[t]);
}

/// Step of the total residual sum along a growing prefix.
pub proof fn lemma_rss_step(g: Seq<(Seq<u32>, Seq<u128>)>, nv: Seq<int>, dd: int, k: int, t: int)
    requires
        0 <= t < g.len(),
    ensures
        rss_total(g.subrange(0, t + 1), nv, dd, k) == rss_total(g.subrange(0, t), nv, dd, k)
            + rss_group(g[t].0, g[t].1, nv, dd, k),
        rss_fits(g.subrange(0, t + 1), nv, dd, k) <==> (rss_fits(g.subrange(0, t), nv, dd, k)
            && dot_fits(g[t].0, nv, k + 1) && rss_group_fits(g[t].0, g[t].1, nv, dd, k) && in_range(
            rss_total(g.subrange(0, t + 1), nv, dd, k),
        )),
{
    let pre = g.subrange(0, t + 1);
    assert(pre.drop_last() =~= g.subrange(0, t));
    assert(pre.last() == g[t]);
}

/// Dot product of a key's design cells with the numerators, watching the
/// machine range.
fn dot_exec(key: &Vec<u32>, nv: &Vec<i128>) -> (r: Option<i128>)
    requires
        key@.len() + 1 == nv@.len(),
        forall|p: int| 0 <= p < nv@.len() ==> in_range(#[trigger] nv@[p] as int),
    ensures
        r is Some <==> dot_fits(key@, nview(nv@), nv@.len() as int),
        r matches Some(v) ==> v as int == dot_n(key@, nview(nv@), nv@.len() as int),
{
    let ghost nvv = nview(nv@);
    let n = nv.len();
    let mut acc: i128 = 0;
    let mut l: usize = 0;
    loop
        invariant
            l <= n,
            n == nv@.len(),
            nvv == nview(nv@),
            key@.len() + 1 == n,
            forall|p: int| 0 <= p < nv@.len() ==> in_range(#[trigger] nv@[p] as int),
            dot_fits(key@, nvv, l as int),
            acc == dot_n(key@, nvv, l as int),
        decreases n - l,
    {
        if l == n {
            return Some(acc);
        }
        let xl = xval_exec(key, l);
        let p = match xl.checked_mul(nv[l]) {
            Some(v) => if v == i128::MIN {
                proof {
                    if dot_fits(key@, nvv, n as int) {
                        lemma_dot_fits_mono(key@, nvv, l as int + 1, n as int);
                    }
                }
                return None;
            } else {
                v
            },
            None => {
                proof {
                    if dot_fits(key@, nvv, n as int) {
                        lemma_dot_fits_mono(key@, nvv, l as int + 1, n as int);
                    }
                }
                return None;
            },
        };
        let a2 = match acc.checked_add(p) {
            Some(v) => if v == i128::MIN {
                proof {
                    if dot_fits(key@, nvv, n as int) {
                        lemma_dot_fits_mono(key@, nvv, l as int + 1, n as int);
                    }
                }
                return None;
            } else {
                v
            },
            None => {
                proof {
                    if dot_fits(key@, nvv, n as int) {
                        lemma_dot_fits_mono(key@, nvv, l as int + 1, n as int);
                    }
                }
                return None;
            },
        };
        acc = a2;
        l = l + 1;
    }
}

/// The scaled residual sum of squares, watching the machine range.
fn rss_exec(g: &Vec<(Vec<u32>, Vec<u128>)>, nv: &Vec<i128>, dd: i128, k: usize) -> (r: Option<
    i128,
>)
    requires
        k < usize::MAX,
        groups_wf(gview(g@), k as int),
        sums_bounded(gview(g@), k as int),
        nv@.len() == k + 1,
        forall|p: int| 0 <= p < nv@.len() ==> in_range(#[trigger] nv@[p] as int),
        in_range(dd as int),
    ensures
        r is Some <==> rss_fits(gview(g@), nview(nv@), dd as int, k as int),
        r matches Some(v) ==> v as int == rss_total(gview(g@), nview(nv@), dd as int, k as int),
{
    let ghost gv = gview(g@);
    let ghost nvv = nview(nv@);
    let n = g.len();
    let mut racc: i128 = 0;
    let mut t: usize = 0;
    proof {
        assert(gv.subrange(0, 0) =~= Seq::<(Seq<u32>, Seq<u128>)>::empty());
    }
    loop
        invariant
            t <= n,
            k < usize::MAX,
            n == g@.len(),
            gv == gview(g@),
            nvv == nview(nv@),
            nv@.len() == k + 1,
            groups_wf(gv, k as int),
            sums_bounded(gv, k as int),
            forall|p: int| 0 <= p < nv@.len() ==> in_range(#[trigger] nv@[p] as int),
            in_range(dd as int),
            rss_fits(gv.subrange(0, t as int), nvv, dd as int, k as int),
            racc == rss_total(gv.subrange(0, t as int), nvv, dd as int, k as int),
        decreases n - t,
    {
        if t == n {
            proof {
                assert(gv.subrange(0, n as int) =~= gv);
            }
            return Some(racc);
        }
        proof {
            assert(gv[t as int] == (g@[t as int].0@, g@[t as int].1@));
            lemma_rss_step(gv, nvv, dd as int, k as int, t as int);
        }
        let key: &Vec<u32> = &g[t].0;
        let vs: &Vec<u128> = &g[t].1;
        let dot: i128 = match dot_exec(key, nv) {
            Some(v) => v,
            None => {
                proof {
                    if rss_fits(gv, nvv, dd as int, k as int) {
                        lemma_rss_fits_prefix(gv, nvv, dd as int, k as int, t as int + 1);
                    }
                }
                return None;
            },
        };
        // This group's durations are bounded by the first right-hand-side
        // entry, so they convert to i128.
        proof {
            lemma_g_step(gv, t as int, 0, 0);
            lemma_g_prefix_le(gv, t as int + 1, 0, 0);
            lemma_a_sum_nonneg(gv.subrange(0, t as int), 0, 0);
            assert(xval(gv[t as int].0, 0) * sum_of(gv[t as int].1) == sum_of(gv[t as int].1))
                by (nonlinear_arith);
            assert(sum_of(gv[t as int].1) <= b_sum(gv, 0));
        }
        let mut gacc: i128 = 0;
        let mut u: usize = 0;
        proof {
            assert(vs@.subrange(0, 0) =~= Seq::<u128>::empty());
        }
        while u < vs.len()
            invariant
                u <= vs@.len(),
                t < n,
                k < usize::MAX,
                n == g@.len(),
                gv == gview(g@),
                nvv == nview(nv@),
                nv@.len() == k + 1,
                groups_wf(gv, k as int),
                sums_bounded(gv, k as int),
                in_range(dd as int),
                key@ == gv[t as int].0,
                vs@ == gv[t as int].1,
                sum_of(vs@) <= b_sum(gv, 0) <= i128::MAX,
                dot as int == dot_n(key@, nvv, k + 1),
                rss_group_fits(key@, vs@.subrange(0, u as int), nvv, dd as int, k as int),
                gacc == rss_group(key@, vs@.subrange(0, u as int), nvv, dd as int, k as int),
                rss_fits(gv.subrange(0, t as int), nvv, dd as int, k as int),
                racc == rss_total(gv.subrange(0, t as int), nvv, dd as int, k as int),
                dot_fits(key@, nvv, k + 1),
            decreases vs@.len() - u,
        {
            proof {
                lemma_rss_group_step(key@, vs@, nvv, dd as int, k as int, u as int);
                lemma_sum_step(vs@, u as int);
                lemma_sum_prefix_le(vs@, u as int + 1);
                lemma_sum_nonneg(vs@.subrange(0, u as int));
            }
            let v: u128 = vs[u];
            let vi: i128 = v as i128;
            let vd: i128 = match vi.checked_mul(dd) {
                Some(w) => if w == i128::MIN {
                    proof {
                        if rss_fits(gv, nvv, dd as int, k as int) {
                            lemma_rss_fits_prefix(gv, nvv, dd as int, k as int, t as int + 1);
                            lemma_rss_group_fits_prefix(
                                key@, vs@, nvv, dd as int, k as int, u as int + 1);
                        }
                    }
                    return None;
                } else {
                    w
                },
                None => {
                    proof {
                        if rss_fits(gv, nvv, dd as int, k as int) {
                            lemma_rss_fits_prefix(gv, nvv, dd as int, k as int, t as int + 1);
                            lemma_rss_group_fits_prefix(
                                key@, vs@, nvv, dd as int, k as int, u as int + 1);
                        }
                    }
                    return None;
                },
            };
            let resid: i128 = match vd.checked_sub(dot) {
                Some(w) => if w == i128::MIN {
                    proof {
                        if rss_fits(gv, nvv, dd as int, k as int) {
                            lemma_rss_fits_prefix(gv, nvv, dd as int, k as int, t as int + 1);
                            lemma_rss_group_fits_prefix(
                                key@, vs@, nvv, dd as int, k as int, u as int + 1);
                        }
                    }
                    return None;
                } else {
                    w
                },
                None => {
                    proof {
                        if rss_fits(gv, nvv, dd as int, k as int) {
                            lemma_rss_fits_prefix(gv, nvv, dd as int, k as int, t as int + 1);
                            lemma_rss_group_fits_prefix(
                                key@, vs@, nvv, dd as int, k as int, u as int + 1);
                        }
                    }
                    return None;
                },
            };
            let sq: i128 = match resid.checked_mul(resid) {
                Some(w) => if w == i128::MIN {
                    proof {
                        if rss_fits(gv, nvv, dd as int, k as int) {
                            lemma_rss_fits_prefix(gv, nvv, dd as int, k as int, t as int + 1);
                            lemma_rss_group_fits_prefix(
                                key@, vs@, nvv, dd as int, k as int, u as int + 1);
                        }
                    }
                    return None;
                } else {
                    w
                },
                None => {
                    proof {
                        if rss_fits(gv, nvv, dd as int, k as int) {
                            lemma_rss_fits_prefix(gv, nvv, dd as int, k as int, t as int + 1);
                            lemma_rss_group_fits_prefix(
                                key@, vs@, nvv, dd as int, k as int, u as int + 1);
                        }
                    }
                    return None;
                },
            };
            let g2: i128 = match gacc.checked_add(sq) {
                Some(w) => if w == i128::MIN {
                    proof {
                        if rss_fits(gv, nvv, dd as int, k as int) {
                            lemma_rss_fits_prefix(gv, nvv, dd as int, k as int, t as int + 1);
                            lemma_rss_group_fits_prefix(
                                key@, vs@, nvv, dd as int, k as int, u as int + 1);
                        }
                    }
                    return None;
                } else {
                    w
                },
                None => {
                    proof {
                        if rss_fits(gv, nvv, dd as int, k as int) {
                            lemma_rss_fits_prefix(gv, nvv, dd as int, k as int, t as int + 1);
                            lemma_rss_group_fits_prefix(
                                key@, vs@, nvv, dd as int, k as int, u as int + 1);
                        }
                    }
                    return None;
                },
            };
            gacc = g2;
            u = u + 1;
        }
        proof {
            assert(vs@.subrange(0, vs@.len() as int) =~= vs@);
            lemma_rss_step(gv, nvv, dd as int, k as int, t as int);
        }
        let r2: i128 = match racc.checked_add(gacc) {
            Some(w) => if w == i128::MIN {
                proof {
                    if rss_fits(gv, nvv, dd as int, k as int) {
                        lemma_rss_fits_prefix(gv, nvv, dd as int, k as int, t as int + 1);
                    }
                }
                return None;
            } else {
                w
            },
            None => {
                proof {
                    if rss_fits(gv, nvv, dd as int, k as int) {
                        lemma_rss_fits_prefix(gv, nvv, dd as int, k as int, t as int + 1);
                    }
                }
                return None;
            },
        };
        racc = r2;
        t = t + 1;
    }
}


/// Division of non-negative machine integers, as the mathematical floor.
fn div_nonneg(a: i128, b: i128) -> (r: u128)
    requires
        0 <= a,
        0 < b,
    ensures
        r as int == a as int / b as int,
{
    (a as u128) / (b as u128)
}

/// Strike out one row and one column of a square matrix.
fn strike(m: &Vec<Vec<i128>>, rr: usize, cc: usize) -> (out: Vec<Vec<i128>>)
    requires
        mat_wf(mat_view(m@), m@.len() as int),
        m@.len() >= 1,
        rr < m@.len(),
        cc < m@.len(),
    ensures
        mat_view(out@) == minor_rc(mat_view(m@), rr as int, cc as int),
        mat_wf(mat_view(out@), m@.len() - 1),
{
    let ghost mv = mat_view(m@);
    let n = m.len();
    proof {
        lemma_minor_entries(mv, n as int, rr as int, cc as int);
    }
    let mut out: Vec<Vec<i128>> = Vec::new();
    let mut p: usize = 0;
    while p < n
        invariant
            p <= n,
            rr < n,
            cc < n,
            n == m@.len(),
            mv == mat_view(m@),
            mat_wf(mv, n as int),
            out@.len() == if p <= rr {
                p as int
            } else {
                p - 1
            },
            forall|x: int| 0 <= x < out@.len() ==> (#[trigger] out@[x])@.len() == n - 1,
            forall|x: int, y: int|
                0 <= x < out@.len() && 0 <= y < n - 1 ==> #[trigger] minor_rc(
                    mv,
                    rr as int,
                    cc as int,
                )[x][y] == out@[x]@[y] as int,
        decreases n - p,
    {
        if p != rr {
            let mut row: Vec<i128> = Vec::new();
            let mut c: usize = 0;
            while c < n
                invariant
                    c <= n,
                    p < n,
                    p != rr,
                    rr < n,
                    cc < n,
                    n == m@.len(),
                    mv == mat_view(m@),
                    mat_wf(mv, n as int),
                    row@.len() == if c <= cc {
                        c as int
                    } else {
                        c - 1
                    },
                    forall|y: int|
                        0 <= y < row@.len() ==> #[trigger] row@[y] as int == mv[p as int][if y
                            < cc {
                            y
                        } else {
                            y + 1
                        }],
                decreases n - c,
            {
                proof {
                    assert(mv[p as int] == m@[p as int]@.map_values(|x: i128| x as int));
                    assert(m@[p as int]@.len() == n);
                }
                if c != cc {
                    row.push(m[p][c]);
                }
                c = c + 1;
            }
            out.push(row);
        }
        p = p + 1;
    }
    proof {
        assert(mat_view(out@) =~~= minor_rc(mv, rr as int, cc as int));
    }
    out
}

/// A copy of the square matrix with column `jj` replaced by `b`.
fn replace_col(a: &Vec<Vec<i128>>, b: &Vec<i128>, jj: usize) -> (out: Vec<Vec<i128>>)
    requires
        a@.len() == b@.len(),
        forall|p: int| 0 <= p < a@.len() ==> (#[trigger] a@[p])@.len() == a@.len(),
        jj < a@.len(),
    ensures
        out@.len() == a@.len(),
        forall|p: int| 0 <= p < out@.len() ==> (#[trigger] out@[p])@.len() == a@.len(),
        forall|p: int, q: int|
            0 <= p < out@.len() && 0 <= q < a@.len() && q != jj ==> #[trigger] out@[p]@[q]
                == a@[p]@[q],
        forall|p: int| 0 <= p < out@.len() ==> #[trigger] out@[p]@[jj as int] == b@[p],
{
    let n = a.len();
    let mut out: Vec<Vec<i128>> = Vec::new();
    let mut p: usize = 0;
    while p < n
        invariant
            p <= n,
            jj < n,
            n == a@.len(),
            n == b@.len(),
            forall|x: int| 0 <= x < a@.len() ==> (#[trigger] a@[x])@.len() == n,
            out@.len() == p,
            forall|x: int| 0 <= x < p ==> (#[trigger] out@[x])@.len() == n,
            forall|x: int, y: int|
                0 <= x < p && 0 <= y < n && y != jj ==> #[trigger] out@[x]@[y] == a@[x]@[y],
            forall|x: int| 0 <= x < p ==> #[trigger] out@[x]@[jj as int] == b@[x],
        decreases n - p,
    {
        let mut row: Vec<i128> = Vec::new();
        let mut c: usize = 0;
        while c < n
            invariant
                c <= n,
                p < n,
                jj < n,
                n == a@.len(),
                n == b@.len(),
                forall|x: int| 0 <= x < a@.len() ==> (#[trigger] a@[x])@.len() == n,
                row@.len() == c,
                forall|y: int| 0 <= y < c && y != jj ==> #[trigger] row@[y] == a@[p as int]@[y],
                forall|y: int| 0 <= y < c && y == jj ==> #[trigger] row@[y] == b@[p as int],
            decreases n - c,
        {
            if c == jj {
                row.push(b[p]);
            } else {
                row.push(a[p][c]);
            }
            c = c + 1;
        }
        out.push(row);
        p = p + 1;
    }
    out
}

/// Fit the ordinary-least-squares model over the trimmed groups: form
/// the normal equations exactly in integers, solve them by Cramer's
/// rule, and round the intercept and each coefficient half-up to whole
/// nanoseconds.  Returns `None` when the normal matrix is singular
/// (collinear or under-determined data) or when the exact computation
/// leaves the machine range; no partial model is ever returned.
#[verifier::rlimit(100)]
pub fn fit(g: &Vec<(Vec<u32>, Vec<u128>)>, names: &Vec<String>) -> (res: Option<FittedModel>)
    requires
        names@.len() < usize::MAX,
        groups_wf(gview(g@), names@.len() as int),
        sums_bounded(gview(g@), names@.len() as int),
    ensures
        res is Some <==> fit_accepts(gview(g@), names@.len() as int),
        res matches Some(m) ==> {
            let gv = gview(g@);
            let k = names@.len() as int;
            let dof = rows_of(gv) - (k + 1);
            &&& m.base == round_ratio(det(mat_aj(gv, k, 0)), det(mat_a(gv, k)))
            &&& m.parameters@.len() == k
            &&& forall|j: int| 0 <= j < k ==> (#[trigger] m.parameters@[j]).0@ == names@[j]@
            &&& forall|j: int|
                0 <= j < k ==> (#[trigger] m.parameters@[j]).1 == round_ratio(
                    det(mat_aj(gv, k, j + 1)),
                    det(mat_a(gv, k)),
                )
            &&& m.errors@.len() == k
            &&& (dof <= 0 ==> forall|j: int| 0 <= j < k ==> (#[trigger] m.errors@[j]) == 0)
            &&& (dof > 0 ==> forall|j: int|
                0 <= j < k ==> {
                    if se_num(gv, k, j) >= 0 && se_den(gv, k) > 0 {
                        crate::stats::is_isqrt(
                            se_num(gv, k, j) / se_den(gv, k),
                            (#[trigger] m.errors@[j]) as int,
                        )
                    } else {
                        m.errors@[j] == 0
                    }
                })
        },
{
    let ghost gv = gview(g@);
    let k = names.len();
    let ghost ki = k as int;
    let a = build_a(g, k);
    let b = build_b(g, k);
    let ghost aa = mat_a(gv, ki);
    let d_opt = det_exec(&a);
    let dd: i128;
    match d_opt {
        Some(v) => {
            dd = v;
        },
        None => {
            proof {
                if fit_accepts(gv, ki) {
                    assert(det_fits(mat_a(gv, ki)));
                }
                assert(!fit_accepts(gview(g@), names@.len() as int));
            }
            return None;
        },
    }
    proof {
        crate::linalg::lemma_det_in_range(aa);
    }
    if dd == 0 {
        proof {
            assert(!fit_accepts(gview(g@), names@.len() as int));
        }
        return None;
    }
    // Cramer numerators and rounded coefficients, intercept first.
    let mut nvv: Vec<i128> = Vec::new();
    let mut coeffs: Vec<u128> = Vec::new();
    let mut jj: usize = 0;
    while jj < k + 1
        invariant
            jj <= k + 1,
            k < usize::MAX,
            names@.len() == k,
            ki == k as int,
            gv == gview(g@),
            aa == mat_a(gv, ki),
            groups_wf(gv, ki),
            sums_bounded(gv, ki),
            a@.len() == k + 1,
            b@.len() == k + 1,
            mat_view(a@) == aa,
            mat_wf(aa, ki + 1),
            forall|p: int| 0 <= p < k + 1 ==> #[trigger] b@[p] as int == b_sum(gv, p),
            forall|p: int| 0 <= p < k + 1 ==> 0 <= #[trigger] b@[p],
            dd as int == det(aa),
            dd != 0,
            in_range(dd as int),
            det_fits(aa),
            nvv@.len() == jj,
            coeffs@.len() == jj,
            forall|p: int| 0 <= p < jj ==> #[trigger] nvv@[p] as int == det(mat_aj(gv, ki, p)),
            forall|p: int| 0 <= p < jj ==> in_range(#[trigger] nvv@[p] as int),
            forall|p: int| 0 <= p < jj ==> det_fits(#[trigger] mat_aj(gv, ki, p)),
            forall|p: int| 0 <= p < jj ==> round_fits(det(#[trigger] mat_aj(gv, ki, p)), det(aa)),
            forall|p: int|
                0 <= p < jj ==> #[trigger] coeffs@[p] == round_ratio(
                    det(mat_aj(gv, ki, p)),
                    det(aa),
                ),
        decreases k + 1 - jj,
    {
        proof {
            assert forall|p: int| 0 <= p < a@.len() implies (#[trigger] a@[p])@.len()
                == a@.len() by {
                assert(mat_view(a@)[p] == a@[p]@.map_values(|x: i128| x as int));
                assert(aa[p].len() == ki + 1);
            }
        }
        let ajm = replace_col(&a, &b, jj);
        proof {
            assert forall|p: int, q: int|
                0 <= p < ki + 1 && 0 <= q < ki + 1 implies #[trigger] mat_view(ajm@)[p][q]
                == mat_aj(gv, ki, jj as int)[p][q] by {
                if q == jj {
                    assert(ajm@[p]@[q] == b@[p]);
                } else {
                    assert(ajm@[p]@[q] == a@[p]@[q]);
                    assert(a@[p]@[q] as int == aa[p][q]);
                }
            }
            assert(mat_view(ajm@) =~~= mat_aj(gv, ki, jj as int));
            assert forall|p: int, q: int|
                0 <= p < ki + 1 && 0 <= q < ki + 1 implies in_range(
                #[trigger] mat_aj(gv, ki, jj as int)[p][q]) by {
                lemma_a_sum_nonneg(gv, p, q);
            }
        }
        let nj_opt = det_exec(&ajm);
        let nj: i128;
        match nj_opt {
            Some(v) => {
                nj = v;
            },
            None => {
                proof {
                    if fit_accepts(gv, ki) {
                        assert(det_fits(mat_a(gv, ki)));
                        assert(0 <= jj as int <= ki);
                        assert(det_fits(mat_aj(gv, ki, jj as int)));
                    }
                    assert(!fit_accepts(gview(g@), names@.len() as int));
                }
                return None;
            },
        }
        proof {
            crate::linalg::lemma_det_in_range(mat_aj(gv, ki, jj as int));
        }
        let cj_opt = round_half(nj, dd);
        let cj: u128;
        match cj_opt {
            Some(v) => {
                cj = v;
            },
            None => {
                proof {
                    if fit_accepts(gv, ki) {
                        assert(round_fits(det(mat_aj(gv, ki, jj as int)), det(mat_a(gv, ki))));
                    }
                    assert(!fit_accepts(gview(g@), names@.len() as int));
                }
                return None;
            },
        }
        nvv.push(nj);
        coeffs.push(cj);
        jj = jj + 1;
    }
    // Degrees of freedom.
    proof {
        assert(a@[0]@[0] as int == aa[0][0]);
        assert(aa[0][0] == a_sum(gv, 0, 0));
        lemma_a_sum_nonneg(gv, 0, 0);
    }
    let rows: i128 = a[0][0];
    let dofi: i128 = rows - (k as i128 + 1);
    let mut errors: Vec<u128> = Vec::new();
    if dofi > 0 {
        let rss: i128;
        match rss_exec(g, &nvv, dd, k) {
            Some(v) => {
                rss = v;
            },
            None => {
                proof {
                    assert(nview(nvv@) =~~= cramer_nv(gv, ki));
                    if fit_accepts(gv, ki) {
                        assert(se_fits(gv, ki));
                        assert(rows_of(gv) - (ki + 1) > 0);
                        assert(rss_fits(gv, cramer_nv(gv, ki), det(mat_a(gv, ki)), ki));
                    }
                    assert(!fit_accepts(gview(g@), names@.len() as int));
                }
                return None;
            },
        }
        proof {
            assert(nview(nvv@) =~~= cramer_nv(gv, ki));
        }
        let ghost dof_g = rows_of(gv) - (ki + 1);
        let ghost dd_g = det(mat_a(gv, ki));
        let u1: i128;
        match dofi.checked_mul(dd) {
            Some(v) => if v == i128::MIN {
                proof {
                    assert(!in_range(dof_g * dd_g));
                    assert(!fit_accepts(gview(g@), names@.len() as int));
                }
                return None;
            } else {
                u1 = v;
            },
            None => {
                proof {
                    assert(!in_range(dof_g * dd_g));
                    assert(!fit_accepts(gview(g@), names@.len() as int));
                }
                return None;
            },
        }
        let u2: i128;
        match u1.checked_mul(dd) {
            Some(v) => if v == i128::MIN {
                proof {
                    assert(!in_range(dof_g * dd_g * dd_g));
                    assert(!fit_accepts(gview(g@), names@.len() as int));
                }
                return None;
            } else {
                u2 = v;
            },
            None => {
                proof {
                    assert(!in_range(dof_g * dd_g * dd_g));
                    assert(!fit_accepts(gview(g@), names@.len() as int));
                }
                return None;
            },
        }
        let u3: i128;
        match u2.checked_mul(dd) {
            Some(v) => if v == i128::MIN {
                proof {
                    assert(!in_range(dof_g * dd_g * dd_g * dd_g));
                    assert(!fit_accepts(gview(g@), names@.len() as int));
                }
                return None;
            } else {
                u3 = v;
            },
            None => {
                proof {
                    assert(!in_range(dof_g * dd_g * dd_g * dd_g));
                    assert(!fit_accepts(gview(g@), names@.len() as int));
                }
                return None;
            },
        }
        proof {
            assert(u3 as int == se_den(gv, ki));
        }
        let mut j2: usize = 0;
        while j2 < k
            invariant
                j2 <= k,
                k < usize::MAX,
                names@.len() == k,
                ki == k as int,
                gv == gview(g@),
                aa == mat_a(gv, ki),
                a@.len() == k + 1,
                mat_view(a@) == aa,
                mat_wf(aa, ki + 1),
                dd as int == det(aa),
                in_range(dd as int),
                rss as int == rss_total(gv, cramer_nv(gv, ki), det(aa), ki),
                in_range(rss as int),
                u3 as int == se_den(gv, ki),
                rows_of(gv) - (ki + 1) > 0,
                dofi as int == rows_of(gv) - (ki + 1),
                errors@.len() == j2,
                forall|p: int| 0 <= p < j2 ==> det_fits(#[trigger] minor_rc(aa, p + 1, p + 1)),
                forall|p: int|
                    0 <= p < j2 ==> in_range(
                        rss_total(gv, cramer_nv(gv, ki), det(aa), ki) * det(
                            #[trigger] minor_rc(aa, p + 1, p + 1),
                        ),
                    ),
                forall|p: int|
                    0 <= p < j2 ==> {
                        if se_num(gv, ki, p) >= 0 && se_den(gv, ki) > 0 {
                            crate::stats::is_isqrt(
                                se_num(gv, ki, p) / se_den(gv, ki),
                                (#[trigger] errors@[p]) as int,
                            )
                        } else {
                            errors@[p] == 0
                        }
                    },
            decreases k - j2,
        {
            let msub = strike(&a, j2 + 1, j2 + 1);
            let mjj: i128;
            match det_exec(&msub) {
                Some(v) => {
                    mjj = v;
                },
                None => {
                    proof {
                        if fit_accepts(gv, ki) {
                            assert(se_fits(gv, ki));
                            assert(det_fits(minor_rc(mat_a(gv, ki), j2 as int + 1, j2 as int + 1)));
                        }
                        assert(!fit_accepts(gview(g@), names@.len() as int));
                    }
                    return None;
                },
            }
            let tj: i128;
            match rss.checked_mul(mjj) {
                Some(v) => if v == i128::MIN {
                    proof {
                        if fit_accepts(gv, ki) {
                            assert(se_fits(gv, ki));
                            assert(in_range(
                                rss_total(gv, cramer_nv(gv, ki), det(mat_a(gv, ki)), ki) * det(
                                    minor_rc(mat_a(gv, ki), j2 as int + 1, j2 as int + 1),
                                ),
                            ));
                        }
                        assert(!fit_accepts(gview(g@), names@.len() as int));
                    }
                    return None;
                } else {
                    tj = v;
                },
                None => {
                    proof {
                        if fit_accepts(gv, ki) {
                            assert(se_fits(gv, ki));
                            assert(in_range(
                                rss_total(gv, cramer_nv(gv, ki), det(mat_a(gv, ki)), ki) * det(
                                    minor_rc(mat_a(gv, ki), j2 as int + 1, j2 as int + 1),
                                ),
                            ));
                        }
                        assert(!fit_accepts(gview(g@), names@.len() as int));
                    }
                    return None;
                },
            }
            proof {
                assert(tj as int == se_num(gv, ki, j2 as int));
            }
            let se: u128;
            if tj < 0 || u3 <= 0 {
                se = 0;
            } else {
                let q: u128 = div_nonneg(tj, u3);
                proof {
                    assert(q as int == se_num(gv, ki, j2 as int) / se_den(gv, ki));
                }
                se = crate::stats::isqrt(q);
            }
            errors.push(se);
            j2 = j2 + 1;
        }
    } else {
        let mut j2: usize = 0;
        while j2 < k
            invariant
                j2 <= k,
                errors@.len() == j2,
                forall|p: int| 0 <= p < j2 ==> (#[trigger] errors@[p]) == 0,
            decreases k - j2,
        {
            errors.push(0);
            j2 = j2 + 1;
        }
    }
    // Named coefficients, in the given parameter order.
    let base: u128 = coeffs[0];
    let mut parameters: Vec<(String, u128)> = Vec::new();
    let mut j3: usize = 0;
    while j3 < k
        invariant
            j3 <= k,
            k < usize::MAX,
            ki == k as int,
            gv == gview(g@),
            aa == mat_a(gv, ki),
            names@.len() == k,
            coeffs@.len() == k + 1,
            forall|p: int|
                0 <= p < k + 1 ==> #[trigger] coeffs@[p] == round_ratio(
                    det(mat_aj(gv, ki, p)),
                    det(aa),
                ),
            parameters@.len() == j3,
            forall|p: int| 0 <= p < j3 ==> (#[trigger] parameters@[p]).0@ == names@[p]@,
            forall|p: int|
                0 <= p < j3 ==> (#[trigger] parameters@[p]).1 == round_ratio(
                    det(mat_aj(gv, ki, p + 1)),
                    det(aa),
                ),
        decreases k - j3,
    {
        parameters.push((names[j3].clone(), coeffs[j3 + 1]));
        j3 = j3 + 1;
    }
    Some(FittedModel { base, parameters, errors })
}


/// Every duration equals `c0 + c1 * x` for its group's single parameter:
/// perfectly linear, zero-noise data.
pub open spec fn linear_data(g: Seq<(Seq<u32>, Seq<u128>)>, c0: int, c1: int) -> bool {
    forall|i: int, t: int|
        0 <= i < g.len() && 0 <= t < g[i].1.len() ==> (#[trigger] g[i].1[t]) == c0 + c1 * xval(
            g[i].0,
            1,
        )
}

proof fn lemma_sum_linear(vs: Seq<u128>, x: int, c0: int, c1: int)
    requires
        forall|t: int| 0 <= t < vs.len() ==> (#[trigger] vs[t]) == c0 + c1 * x,
    ensures
        sum_of(vs) == vs.len() * (c0 + c1 * x),
    decreases vs.len(),
{
    let y = c0 + c1 * x;
    if vs.len() == 0 {
        assert(0 * y == 0) by (nonlinear_arith);
    } else {
        assert(forall|t: int|
            0 <= t < vs.drop_last().len() ==> (#[trigger] vs.drop_last()[t]) == c0 + c1 * x);
        lemma_sum_linear(vs.drop_last(), x, c0, c1);
        assert(vs.last() == y);
        assert((vs.len() - 1) * y + y == vs.len() * y) by (nonlinear_arith);
    }
}

proof fn lemma_a_sum_sym(g: Seq<(Seq<u32>, Seq<u128>)>, i: int, j: int)
    ensures
        a_sum(g, i, j) == a_sum(g, j, i),
    decreases g.len(),
{
    if g.len() > 0 {
        lemma_a_sum_sym(g.drop_last(), i, j);
        let e = g.last();
        assert(e.1.len() * xval(e.0, i) * xval(e.0, j) == e.1.len() * xval(e.0, j) * xval(e.0, i))
            by (nonlinear_arith);
    }
}

proof fn lemma_b_linear(g: Seq<(Seq<u32>, Seq<u128>)>, c0: int, c1: int, i: int)
    requires
        linear_data(g, c0, c1),
        0 <= i,
    ensures
        b_sum(g, i) == c0 * a_sum(g, i, 0) + c1 * a_sum(g, i, 1),
    decreases g.len(),
{
    if g.len() == 0 {
        assert(c0 * 0 + c1 * 0 == 0) by (nonlinear_arith);
    } else {
        assert(linear_data(g.drop_last(), c0, c1)) by {
            assert forall|i2: int, t: int|
                0 <= i2 < g.drop_last().len() && 0 <= t < g.drop_last()[i2].1.len() implies (
            #[trigger] g.drop_last()[i2].1[t]) == c0 + c1 * xval(g.drop_last()[i2].0, 1) by {
                assert(g.drop_last()[i2] == g[i2]);
                assert(g[i2].1[t] == c0 + c1 * xval(g[i2].0, 1));
            }
        }
        lemma_b_linear(g.drop_last(), c0, c1, i);
        let e = g.last();
        let x = xval(e.0, 1);
        assert(forall|t: int| 0 <= t < e.1.len() ==> (#[trigger] e.1[t]) == c0 + c1 * x) by {
            assert(forall|t: int|
                0 <= t < g[g.len() - 1].1.len() ==> (#[trigger] g[g.len() - 1].1[t]) == c0 + c1
                    * xval(g[g.len() - 1].0, 1));
        }
        lemma_sum_linear(e.1, x, c0, c1);
        let xi = xval(e.0, i);
        let li = e.1.len() as int;
        assert(xval(e.0, 0) == 1);
        assert(xi * (li * (c0 + c1 * x)) == c0 * (li * xi * 1) + c1 * (li * xi * x))
            by (nonlinear_arith);
        assert(b_sum(g, i) == b_sum(g.drop_last(), i) + xi * sum_of(e.1));
        assert(a_sum(g, i, 0) == a_sum(g.drop_last(), i, 0) + li * xi * xval(e.0, 0));
        assert(a_sum(g, i, 1) == a_sum(g.drop_last(), i, 1) + li * xi * x);
        assert(c0 * (a_sum(g.drop_last(), i, 0) + li * xi * 1) == c0 * a_sum(g.drop_last(), i, 0)
            + c0 * (li * xi * 1)) by (nonlinear_arith);
        assert(c1 * (a_sum(g.drop_last(), i, 1) + li * xi * x) == c1 * a_sum(g.drop_last(), i, 1)
            + c1 * (li * xi * x)) by (nonlinear_arith);
    }
}

/// The determinant of a two-by-two matrix, spelled out.
proof fn lemma_det2(m: Seq<Seq<int>>)
    requires
        m.len() == 2,
        m[0].len() == 2,
        m[1].len() == 2,
    ensures
        det(m) == m[0][0] * m[1][1] - m[1][0] * m[0][1],
{
    let m0 = minor_rc(m, 0, 0);
    let m1 = minor_rc(m, 1, 0);
    m.remove_ensures(0);
    m.remove_ensures(1);
    assert(m0.len() == 1);
    assert(m1.len() == 1);
    assert(m0[0] == m[1].remove(0));
    assert(m1[0] == m[0].remove(0));
    m[1].remove_ensures(0);
    m[0].remove_ensures(0);
    assert(m0[0].len() == 1);
    assert(m0[0][0] == m[1][1]);
    assert(m1[0].len() == 1);
    assert(m1[0][0] == m[0][1]);
    assert(minor_rc(m0, 0, 0).len() == 0);
    assert(minor_rc(m1, 0, 0).len() == 0);
    assert(det(minor_rc(m0, 0, 0)) == 1);
    assert(det(minor_rc(m1, 0, 0)) == 1);
    assert(det_sum(m0, 0) == 0);
    assert(det_sum(m1, 0) == 0);
    assert(det_sum(m0, 1) == det_sum(m0, 0) + sign(0) * m0[0][0] * det(minor_rc(m0, 0, 0)));
    assert(det_sum(m1, 1) == det_sum(m1, 0) + sign(0) * m1[0][0] * det(minor_rc(m1, 0, 0)));
    assert(det(m0) == det_sum(m0, 1));
    assert(det(m1) == det_sum(m1, 1));
    assert(1 * m[1][1] * 1 == m[1][1]) by (nonlinear_arith);
    assert(1 * m[0][1] * 1 == m[0][1]) by (nonlinear_arith);
    assert(det(m) == det_sum(m, 2));
    assert(det_sum(m, 0) == 0);
    assert(det_sum(m, 2) == det_sum(m, 1) + sign(1) * m[1][0] * det(m1));
    assert(det_sum(m, 1) == det_sum(m, 0) + sign(0) * m[0][0] * det(m0));
    assert(1 * m[0][0] * m[1][1] == m[0][0] * m[1][1]) by (nonlinear_arith);
    assert((-1) * m[1][0] * m[0][1] == -(m[1][0] * m[0][1])) by (nonlinear_arith);
}

/// Rounding an exact multiple of the denominator returns the factor.
proof fn lemma_round_exact(c: int, d: int)
    requires
        0 <= c,
        d != 0,
    ensures
        round_ratio(c * d, d) == c,
{
    let n = c * d;
    let n2 = if d < 0 {
        -n
    } else {
        n
    };
    let d2 = if d < 0 {
        -d
    } else {
        d
    };
    assert(n2 == c * d2) by (nonlinear_arith)
        requires
            n == c * d,
            n2 == if d < 0 {
                -n
            } else {
                n
            },
            d2 == if d < 0 {
                -d
            } else {
                d
            },
    ;
    assert(d2 > 0);
    assert(2 * n2 + d2 == c * (2 * d2) + d2) by (nonlinear_arith)
        requires
            n2 == c * d2,
    ;
    assert(2 * n2 + d2 > 0) by (nonlinear_arith)
        requires
            n2 == c * d2,
            c >= 0,
            d2 > 0,
    ;
    vstd::arithmetic::div_mod::lemma_fundamental_div_mod_converse(2 * n2 + d2, 2 * d2, c, d2);
}

/// Regression recovery for a single parameter: on perfectly linear,
/// zero-noise data `duration = c0 + c1 * x`, the fitted intercept and
/// coefficient are exactly the generating constants — the Cramer
/// numerators are exact multiples of the determinant, and rounding
/// returns the factors unchanged.
pub proof fn lemma_linear_recovery(g: Seq<(Seq<u32>, Seq<u128>)>, c0: int, c1: int)
    requires
        linear_data(g, c0, c1),
        0 <= c0,
        0 <= c1,
        det(mat_a(g, 1)) != 0,
    ensures
        det(mat_aj(g, 1, 0)) == c0 * det(mat_a(g, 1)),
        det(mat_aj(g, 1, 1)) == c1 * det(mat_a(g, 1)),
        round_ratio(det(mat_aj(g, 1, 0)), det(mat_a(g, 1))) == c0,
        round_ratio(det(mat_aj(g, 1, 1)), det(mat_a(g, 1))) == c1,
{
    let aa = mat_a(g, 1);
    let a0 = mat_aj(g, 1, 0);
    let a1 = mat_aj(g, 1, 1);
    lemma_det2(aa);
    lemma_det2(a0);
    lemma_det2(a1);
    lemma_a_sum_sym(g, 0, 1);
    lemma_b_linear(g, c0, c1, 0);
    lemma_b_linear(g, c0, c1, 1);
    let s00 = a_sum(g, 0, 0);
    let s01 = a_sum(g, 0, 1);
    let s11 = a_sum(g, 1, 1);
    assert(aa[0][0] == s00 && aa[0][1] == s01 && aa[1][0] == a_sum(g, 1, 0) && aa[1][1] == s11);
    assert(a0[0][0] == b_sum(g, 0) && a0[0][1] == s01 && a0[1][0] == b_sum(g, 1) && a0[1][1]
        == s11);
    assert(a1[0][0] == s00 && a1[0][1] == b_sum(g, 0) && a1[1][0] == a_sum(g, 1, 0) && a1[1][1]
        == b_sum(g, 1));
    assert(det(aa) == s00 * s11 - s01 * s01);
    assert(det(a0) == (c0 * s00 + c1 * s01) * s11 - (c0 * s01 + c1 * s11) * s01);
    assert(det(a1) == s00 * (c0 * s01 + c1 * s11) - s01 * (c0 * s00 + c1 * s01));
    assert(det(a0) == c0 * det(aa)) by (nonlinear_arith)
        requires
            det(a0) == (c0 * s00 + c1 * s01) * s11 - (c0 * s01 + c1 * s11) * s01,
            det(aa) == s00 * s11 - s01 * s01,
    ;
    assert(det(a1) == c1 * det(aa)) by (nonlinear_arith)
        requires
            det(a1) == s00 * (c0 * s01 + c1 * s11) - s01 * (c0 * s00 + c1 * s01),
            det(aa) == s00 * s11 - s01 * s01,
    ;
    lemma_round_exact(c0, det(aa));
    lemma_round_exact(c1, det(aa));
}


} // verus!
