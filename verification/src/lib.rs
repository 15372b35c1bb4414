//! Turns repeated timing measurements of a parameterized operation into a
//! linear cost model (`time ~= base + c1 * p1 + ... + ck * pk`) plus
//! per-configuration dispersion statistics, and renders a plain-text report.
//!
//! The pipeline groups the raw samples by parameter vector, discards the
//! lowest and highest quartile of each group, fits an ordinary
//! least-squares model over the surviving rows by an exact integer
//! Cramer solve, and computes an integer mean and population standard
//! deviation per group.

use vstd::prelude::*;

pub mod aggregate;
pub mod fit;
pub mod linalg;
pub mod numfmt;
pub mod report;
pub mod stats;

use crate::aggregate::{gview, is_grouping, keys_of, uniform_shape};
use crate::fit::{fit, fit_accepts, mat_a, mat_aj, round_ratio, rows_of, se_den, se_num,
    sums_bounded};
use crate::linalg::det;
use crate::stats::{dispersion, is_isqrt, mean_of, ssd_of, sum_of};

verus! {

/// One raw measurement: the ordered (parameter-name, value) pairs and the
/// observed duration in nanoseconds.
pub type BenchmarkResults = (Vec<(String, u32)>, u128);

/// The complete result of one analysis run: the fitted model, the
/// per-configuration dispersion statistics in ascending key order, and
/// the ordered parameter names.
pub struct Analysis {
    pub base: u128,
    pub parameters: Vec<(String, u128)>,
    pub value_dists: Vec<(Vec<u32>, u128, u128)>,
    pub params: Vec<String>,
    pub errors: Vec<u128>,
}

/// Machine limits on the input: every sum the analysis forms — group
/// sums, squared deviations, and normal-equation entries — fits its
/// integer type.  This bounds the inputs only as far as the machine
/// forces it; the mathematics is unrestricted.
pub open spec fn from_results_bounded(r: Seq<BenchmarkResults>) -> bool {
    forall|g: Seq<(Seq<u32>, Seq<u128>)>|
        #[trigger] is_grouping(r, g) ==> {
            &&& sums_bounded(g, r[0].0@.len() as int)
            &&& forall|i: int| 0 <= i < g.len() ==> sum_of((#[trigger] g[i]).1) <= u128::MAX
            &&& forall|i: int| 0 <= i < g.len() ==> ssd_of((#[trigger] g[i]).1) <= u128::MAX
        }
}

/// The fields of a produced analysis, stated over the grouping `g` of
/// the input `r`: names from the first sample, one dispersion stat per
/// group, and the exactly rounded Cramer solution of the normal
/// equations with its floored standard errors.
pub open spec fn from_results_fields(
    r: Seq<BenchmarkResults>,
    g: Seq<(Seq<u32>, Seq<u128>)>,
    a: Analysis,
) -> bool {
    let k = r[0].0@.len() as int;
    &&& a.params@.len() == k
    &&& forall|j: int| 0 <= j < k ==> (#[trigger] a.params@[j])@ == r[0].0@[j].0@
    &&& a.value_dists@.len() == g.len()
    &&& forall|i: int| 0 <= i < g.len() ==> (#[trigger] a.value_dists@[i]).0@ == g[i].0
    &&& forall|i: int| 0 <= i < g.len() ==> (#[trigger] a.value_dists@[i]).1 == mean_of(g[i].1)
    &&& forall|i: int|
        0 <= i < g.len() ==> is_isqrt(
            ssd_of(g[i].1) / g[i].1.len() as int,
            (#[trigger] a.value_dists@[i]).2 as int,
        )
    &&& a.base == round_ratio(det(mat_aj(g, k, 0)), det(mat_a(g, k)))
    &&& a.parameters@.len() == k
    &&& forall|j: int| 0 <= j < k ==> (#[trigger] a.parameters@[j]).0@ == r[0].0@[j].0@
    &&& forall|j: int|
        0 <= j < k ==> (#[trigger] a.parameters@[j]).1 == round_ratio(
            det(mat_aj(g, k, j + 1)),
            det(mat_a(g, k)),
        )
    &&& a.errors@.len() == k
    &&& (rows_of(g) - (k + 1) <= 0 ==> forall|j: int|
        0 <= j < k ==> (#[trigger] a.errors@[j]) == 0)
    &&& (rows_of(g) - (k + 1) > 0 ==> forall|j: int|
        0 <= j < k ==> {
            if se_num(g, k, j) >= 0 && se_den(g, k) > 0 {
                is_isqrt(se_num(g, k, j) / se_den(g, k), (#[trigger] a.errors@[j]) as int)
            } else {
                a.errors@[j] == 0
            }
        })
}

impl Analysis {
    /// Run the whole analysis: group and quartile-trim the samples, fit
    /// the least-squares model, and compute the per-group dispersion
    /// statistics.  Returns `None` when there are no samples at all, or
    /// when the model cannot be fit — a singular (collinear or
    /// under-determined) normal matrix, or an exact computation leaving
    /// the machine range; never a partial model.  The number of stats
    /// equals the number of distinct parameter vectors in the input.
    pub fn from_results(r: &Vec<BenchmarkResults>) -> (res: Option<Analysis>)
        requires
            uniform_shape(r@),
            r@.len() > 0 ==> r@[0].0@.len() < usize::MAX,
            from_results_bounded(r@),
        ensures
            r@.len() == 0 ==> res is None,
            res matches Some(a) ==> a.value_dists@.len() == keys_of(r@).len(),
            r@.len() > 0 ==> exists|g: Seq<(Seq<u32>, Seq<u128>)>|
                {
                    &&& #[trigger] is_grouping(r@, g)
                    &&& (res is Some <==> fit_accepts(g, r@[0].0@.len() as int))
                    &&& (res matches Some(a) ==> from_results_fields(r@, g, a))
                },
    {
        let agg = crate::aggregate::aggregate(r);
        match agg {
            None => None,
            Some(pair) => {
                let groups = pair.0;
                let names = pair.1;
                let ghost gv = gview(groups@);
                let ghost k = r@[0].0@.len() as int;
                proof {
                    assert(is_grouping(r@, gv));
                    assert(sums_bounded(gv, k));
                    assert forall|i: int|
                        0 <= i < groups@.len() implies (#[trigger] groups@[i]).1@.len() > 0 by {
                        assert(gv[i].1 == groups@[i].1@);
                        assert(keys_of(r@).contains(gv[i].0));
                        crate::aggregate::lemma_key_has_dur(r@, gv[i].0);
                        crate::aggregate::lemma_trim_len(crate::aggregate::durs_of(r@, gv[i].0));
                    }
                    assert forall|i: int|
                        0 <= i < groups@.len() implies sum_of((#[trigger] groups@[i]).1@)
                        <= u128::MAX by {
                        assert(gv[i].1 == groups@[i].1@);
                    }
                    assert forall|i: int|
                        0 <= i < groups@.len() implies ssd_of((#[trigger] groups@[i]).1@)
                        <= u128::MAX by {
                        assert(gv[i].1 == groups@[i].1@);
                    }
                    assert(crate::fit::groups_wf(gv, k)) by {
                        assert forall|i: int|
                            0 <= i < gv.len() implies (#[trigger] gv[i]).0.len() == k by {
                            assert(gv[i].0 == groups@[i].0@);
                        }
                        assert forall|i: int|
                            0 <= i < gv.len() implies (#[trigger] gv[i]).1.len() > 0 by {
                            assert(gv[i].1 == groups@[i].1@);
                        }
                    }
                }
                let dists = dispersion(&groups);
                let fitted = fit(&groups, &names);
                match fitted {
                    None => {
                        proof {
                            assert(!fit_accepts(gv, k));
                        }
                        None
                    },
                    Some(m) => {
                        let a = Analysis {
                            base: m.base,
                            parameters: m.parameters,
                            value_dists: dists,
                            params: names,
                            errors: m.errors,
                        };
                        proof {
                            assert(fit_accepts(gv, k));
                            assert(from_results_fields(r@, gv, a));
                        }
                        Some(a)
                    },
                }
            },
        }
    }
}

} // verus!
