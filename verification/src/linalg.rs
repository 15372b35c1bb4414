//! Exact integer determinants by cofactor expansion, with machine-range
//! tracking: every arithmetic step is checked, and a spec-level predicate
//! says precisely when the whole computation stays within `i128`.

use vstd::prelude::*;

verus! {

/// `x` is representable as an `i128` whose negation also is (the extreme
/// negative value is excluded so that negation is always safe).
pub open spec fn in_range(x: int) -> bool {
    -(i128::MAX as int) <= x <= i128::MAX as int
}

/// A square matrix of dimension `n` whose entries are all `in_range`.
pub open spec fn mat_wf(m: Seq<Seq<int>>, n: int) -> bool {
    &&& m.len() == n
    &&& forall|i: int| 0 <= i < n ==> (#[trigger] m[i]).len() == n
    &&& forall|i: int, j: int| 0 <= i < n && 0 <= j < n ==> in_range(#[trigger] m[i][j])
}

/// The matrix with row `rr` and column `cc` struck out.
pub open spec fn minor_rc(m: Seq<Seq<int>>, rr: int, cc: int) -> Seq<Seq<int>> {
    m.remove(rr).map_values(|row: Seq<int>| row.remove(cc))
}

/// The cofactor sign of row `i`.
pub open spec fn sign(i: int) -> int {
    if i % 2 == 0 {
        1
    } else {
        -1
    }
}

/// Determinant by Laplace expansion along the first column; the empty
/// matrix has determinant one.
pub open spec fn det(m: Seq<Seq<int>>) -> int
    decreases m.len(), 1int, 0int,
{
    if m.len() == 0 {
        1
    } else {
        det_sum(m, m.len() as int)
    }
}

/// Partial cofactor sum over the first `t` rows.
pub open spec fn det_sum(m: Seq<Seq<int>>, t: int) -> int
    decreases m.len(), 0int, t,
{
    if t < 1 || m.len() < t {
        0
    } else {
        det_sum(m, t - 1) + sign(t - 1) * m[t - 1][0] * det(minor_rc(m, t - 1, 0))
    }
}

/// The whole determinant computation stays within the `i128` range.
pub open spec fn det_fits(m: Seq<Seq<int>>) -> bool
    decreases m.len(), 1int, 0int,
{
    m.len() == 0 || det_sum_fits(m, m.len() as int)
}

/// Every intermediate value met while summing the first `t` cofactor
/// terms stays within the `i128` range.
pub open spec fn det_sum_fits(m: Seq<Seq<int>>, t: int) -> bool
    decreases m.len(), 0int, t,
{
    t < 1 || m.len() < t || {
        &&& det_sum_fits(m, t - 1)
        &&& det_fits(minor_rc(m, t - 1, 0))
        &&& in_range(m[t - 1][0] * det(minor_rc(m, t - 1, 0)))
        &&& in_range(det_sum(m, t))
    }
}

/// A determinant whose computation fits is itself in range.
pub proof fn lemma_det_in_range(m: Seq<Seq<int>>)
    requires
        det_fits(m),
    ensures
        in_range(det(m)),
{
    if m.len() > 0 {
        assert(det_sum_fits(m, m.len() as int));
        assert(in_range(det_sum(m, m.len() as int)));
    }
}

pub proof fn lemma_det_sum_fits_mono(m: Seq<Seq<int>>, t1: int, t2: int)
    requires
        0 <= t1 <= t2 <= m.len(),
        det_sum_fits(m, t2),
    ensures
        det_sum_fits(m, t1),
    decreases t2 - t1,
{
    if t1 < t2 {
        assert(det_sum_fits(m, t2 - 1));
        lemma_det_sum_fits_mono(m, t1, t2 - 1);
    }
}

/// Shape and entries of a struck-out matrix.
pub proof fn lemma_minor_entries(m: Seq<Seq<int>>, n: int, rr: int, cc: int)
    requires
        mat_wf(m, n),
        n >= 1,
        0 <= rr < n,
        0 <= cc < n,
    ensures
        mat_wf(minor_rc(m, rr, cc), n - 1),
        forall|p: int, q: int|
            0 <= p < n - 1 && 0 <= q < n - 1 ==> #[trigger] minor_rc(m, rr, cc)[p][q] == m[if p < rr {
                p
            } else {
                p + 1
            }][if q < cc {
                q
            } else {
                q + 1
            }],
{
    let mm = minor_rc(m, rr, cc);
    m.remove_ensures(rr);
    assert(mm.len() == n - 1);
    assert forall|p: int, q: int| 0 <= p < n - 1 && 0 <= q < n - 1 implies #[trigger] mm[p][q]
        == m[if p < rr {
        p
    } else {
        p + 1
    }][if q < cc {
        q
    } else {
        q + 1
    }] by {
        let row = m.remove(rr)[p];
        assert(mm[p] == row.remove(cc));
        assert(row == m[if p < rr {
            p
        } else {
            p + 1
        }]);
        row.remove_ensures(cc);
    }
    assert forall|p: int| 0 <= p < n - 1 implies (#[trigger] mm[p]).len() == n - 1 by {
        let row = m.remove(rr)[p];
        assert(mm[p] == row.remove(cc));
        row.remove_ensures(cc);
    }
}

/// Checked addition that also rules out the extreme negative value.
fn cadd(a: i128, b: i128) -> (r: Option<i128>)
    ensures
        r is Some <==> in_range(a + b),
        r matches Some(v) ==> v == a + b,
{
    match a.checked_add(b) {
        Some(v) => if v == i128::MIN {
            None
        } else {
            Some(v)
        },
        None => None,
    }
}

/// Checked multiplication that also rules out the extreme negative value.
fn cmul(a: i128, b: i128) -> (r: Option<i128>)
    ensures
        r is Some <==> in_range(a * b),
        r matches Some(v) ==> v == a * b,
{
    match a.checked_mul(b) {
        Some(v) => if v == i128::MIN {
            None
        } else {
            Some(v)
        },
        None => None,
    }
}

/// Spec-level picture of an `i128` matrix.
pub open spec fn mat_view(m: Seq<Vec<i128>>) -> Seq<Seq<int>> {
    m.map_values(|row: Vec<i128>| row@.map_values(|x: i128| x as int))
}

/// Compute the determinant, or report that some intermediate value left
/// the `i128` range.
pub fn det_exec(m: &Vec<Vec<i128>>) -> (r: Option<i128>)
    requires
        mat_wf(mat_view(m@), m@.len() as int),
    ensures
        r is Some <==> det_fits(mat_view(m@)),
        r matches Some(v) ==> v == det(mat_view(m@)),
    decreases m@.len(),
{
    let ghost mv = mat_view(m@);
    let n = m.len();
    if n == 0 {
        return Some(1);
    }
    let mut acc: i128 = 0;
    let mut i: usize = 0;
    loop
        invariant
            i <= n,
            n == m@.len(),
            n >= 1,
            mv == mat_view(m@),
            mat_wf(mv, n as int),
            det_sum_fits(mv, i as int),
            acc == det_sum(mv, i as int),
        decreases n - i,
    {
        if i == n {
            return Some(acc);
        }
        proof {
            lemma_minor_entries(mv, n as int, i as int, 0);
        }
        // Strike out row i and the first column.
        let mut sub: Vec<Vec<i128>> = Vec::new();
        let mut rr: usize = 0;
        while rr < n
            invariant
                rr <= n,
                i < n,
                n == m@.len(),
                mv == mat_view(m@),
                mat_wf(mv, n as int),
                sub@.len() == if rr <= i {
                    rr as int
                } else {
                    rr - 1
                },
                forall|p: int|
                    0 <= p < sub@.len() ==> (#[trigger] sub@[p])@.len() == n - 1,
                forall|p: int, q: int|
                    0 <= p < sub@.len() && 0 <= q < n - 1 ==> #[trigger] minor_rc(
                        mv,
                        i as int,
                        0,
                    )[p][q] == sub@[p]@[q] as int,
            decreases n - rr,
        {
            if rr != i {
                let mut row: Vec<i128> = Vec::new();
                let mut c: usize = 1;
                while c < n
                    invariant
                        1 <= c <= n,
                        rr < n,
                        i < n,
                        n == m@.len(),
                        mv == mat_view(m@),
                        mat_wf(mv, n as int),
                        row@.len() == c - 1,
                        forall|q: int| 0 <= q < c - 1 ==> #[trigger] row@[q] as int == mv[rr as int][q + 1],
                    decreases n - c,
                {
                    proof {
                        assert(mv[rr as int] == m@[rr as int]@.map_values(|x: i128| x as int));
                        assert(m@[rr as int]@.len() == n);
                    }
                    row.push(m[rr][c]);
                    c = c + 1;
                }
                sub.push(row);
            }
            rr = rr + 1;
        }
        proof {
            assert(mat_view(sub@) =~~= minor_rc(mv, i as int, 0));
        }
        let d_opt = det_exec(&sub);
        let d: i128;
        match d_opt {
            Some(v) => {
                d = v;
            },
            None => {
                proof {
                    if det_fits(mv) {
                        lemma_det_sum_fits_mono(mv, i as int + 1, n as int);
                    }
                }
                return None;
            },
        }
        proof {
            assert(mv[i as int] == m@[i as int]@.map_values(|x: i128| x as int));
            assert(m@[i as int]@.len() == n);
            assert(m@[i as int]@[0] as int == mv[i as int][0]);
        }
        let first = m[i][0];
        let p_opt = cmul(first, d);
        let p: i128;
        match p_opt {
            Some(v) => {
                p = v;
            },
            None => {
                proof {
                    if det_fits(mv) {
                        lemma_det_sum_fits_mono(mv, i as int + 1, n as int);
                    }
                }
                return None;
            },
        }
        let term: i128 = if i % 2 == 1 {
            -p
        } else {
            p
        };
        proof {
            let x = mv[i as int][0] * det(minor_rc(mv, i as int, 0));
            assert(p as int == x);
            assert(sign(i as int) * mv[i as int][0] * det(minor_rc(mv, i as int, 0)) == sign(
                i as int,
            ) * (mv[i as int][0] * det(minor_rc(mv, i as int, 0)))) by (nonlinear_arith);
            if i % 2 == 1 {
                assert(sign(i as int) == -1);
                assert(term as int == -x);
            } else {
                assert(sign(i as int) == 1);
                assert(term as int == x);
            }
            assert(term as int == sign(i as int) * (mv[i as int][0] * det(
                minor_rc(mv, i as int, 0),
            ))) by {
                let y = mv[i as int][0] * det(minor_rc(mv, i as int, 0));
                if i % 2 == 1 {
                    assert(sign(i as int) == -1);
                    assert(sign(i as int) * y == (-1) * y);
                    assert((-1) * y == -y) by (nonlinear_arith);
                } else {
                    assert(sign(i as int) == 1);
                    assert(sign(i as int) * y == 1 * y);
                    assert(1 * y == y) by (nonlinear_arith);
                }
            }
        }
        let a_opt = cadd(acc, term);
        match a_opt {
            Some(v) => {
                proof {
                    assert(det_sum(mv, i as int + 1) == det_sum(mv, i as int) + sign(i as int) * mv[i as int][0] * det(minor_rc(mv, i as int, 0)));
                }
                acc = v;
            },
            None => {
                proof {
                    assert(det_sum(mv, i as int + 1) == det_sum(mv, i as int) + sign(i as int) * mv[i as int][0] * det(minor_rc(mv, i as int, 0)));
                    if det_fits(mv) {
                        lemma_det_sum_fits_mono(mv, i as int + 1, n as int);
                    }
                }
                return None;
            },
        }
        i = i + 1;
    }
}

} // verus!
