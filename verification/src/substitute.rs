//! Back substitution: recovering the solution vector from the reduced
//! upper-triangular system.
//!
//! The index ranges are deliberately asymmetric: the last solution entry is
//! copied from the right-hand side, the second-to-last row is never recomputed
//! (its entry keeps the builder's zero), and the sums never read column
//! `n - 1`. This is the traversal that the expected vectors for sizes two,
//! three, and five pin down; a symmetric traversal would fail them.

use vstd::prelude::*;

use crate::eliminate::{red_cell, SolveError};
use crate::rational::{rv_wf, RatV};
use crate::system::Data;

verus! {

broadcast use {
    crate::views::lemma_rvec_view_len,
    crate::views::lemma_rvec_view_index,
    crate::views::lemma_mat_view_len,
    crate::views::lemma_mat_view_index,
};

/// The accumulator of row `i` after the columns from `n - 2` down to `j` have
/// been subtracted: starting from `bi`, each column `jj` contributes
/// `- m[i][jj] * v[jj]`, or `None` when a result leaves the machine range.
pub open spec fn subst_acc(
    m: Seq<Seq<RatV>>,
    v: Seq<RatV>,
    bi: RatV,
    i: int,
    j: int,
    n: int,
) -> Option<RatV>
    decreases n - j,
{
    if j >= n - 1 {
        Some(bi)
    } else {
        match subst_acc(m, v, bi, i, j + 1, n) {
            None => None,
            Some(a) => red_cell(a, m[i][j], v[j]),
        }
    }
}

/// The solution vector after the rows from `n - 3` down to `i` have been
/// solved: each solved row `r` gets `b[r] - sum of m[r][j] * v[j]` over the
/// columns `r + 1 .. n - 2`, reading the entries solved by the rows above it.
pub open spec fn subst_from(
    m: Seq<Seq<RatV>>,
    b: Seq<RatV>,
    v: Seq<RatV>,
    i: int,
    n: int,
) -> Option<Seq<RatV>>
    decreases n - i,
{
    if i >= n - 2 {
        Some(v)
    } else {
        match subst_from(m, b, v, i + 1, n) {
            None => None,
            Some(v1) => match subst_acc(m, v1, b[i], i, i + 1, n) {
                None => None,
                Some(val) => Some(v1.update(i, val)),
            },
        }
    }
}

/// The whole back substitution over the model: `v[n-1]` is copied from the
/// right-hand side, `v[n-2]` keeps its initial value, and the remaining rows
/// are solved from the bottom up.
pub open spec fn subst_spec(m: Seq<Seq<RatV>>, b: Seq<RatV>, v0: Seq<RatV>, n: int) -> Option<
    Seq<RatV>,
> {
    subst_from(m, b, v0.update(n - 1, b[n - 1]), 0, n)
}

/// Once one column of a row's sum fails, the whole sum fails.
proof fn lemma_acc_none(
    m: Seq<Seq<RatV>>,
    v: Seq<RatV>,
    bi: RatV,
    i: int,
    j0: int,
    j: int,
    n: int,
)
    requires
        j0 <= j,
        subst_acc(m, v, bi, i, j, n) is None,
    ensures
        subst_acc(m, v, bi, i, j0, n) is None,
    decreases j - j0,
{
    if j0 < j {
        lemma_acc_none(m, v, bi, i, j0 + 1, j, n);
    }
}

/// Once one row fails, every row below it fails too.
proof fn lemma_subst_none(m: Seq<Seq<RatV>>, b: Seq<RatV>, v: Seq<RatV>, i0: int, i: int, n: int)
    requires
        i0 <= i,
        subst_from(m, b, v, i, n) is None,
    ensures
        subst_from(m, b, v, i0, n) is None,
    decreases i - i0,
{
    if i0 < i {
        lemma_subst_none(m, b, v, i0 + 1, i, n);
    }
}

/// Back substitution, exactly as `subst_spec` describes it: on success the
/// solution vector `v` holds the substituted values and `c` is a copy of `v`;
/// on overflow `v` may be partially filled but `c`, the matrix, the right-hand
/// side, and the permutation log are unchanged.
#[verifier::loop_isolation(false)]
pub fn solve_gauss(data: &mut Data) -> (res: Result<(), SolveError>)
    requires
        old(data).wf(),
    ensures
        final(data).wf(),
        final(data).nsize == old(data).nsize,
        final(data).num_threads == old(data).num_threads,
        final(data).matrix == old(data).matrix,
        final(data).b == old(data).b,
        final(data).swap == old(data).swap,
        match res {
            Ok(()) => {
                &&& subst_spec(
                    old(data).st().m,
                    old(data).st().b,
                    old(data).v.deep_view(),
                    old(data).n(),
                ) == Some(final(data).v.deep_view())
                &&& final(data).c.deep_view() == final(data).v.deep_view()
            },
            Err(SolveError::ArithmeticOverflow) => {
                &&& subst_spec(
                    old(data).st().m,
                    old(data).st().b,
                    old(data).v.deep_view(),
                    old(data).n(),
                ) is None
                &&& final(data).c == old(data).c
            },
            Err(SolveError::SingularMatrix) => false,
        },
{
    let ghost m0 = data.st().m;
    let ghost b0 = data.st().b;
    let n = data.nsize;
    let last = data.b[n - 1];
    data.v.set(n - 1, last);
    let ghost v1 = data.v.deep_view();
    proof {
        assert(v1 =~= old(data).v.deep_view().update(n as int - 1, b0[n as int - 1]));
    }
    let mut ii: usize = n - 2;
    while ii > 0
        invariant
            ii <= n - 2,
            data.wf(),
            data.nsize == n,
            data.num_threads == old(data).num_threads,
            data.matrix == old(data).matrix,
            data.b == old(data).b,
            data.swap == old(data).swap,
            data.c == old(data).c,
            subst_from(m0, b0, v1, ii as int, n as int) == Some(data.v.deep_view()),
        decreases ii,
    {
        let i: usize = ii - 1;
        let ghost vcur = data.v.deep_view();
        let mut acc = data.b[i];
        proof {
            assert(acc@ == b0[i as int]);
            assert(rv_wf(acc@));
        }
        let mut jj: usize = n - 1;
        while jj > i + 1
            invariant
                i + 1 <= jj <= n - 1,
                i < n,
                data.wf(),
                data.nsize == n,
                data.num_threads == old(data).num_threads,
                data.matrix == old(data).matrix,
                data.b == old(data).b,
                data.swap == old(data).swap,
                data.c == old(data).c,
                data.v.deep_view() == vcur,
                rv_wf(acc@),
                subst_acc(m0, vcur, b0[i as int], i as int, jj as int, n as int) == Some(acc@),
            decreases jj,
        {
            let j: usize = jj - 1;
            let piv = data.matrix[i][j];
            let vj = data.v[j];
            proof {
                assert(piv@ == data.st().m[i as int][j as int]);
                assert(piv@ == m0[i as int][j as int]);
                assert(vj@ == vcur[j as int]);
            }
            let pr = match piv.checked_mul(&vj) {
                Some(x) => x,
                None => {
                    proof {
                        assert(subst_acc(m0, vcur, b0[i as int], i as int, j as int, n as int)
                            is None);
                        lemma_acc_none(m0, vcur, b0[i as int], i as int, i as int + 1, j as int,
                            n as int);
                        assert(subst_from(m0, b0, v1, i as int, n as int) is None);
                        lemma_subst_none(m0, b0, v1, 0, i as int, n as int);
                    }
                    return Err(SolveError::ArithmeticOverflow);
                },
            };
            let na = match acc.checked_sub(&pr) {
                Some(x) => x,
                None => {
                    proof {
                        assert(subst_acc(m0, vcur, b0[i as int], i as int, j as int, n as int)
                            is None);
                        lemma_acc_none(m0, vcur, b0[i as int], i as int, i as int + 1, j as int,
                            n as int);
                        assert(subst_from(m0, b0, v1, i as int, n as int) is None);
                        lemma_subst_none(m0, b0, v1, 0, i as int, n as int);
                    }
                    return Err(SolveError::ArithmeticOverflow);
                },
            };
            acc = na;
            jj = jj - 1;
        }
        data.v.set(i, acc);
        proof {
            assert(data.v.deep_view() =~= vcur.update(i as int, acc@));
        }
        ii = ii - 1;
    }
    let ghost vfin = data.v.deep_view();
    let mut k: usize = 0;
    while k < n
        invariant
            k <= n,
            data.wf(),
            data.nsize == n,
            data.num_threads == old(data).num_threads,
            data.matrix == old(data).matrix,
            data.b == old(data).b,
            data.swap == old(data).swap,
            data.v.deep_view() == vfin,
            forall|r: int| 0 <= r < k as int ==> #[trigger] data.c.deep_view()[r] == vfin[r],
        decreases n - k,
    {
        let x = data.v[k];
        data.c.set(k, x);
        k = k + 1;
    }
    proof {
        assert(data.c.deep_view() =~= vfin);
    }
    Ok(())
}

} // verus!