//! Forward elimination with partial pivoting.
//!
//! `pivot` selects and normalizes the pivot row of one elimination step;
//! `compute_gauss` runs the sequential elimination; `compute_gauss_parallel`
//! runs the same steps with the round-robin row schedule of the worker-pool
//! mode. Both eliminators are pinned to the same mathematical recurrence
//! (`gauss_spec`), so their results agree for every worker count.

use vstd::prelude::*;

use crate::rational::{rv_div_ck, rv_eq, rv_mul_ck, rv_one, rv_sub_ck, rv_wf, rv_zero, Rat, RatV};
use crate::system::{perm_wf, st_wf, Data, SysState};

verus! {

broadcast use {
    crate::views::lemma_rvec_view_len,
    crate::views::lemma_rvec_view_index,
    crate::views::lemma_mat_view_len,
    crate::views::lemma_mat_view_index,
};

/// The error that ends a solve: the matrix is singular (no usable pivot in the
/// remaining column), or an exact rational left the machine range.
#[derive(Clone, Copy, Debug, PartialEq, Eq)]
pub enum SolveError {
    SingularMatrix,
    ArithmeticOverflow,
}

/// Outcome of an elimination step (or of the whole elimination) over the
/// model: the new state, a singular matrix, or a value out of machine range.
pub ghost enum StepRes {
    Done(SysState),
    Singular,
    Overflow,
}

/// The first row at or below `r` whose entry in column `i` is non-zero, or `n`
/// when the whole remaining column is zero.
pub open spec fn scan_pivot(m: Seq<Seq<RatV>>, i: int, r: int, n: int) -> int
    decreases n - r,
{
    if r < 0 || r >= n {
        n
    } else if m[r][i].n != 0 {
        r
    } else {
        scan_pivot(m, i, r + 1, n)
    }
}

/// `ra` with its entries from column `i` onward replaced by those of `rb`.
pub open spec fn swap_cols_from(ra: Seq<RatV>, rb: Seq<RatV>, i: int) -> Seq<RatV> {
    Seq::new(ra.len(), |k: int| if k >= i { rb[k] } else { ra[k] })
}

/// The three-way exchange of rows `i` and `r`: the matrix rows from column `i`
/// onward, the right-hand-side entries, and the permutation entries all move
/// together.
pub open spec fn pivot_swap(s: SysState, i: int, r: int) -> SysState {
    SysState {
        m: s.m.update(i, swap_cols_from(s.m[i], s.m[r], i)).update(
            r,
            swap_cols_from(s.m[r], s.m[i], i),
        ),
        b: s.b.update(i, s.b[r]).update(r, s.b[i]),
        swap: s.swap.update(i, s.swap[r]).update(r, s.swap[i]),
    }
}

/// The pivot row normalized: the diagonal becomes one and the entries to its
/// right are divided by the original diagonal value `p`.
pub open spec fn norm_row(row: Seq<RatV>, p: RatV, i: int, n: int) -> Seq<RatV> {
    Seq::new(row.len(), |k: int| {
        if k == i {
            rv_one()
        } else if i < k < n {
            rv_div_ck(row[k], p).unwrap()
        } else {
            row[k]
        }
    })
}

/// Every division of the normalization stays in machine range.
pub open spec fn norm_row_ok(row: Seq<RatV>, p: RatV, i: int, n: int) -> bool {
    forall|k: int| i < k < n ==> (#[trigger] rv_div_ck(row[k], p)) is Some
}

/// Pivot selection for step `i` over the model: scan column `i` from row `i`
/// for a non-zero entry (singular when none exists), exchange rows when the
/// pivot is not already on the diagonal, and normalize the pivot row unless
/// its diagonal already has the value one.
pub open spec fn pivot_spec(s: SysState, i: int, n: int) -> StepRes {
    let r = scan_pivot(s.m, i, i, n);
    if r == n {
        StepRes::Singular
    } else {
        let s1 = if r != i {
            pivot_swap(s, i, r)
        } else {
            s
        };
        let p = s1.m[i][i];
        if p.n == p.d {
            StepRes::Done(s1)
        } else if norm_row_ok(s1.m[i], p, i, n) && rv_div_ck(s1.b[i], p) is Some {
            StepRes::Done(
                SysState {
                    m: s1.m.update(i, norm_row(s1.m[i], p, i, n)),
                    b: s1.b.update(i, rv_div_ck(s1.b[i], p).unwrap()),
                    swap: s1.swap,
                },
            )
        } else {
            StepRes::Overflow
        }
    }
}

/// One cell of a row reduction: `x - mult * y`, or `None` when a result leaves
/// the machine range.
pub open spec fn red_cell(x: RatV, mult: RatV, y: RatV) -> Option<RatV> {
    match rv_mul_ck(mult, y) {
        Some(pr) => rv_sub_ck(x, pr),
        None => None,
    }
}

/// Row `j` reduced against pivot row `piv` at step `i`: the multiplier is the
/// entry in column `i`, which becomes exactly zero, and every column to its
/// right is updated by `x - mult * piv[k]`.
pub open spec fn red_row(rj: Seq<RatV>, piv: Seq<RatV>, i: int, n: int) -> Seq<RatV> {
    Seq::new(rj.len(), |k: int| {
        if k == i {
            rv_zero()
        } else if i < k < n {
            red_cell(rj[k], rj[i], piv[k]).unwrap()
        } else {
            rj[k]
        }
    })
}

/// Every cell update of the row reduction stays in machine range.
pub open spec fn red_row_ok(rj: Seq<RatV>, piv: Seq<RatV>, i: int, n: int) -> bool {
    forall|k: int| i < k < n ==> (#[trigger] red_cell(rj[k], rj[i], piv[k])) is Some
}

/// Every row reduction of step `i` stays in machine range.
pub open spec fn step_ok(s: SysState, i: int, n: int) -> bool {
    forall|j: int|
        i < j < n ==> red_row_ok(#[trigger] s.m[j], s.m[i], i, n) && red_cell(
            s.b[j],
            s.m[j][i],
            s.b[i],
        ) is Some
}

/// The state after the row reductions of step `i`: every row below the pivot
/// is reduced against the pivot row, together with its right-hand-side entry.
/// Each row's update reads only that row and the pivot row, so the result does
/// not depend on the order in which the rows are processed.
pub open spec fn step_state(s: SysState, i: int, n: int) -> SysState {
    SysState {
        m: Seq::new(s.m.len(), |j: int| {
            if i < j < n {
                red_row(s.m[j], s.m[i], i, n)
            } else {
                s.m[j]
            }
        }),
        b: Seq::new(s.b.len(), |j: int| {
            if i < j < n {
                red_cell(s.b[j], s.m[j][i], s.b[i]).unwrap()
            } else {
                s.b[j]
            }
        }),
        swap: s.swap,
    }
}

/// Forward elimination from step `i` on: pivot selection followed by the row
/// reductions of the step, repeated until the last step or the first failure.
pub open spec fn gauss_from(s: SysState, i: int, n: int) -> StepRes
    decreases n - i,
{
    if i < 0 || i >= n {
        StepRes::Done(s)
    } else {
        match pivot_spec(s, i, n) {
            StepRes::Singular => StepRes::Singular,
            StepRes::Overflow => StepRes::Overflow,
            StepRes::Done(s1) => {
                if step_ok(s1, i, n) {
                    gauss_from(step_state(s1, i, n), i + 1, n)
                } else {
                    StepRes::Overflow
                }
            },
        }
    }
}

/// The whole forward elimination over the model.
pub open spec fn gauss_spec(s: SysState, n: int) -> StepRes {
    gauss_from(s, 0, n)
}

/// Scans column `currow` from row `currow` down for the first non-zero entry.
fn scan_col(data: &Data, currow: usize) -> (res: Option<usize>)
    requires
        data.wf(),
        currow < data.nsize,
    ensures
        match res {
            Some(ir) => currow <= ir < data.nsize && scan_pivot(
                data.st().m,
                currow as int,
                currow as int,
                data.n(),
            ) == ir as int && data.st().m[ir as int][currow as int].n != 0,
            None => scan_pivot(data.st().m, currow as int, currow as int, data.n()) == data.n(),
        },
{
    let n = data.nsize;
    let mut r = currow;
    while r < n
        invariant
            data.wf(),
            currow < n == data.nsize,
            currow <= r <= n,
            scan_pivot(data.st().m, currow as int, currow as int, n as int) == scan_pivot(
                data.st().m,
                currow as int,
                r as int,
                n as int,
            ),
        decreases n - r,
    {
        if !data.matrix[r][currow].is_zero() {
            return Some(r);
        }
        r = r + 1;
    }
    None
}

/// Pivot selection and normalization for step `currow`, exactly as
/// `pivot_spec` describes it. On a singular matrix the system is left
/// unchanged; on overflow the pivot row may be partially normalized but the
/// system stays well formed.
#[verifier::loop_isolation(false)]
pub fn pivot(data: &mut Data, currow: usize) -> (res: Result<(), SolveError>)
    requires
        old(data).wf(),
        currow < old(data).nsize,
    ensures
        final(data).wf(),
        final(data).nsize == old(data).nsize,
        final(data).num_threads == old(data).num_threads,
        final(data).c == old(data).c,
        final(data).v == old(data).v,
        match res {
            Ok(()) => pivot_spec(old(data).st(), currow as int, old(data).n()) == StepRes::Done(
                final(data).st(),
            ),
            Err(SolveError::SingularMatrix) => pivot_spec(
                old(data).st(),
                currow as int,
                old(data).n(),
            ) is Singular && *final(data) == *old(data),
            Err(SolveError::ArithmeticOverflow) => pivot_spec(
                old(data).st(),
                currow as int,
                old(data).n(),
            ) is Overflow,
        },
{
    let n = data.nsize;
    let irow = match scan_col(data, currow) {
        Some(ir) => ir,
        None => {
            return Err(SolveError::SingularMatrix);
        },
    };

    if irow != currow {
        let ghost s0 = data.st();
        let mut k = currow;
        while k < n
            invariant
                currow <= k <= n,
                data.matrix@.len() == n,
                forall|r: int| 0 <= r < n ==> (#[trigger] data.matrix@[r])@.len() == n,
                forall|r: int| 0 <= r < n ==> (#[trigger] data.st().m[r]).len() == n,
                forall|r: int, c: int|
                    0 <= r < n && 0 <= c < n ==> rv_wf(#[trigger] data.st().m[r][c]),
                data.b == old(data).b,
                data.c == old(data).c,
                data.v == old(data).v,
                data.swap == old(data).swap,
                data.nsize == n,
                data.num_threads == old(data).num_threads,
                forall|r: int|
                    0 <= r < n && r != irow as int && r != currow as int ==> #[trigger] data.st().m[r]
                        == s0.m[r],
                forall|kk: int|
                    currow as int <= kk < k as int ==> #[trigger] data.st().m[currow as int][kk]
                        == s0.m[irow as int][kk] && data.st().m[irow as int][kk]
                        == s0.m[currow as int][kk],
                forall|kk: int|
                    0 <= kk < n && !(currow as int <= kk < k as int)
                        ==> #[trigger] data.st().m[currow as int][kk] == s0.m[currow as int][kk]
                        && data.st().m[irow as int][kk] == s0.m[irow as int][kk],
            decreases n - k,
        {
            let ghost d0 = data.st();
            let ghost m0 = data.matrix@;
            let a = data.matrix[irow][k];
            let bb = data.matrix[currow][k];
            data.matrix[irow].set(k, bb);
            data.matrix[currow].set(k, a);
            proof {
                assert forall|r: int|
                    0 <= r < n && r != irow as int && r != currow as int
                        implies #[trigger] data.st().m[r] == d0.m[r] by {
                    assert(data.matrix@[r] == m0[r]);
                    assert(data.st().m[r] == data.matrix@[r].deep_view());
                    assert(d0.m[r] == m0[r].deep_view());
                }
                assert(data.st().m[irow as int] =~= d0.m[irow as int].update(k as int, bb@));
                assert(data.st().m[currow as int] =~= d0.m[currow as int].update(k as int, a@));
                assert(a@ == d0.m[irow as int][k as int]);
                assert(bb@ == d0.m[currow as int][k as int]);
                assert forall|r: int, c: int| 0 <= r < n && 0 <= c < n implies rv_wf(
                    #[trigger] data.st().m[r][c]) by {
                    if r == irow as int && c == k as int {
                        assert(data.st().m[r][c] == bb@);
                        assert(rv_wf(d0.m[currow as int][k as int]));
                    } else if r == currow as int && c == k as int {
                        assert(data.st().m[r][c] == a@);
                        assert(rv_wf(d0.m[irow as int][k as int]));
                    } else {
                        assert(data.st().m[r][c] == d0.m[r][c]);
                        assert(rv_wf(d0.m[r][c]));
                    }
                }
            }
            k = k + 1;
        }
        proof {
            let sw = pivot_swap(s0, currow as int, irow as int);
            assert forall|kk: int| 0 <= kk < n as int implies data.st().m[currow as int][kk]
                == sw.m[currow as int][kk] && data.st().m[irow as int][kk]
                == sw.m[irow as int][kk] by {
                assert(s0.m.len() == n);
                assert(sw.m[currow as int] == swap_cols_from(
                    s0.m[currow as int], s0.m[irow as int], currow as int));
                assert(sw.m[irow as int] == swap_cols_from(
                    s0.m[irow as int], s0.m[currow as int], currow as int));
                if currow as int <= kk {
                    assert(data.st().m[currow as int][kk] == s0.m[irow as int][kk]);
                    assert(data.st().m[irow as int][kk] == s0.m[currow as int][kk]);
                    assert(sw.m[currow as int][kk] == s0.m[irow as int][kk]);
                    assert(sw.m[irow as int][kk] == s0.m[currow as int][kk]);
                } else {
                    assert(data.st().m[currow as int][kk] == s0.m[currow as int][kk]);
                    assert(data.st().m[irow as int][kk] == s0.m[irow as int][kk]);
                    assert(sw.m[currow as int][kk] == s0.m[currow as int][kk]);
                    assert(sw.m[irow as int][kk] == s0.m[irow as int][kk]);
                }
            }
            assert(data.st().m[currow as int] =~= sw.m[currow as int]);
            assert(data.st().m[irow as int] =~= sw.m[irow as int]);
            assert(data.st().m =~= sw.m);
        }
        let t1 = data.b[irow];
        let t2 = data.b[currow];
        data.b.set(irow, t2);
        data.b.set(currow, t1);
        let u1 = data.swap[irow];
        let u2 = data.swap[currow];
        data.swap.set(irow, u2);
        data.swap.set(currow, u1);
        proof {
            let sw = pivot_swap(s0, currow as int, irow as int);
            assert(data.st().m =~= sw.m);
            assert(data.st().b =~= sw.b);
            assert(data.st().swap =~= sw.swap);
        }
    }

    let ghost s1 = data.st();
    proof {
        assert(st_wf(s1, n as int));
        assert(perm_wf(s1.swap, n as int));
    }
    let p = data.matrix[currow][currow];
    if p.is_one() {
        return Ok(());
    }
    let mut k = currow + 1;
    while k < n
        invariant
            currow < k <= n,
            p@ == s1.m[currow as int][currow as int],
            p@.n != 0,
            rv_wf(p@),
            data.matrix@.len() == n,
            forall|r: int| 0 <= r < n ==> (#[trigger] data.matrix@[r])@.len() == n,
            forall|r: int| 0 <= r < n ==> (#[trigger] data.st().m[r]).len() == n,
            forall|r: int, c: int|
                0 <= r < n && 0 <= c < n ==> rv_wf(#[trigger] data.st().m[r][c]),
            data.b@.len() == n,
            data.nsize == n,
            data.num_threads == old(data).num_threads,
            data.c == old(data).c,
            data.v == old(data).v,
            data.st().b == s1.b,
            data.st().swap == s1.swap,
            forall|r: int| 0 <= r < n && r != currow as int ==> #[trigger] data.st().m[r] == s1.m[r],
            forall|kk: int|
                (currow as int) < kk < k as int ==> (#[trigger] rv_div_ck(
                    s1.m[currow as int][kk],
                    p@,
                )) is Some && data.st().m[currow as int][kk] == rv_div_ck(
                    s1.m[currow as int][kk],
                    p@,
                ).unwrap(),
            forall|kk: int|
                0 <= kk < n && !((currow as int) < kk < k as int)
                    ==> #[trigger] data.st().m[currow as int][kk] == s1.m[currow as int][kk],
        decreases n - k,
    {
        let cur = data.matrix[currow][k];
        proof {
            assert(cur@ == data.st().m[currow as int][k as int]);
        }
        match cur.checked_div(&p) {
            Some(x) => {
                data.matrix[currow].set(k, x);
            },
            None => {
                return Err(SolveError::ArithmeticOverflow);
            },
        }
        k = k + 1;
    }
    let ghost s2 = data.st();
    let bi = data.b[currow];
    let nb = match bi.checked_div(&p) {
        Some(x) => x,
        None => {
            return Err(SolveError::ArithmeticOverflow);
        },
    };
    data.b.set(currow, nb);
    data.matrix[currow].set(currow, Rat::one());
    proof {
        let nr = norm_row(s1.m[currow as int], p@, currow as int, n as int);
        assert(data.st().m[currow as int] =~= s2.m[currow as int].update(
            currow as int,
            rv_one(),
        ));
        assert(data.st().m[currow as int] =~= nr);
        assert forall|r: int| 0 <= r < n && r != currow as int implies #[trigger] data.st().m[r]
            == s1.m[r] by {
            assert(data.st().m[r] =~= s2.m[r]);
        }
        assert(data.st().m =~= s1.m.update(currow as int, nr));
        assert(data.st().b =~= s1.b.update(
            currow as int,
            rv_div_ck(s1.b[currow as int], p@).unwrap(),
        ));
    }
    Ok(())
}

/// Reduces row `j` against pivot row `i`: the entry in column `i` becomes
/// exactly zero and every column to its right, together with the right-hand
/// side, is updated by `x - mult * pivot_row_x`. On overflow, row `j` may be
/// partially reduced but every other row, the right-hand side, and the
/// permutation log are unchanged.
#[verifier::loop_isolation(false)]
pub fn reduce_row(data: &mut Data, i: usize, j: usize) -> (res: Result<(), SolveError>)
    requires
        old(data).wf(),
        i < j < old(data).nsize,
    ensures
        final(data).wf(),
        final(data).nsize == old(data).nsize,
        final(data).num_threads == old(data).num_threads,
        final(data).c == old(data).c,
        final(data).v == old(data).v,
        final(data).st().swap == old(data).st().swap,
        forall|r: int|
            0 <= r < old(data).n() && r != j as int ==> #[trigger] final(data).st().m[r] == old(
                data,
            ).st().m[r],
        match res {
            Ok(()) => {
                &&& red_row_ok(old(data).st().m[j as int], old(data).st().m[i as int], i as int, old(data).n())
                &&& red_cell(
                    old(data).st().b[j as int],
                    old(data).st().m[j as int][i as int],
                    old(data).st().b[i as int],
                ) is Some
                &&& final(data).st().m == old(data).st().m.update(
                    j as int,
                    red_row(
                        old(data).st().m[j as int],
                        old(data).st().m[i as int],
                        i as int,
                        old(data).n(),
                    ),
                )
                &&& final(data).st().b == old(data).st().b.update(
                    j as int,
                    red_cell(
                        old(data).st().b[j as int],
                        old(data).st().m[j as int][i as int],
                        old(data).st().b[i as int],
                    ).unwrap(),
                )
            },
            Err(SolveError::ArithmeticOverflow) => {
                &&& !(red_row_ok(
                    old(data).st().m[j as int],
                    old(data).st().m[i as int],
                    i as int,
                    old(data).n(),
                ) && red_cell(
                    old(data).st().b[j as int],
                    old(data).st().m[j as int][i as int],
                    old(data).st().b[i as int],
                ) is Some)
                &&& final(data).st().b == old(data).st().b
            },
            Err(SolveError::SingularMatrix) => false,
        },
{
    let ghost s0 = data.st();
    let n = data.nsize;
    let mult = data.matrix[j][i];
    proof {
        assert(mult@ == s0.m[j as int][i as int]);
    }
    data.matrix[j].set(i, Rat::zero());
    let mut k = i + 1;
    while k < n
        invariant
            i < k <= n,
            mult@ == s0.m[j as int][i as int],
            rv_wf(mult@),
            data.matrix@.len() == n,
            forall|r: int| 0 <= r < n ==> (#[trigger] data.matrix@[r])@.len() == n,
            forall|r: int| 0 <= r < n ==> (#[trigger] data.st().m[r]).len() == n,
            forall|r: int, c: int|
                0 <= r < n && 0 <= c < n ==> rv_wf(#[trigger] data.st().m[r][c]),
            data.b == old(data).b,
            data.c == old(data).c,
            data.v == old(data).v,
            data.swap == old(data).swap,
            data.nsize == n,
            data.num_threads == old(data).num_threads,
            forall|r: int| 0 <= r < n && r != j as int ==> #[trigger] data.st().m[r] == s0.m[r],
            data.st().m[j as int][i as int] == rv_zero(),
            forall|kk: int|
                (i as int) < kk < k as int ==> (#[trigger] red_cell(
                    s0.m[j as int][kk],
                    mult@,
                    s0.m[i as int][kk],
                )) is Some && data.st().m[j as int][kk] == red_cell(
                    s0.m[j as int][kk],
                    mult@,
                    s0.m[i as int][kk],
                ).unwrap(),
            forall|kk: int|
                0 <= kk < n && kk != i as int && !((i as int) < kk < k as int)
                    ==> #[trigger] data.st().m[j as int][kk] == s0.m[j as int][kk],
        decreases n - k,
    {
        let piv = data.matrix[i][k];
        let cur = data.matrix[j][k];
        proof {
            assert(piv@ == data.st().m[i as int][k as int]);
            assert(cur@ == data.st().m[j as int][k as int]);
            assert(piv@ == s0.m[i as int][k as int]);
            assert(cur@ == s0.m[j as int][k as int]);
        }
        let pr = match mult.checked_mul(&piv) {
            Some(x) => x,
            None => {
                proof {
                    assert(red_cell(
                        s0.m[j as int][k as int],
                        s0.m[j as int][i as int],
                        s0.m[i as int][k as int],
                    ) is None);
                    assert(!red_row_ok(s0.m[j as int], s0.m[i as int], i as int, n as int));
                }
                return Err(SolveError::ArithmeticOverflow);
            },
        };
        let nv = match cur.checked_sub(&pr) {
            Some(x) => x,
            None => {
                proof {
                    assert(red_cell(
                        s0.m[j as int][k as int],
                        s0.m[j as int][i as int],
                        s0.m[i as int][k as int],
                    ) is None);
                    assert(!red_row_ok(s0.m[j as int], s0.m[i as int], i as int, n as int));
                }
                return Err(SolveError::ArithmeticOverflow);
            },
        };
        data.matrix[j].set(k, nv);
        k = k + 1;
    }
    let bi = data.b[i];
    let bj = data.b[j];
    proof {
        assert(bi@ == data.st().b[i as int]);
        assert(bj@ == data.st().b[j as int]);
        assert(bi@ == s0.b[i as int]);
        assert(bj@ == s0.b[j as int]);
    }
    let pr = match mult.checked_mul(&bi) {
        Some(x) => x,
        None => {
            proof {
                assert(rv_mul_ck(mult@, bi@) is None);
                assert(red_cell(s0.b[j as int], s0.m[j as int][i as int], s0.b[i as int])
                    is None);
                assert(data.st().b == old(data).st().b);
                assert(data.st().swap == old(data).st().swap);
            }
            return Err(SolveError::ArithmeticOverflow);
        },
    };
    let nb = match bj.checked_sub(&pr) {
        Some(x) => x,
        None => {
            proof {
                assert(rv_mul_ck(mult@, bi@) == Some(pr@));
                assert(rv_sub_ck(bj@, pr@) is None);
                assert(red_cell(s0.b[j as int], s0.m[j as int][i as int], s0.b[i as int])
                    is None);
                assert(data.st().b == old(data).st().b);
            }
            return Err(SolveError::ArithmeticOverflow);
        },
    };
    data.b.set(j, nb);
    proof {
        let rr = red_row(s0.m[j as int], s0.m[i as int], i as int, n as int);
        assert(data.st().m[j as int] =~= rr);
        assert(data.st().m =~= s0.m.update(j as int, rr));
        assert(data.st().b =~= s0.b.update(
            j as int,
            red_cell(s0.b[j as int], mult@, s0.b[i as int]).unwrap(),
        ));
    }
    Ok(())
}

/// Sequential forward elimination: for each pivot index, select and normalize
/// the pivot row, then reduce every row below it. The result, the singular
/// failure, and the overflow failure each happen exactly when `gauss_spec`
/// says they do.
#[verifier::loop_isolation(false)]
pub fn compute_gauss(data: &mut Data) -> (res: Result<(), SolveError>)
    requires
        old(data).wf(),
    ensures
        final(data).wf(),
        final(data).nsize == old(data).nsize,
        final(data).num_threads == old(data).num_threads,
        final(data).c == old(data).c,
        final(data).v == old(data).v,
        match res {
            Ok(()) => gauss_spec(old(data).st(), old(data).n()) == StepRes::Done(
                final(data).st(),
            ),
            Err(SolveError::SingularMatrix) => gauss_spec(old(data).st(), old(data).n())
                is Singular,
            Err(SolveError::ArithmeticOverflow) => gauss_spec(old(data).st(), old(data).n())
                is Overflow,
        },
{
    let n = data.nsize;
    let mut i: usize = 0;
    while i < n
        invariant
            i <= n,
            data.wf(),
            data.nsize == n,
            data.num_threads == old(data).num_threads,
            data.c == old(data).c,
            data.v == old(data).v,
            gauss_from(old(data).st(), 0, n as int) == gauss_from(data.st(), i as int, n as int),
        decreases n - i,
    {
        match pivot(data, i) {
            Ok(()) => {},
            Err(e) => {
                return Err(e);
            },
        }
        let ghost s1 = data.st();
        let mut j = i + 1;
        while j < n
            invariant
                i < j <= n,
                data.wf(),
                data.nsize == n,
                data.num_threads == old(data).num_threads,
                data.c == old(data).c,
                data.v == old(data).v,
                st_wf(s1, n as int),
                gauss_from(old(data).st(), 0, n as int) == (if step_ok(s1, i as int, n as int) {
                    gauss_from(step_state(s1, i as int, n as int), i as int + 1, n as int)
                } else {
                    StepRes::Overflow
                }),
                data.st().swap == s1.swap,
                forall|jj: int|
                    (i as int) < jj < j as int ==> (#[trigger] red_row_ok(
                        s1.m[jj],
                        s1.m[i as int],
                        i as int,
                        n as int,
                    )) && red_cell(s1.b[jj], s1.m[jj][i as int], s1.b[i as int]) is Some,
                forall|jj: int|
                    (i as int) < jj < j as int ==> #[trigger] data.st().m[jj] == red_row(
                        s1.m[jj],
                        s1.m[i as int],
                        i as int,
                        n as int,
                    ),
                forall|jj: int|
                    (i as int) < jj < j as int ==> #[trigger] data.st().b[jj] == red_cell(
                        s1.b[jj],
                        s1.m[jj][i as int],
                        s1.b[i as int],
                    ).unwrap(),
                forall|jj: int|
                    0 <= jj < n && !((i as int) < jj < j as int) ==> #[trigger] data.st().m[jj]
                        == s1.m[jj],
                forall|jj: int|
                    0 <= jj < n && !((i as int) < jj < j as int) ==> #[trigger] data.st().b[jj]
                        == s1.b[jj],
            decreases n - j,
        {
            proof {
                assert(data.st().m[j as int] == s1.m[j as int]);
                assert(data.st().m[i as int] == s1.m[i as int]);
                assert(data.st().b[j as int] == s1.b[j as int]);
                assert(data.st().b[i as int] == s1.b[i as int]);
            }
            match reduce_row(data, i, j) {
                Ok(()) => {},
                Err(_) => {
                    proof {
                        assert(!step_ok(s1, i as int, n as int));
                    }
                    return Err(SolveError::ArithmeticOverflow);
                },
            }
            proof {
                assert(red_row_ok(s1.m[j as int], s1.m[i as int], i as int, n as int));
                assert(red_cell(s1.b[j as int], s1.m[j as int][i as int], s1.b[i as int])
                    is Some);
                assert(data.st().m[j as int] == red_row(
                    s1.m[j as int],
                    s1.m[i as int],
                    i as int,
                    n as int,
                ));
            }
            j = j + 1;
        }
        proof {
            assert forall|jj: int|
                (i as int) < jj < n as int implies red_row_ok(
                #[trigger] s1.m[jj],
                s1.m[i as int],
                i as int,
                n as int,
            ) && red_cell(s1.b[jj], s1.m[jj][i as int], s1.b[i as int]) is Some by {
                assert(red_row_ok(s1.m[jj], s1.m[i as int], i as int, n as int));
            }
            assert(step_ok(s1, i as int, n as int));
            let stp = step_state(s1, i as int, n as int);
            assert(data.st().m =~= stp.m);
            assert(data.st().b =~= stp.b);
        }
        i = i + 1;
    }
    Ok(())
}

/// Whether row `j` of step `i` belongs to worker `w` under the round-robin
/// schedule with `wc` workers: the rows below the pivot are dealt out
/// cyclically, so worker `w` owns rows `i + 1 + w`, `i + 1 + w + wc`, ...
pub open spec fn assigned_row(j: int, i: int, w: int, wc: int) -> bool {
    i < j && (j - i - 1) % wc == w
}

/// Stepping by the worker count stays on the same residue; the rows strictly
/// between two consecutive assigned rows belong to other workers.
proof fn lemma_mod_stride(t: int, d: int, wc: int, w: int)
    requires
        0 <= w < wc,
        t % wc == w,
        0 < d < wc,
    ensures
        (t + d) % wc != w,
{
    vstd::arithmetic::div_mod::lemma_add_mod_noop(t, d, wc);
    vstd::arithmetic::div_mod::lemma_small_mod(d as nat, wc as nat);
    if w + d < wc {
        vstd::arithmetic::div_mod::lemma_small_mod((w + d) as nat, wc as nat);
    } else {
        vstd::arithmetic::div_mod::lemma_mod_sub_multiples_vanish(w + d, wc);
        vstd::arithmetic::div_mod::lemma_small_mod((w + d - wc) as nat, wc as nat);
    }
}

/// Row reductions of step `currow` for the rows of worker `w` out of `wc`:
/// each assigned row is reduced against the pivot row exactly as in the
/// sequential eliminator; every other row, the right-hand-side entries of the
/// other rows, and the permutation log are untouched. Distinct workers own
/// disjoint rows, and each reduction reads only its own row and the pivot row,
/// so a thread-parallel driver may run one call per worker concurrently within
/// a step.
#[verifier::loop_isolation(false)]
pub fn reduce_rows_worker(data: &mut Data, currow: usize, w: usize, wc: usize) -> (res: Result<
    (),
    SolveError,
>)
    requires
        old(data).wf(),
        currow < old(data).nsize,
        w < wc,
        wc <= 0x4000_0000,
    ensures
        final(data).wf(),
        final(data).nsize == old(data).nsize,
        final(data).num_threads == old(data).num_threads,
        final(data).c == old(data).c,
        final(data).v == old(data).v,
        final(data).st().swap == old(data).st().swap,
        forall|jj: int|
            0 <= jj < old(data).n() && !assigned_row(jj, currow as int, w as int, wc as int)
                ==> #[trigger] final(data).st().m[jj] == old(data).st().m[jj],
        forall|jj: int|
            0 <= jj < old(data).n() && !assigned_row(jj, currow as int, w as int, wc as int)
                ==> #[trigger] final(data).st().b[jj] == old(data).st().b[jj],
        match res {
            Ok(()) => {
                &&& forall|jj: int|
                    (currow as int) < jj < old(data).n() && assigned_row(
                        jj,
                        currow as int,
                        w as int,
                        wc as int,
                    ) ==> red_row_ok(
                        #[trigger] old(data).st().m[jj],
                        old(data).st().m[currow as int],
                        currow as int,
                        old(data).n(),
                    ) && red_cell(
                        old(data).st().b[jj],
                        old(data).st().m[jj][currow as int],
                        old(data).st().b[currow as int],
                    ) is Some
                &&& forall|jj: int|
                    (currow as int) < jj < old(data).n() && assigned_row(
                        jj,
                        currow as int,
                        w as int,
                        wc as int,
                    ) ==> #[trigger] final(data).st().m[jj] == red_row(
                        old(data).st().m[jj],
                        old(data).st().m[currow as int],
                        currow as int,
                        old(data).n(),
                    )
                &&& forall|jj: int|
                    (currow as int) < jj < old(data).n() && assigned_row(
                        jj,
                        currow as int,
                        w as int,
                        wc as int,
                    ) ==> #[trigger] final(data).st().b[jj] == red_cell(
                        old(data).st().b[jj],
                        old(data).st().m[jj][currow as int],
                        old(data).st().b[currow as int],
                    ).unwrap()
            },
            Err(SolveError::ArithmeticOverflow) => exists|jj: int|
                (currow as int) < jj < old(data).n() && assigned_row(
                    jj,
                    currow as int,
                    w as int,
                    wc as int,
                ) && !(red_row_ok(
                    #[trigger] old(data).st().m[jj],
                    old(data).st().m[currow as int],
                    currow as int,
                    old(data).n(),
                ) && red_cell(
                    old(data).st().b[jj],
                    old(data).st().m[jj][currow as int],
                    old(data).st().b[currow as int],
                ) is Some),
            Err(SolveError::SingularMatrix) => false,
        },
{
    let ghost s0 = data.st();
    let n = data.nsize;
    proof {
        vstd::arithmetic::div_mod::lemma_small_mod(w as nat, wc as nat);
        assert forall|jj: int|
            (currow as int) < jj && jj - currow - 1 < w as int implies !assigned_row(
            jj,
            currow as int,
            w as int,
            wc as int,
        ) by {
            vstd::arithmetic::div_mod::lemma_small_mod((jj - currow - 1) as nat, wc as nat);
        }
    }
    let mut j = currow + 1 + w;
    while j < n
        invariant
            currow + 1 + w <= j,
            (j - currow - 1) % (wc as int) == w as int,
            data.wf(),
            data.nsize == n,
            data.num_threads == old(data).num_threads,
            data.c == old(data).c,
            data.v == old(data).v,
            data.st().swap == s0.swap,
            forall|jj: int|
                0 <= jj < n && !(assigned_row(jj, currow as int, w as int, wc as int) && jj
                    < j as int) ==> #[trigger] data.st().m[jj] == s0.m[jj],
            forall|jj: int|
                0 <= jj < n && !(assigned_row(jj, currow as int, w as int, wc as int) && jj
                    < j as int) ==> #[trigger] data.st().b[jj] == s0.b[jj],
            forall|jj: int|
                (currow as int) < jj < j as int && assigned_row(
                    jj,
                    currow as int,
                    w as int,
                    wc as int,
                ) ==> red_row_ok(
                    #[trigger] s0.m[jj],
                    s0.m[currow as int],
                    currow as int,
                    n as int,
                ) && red_cell(s0.b[jj], s0.m[jj][currow as int], s0.b[currow as int]) is Some,
            forall|jj: int|
                (currow as int) < jj < j as int && assigned_row(
                    jj,
                    currow as int,
                    w as int,
                    wc as int,
                ) ==> #[trigger] data.st().m[jj] == red_row(
                    s0.m[jj],
                    s0.m[currow as int],
                    currow as int,
                    n as int,
                ),
            forall|jj: int|
                (currow as int) < jj < j as int && assigned_row(
                    jj,
                    currow as int,
                    w as int,
                    wc as int,
                ) ==> #[trigger] data.st().b[jj] == red_cell(
                    s0.b[jj],
                    s0.m[jj][currow as int],
                    s0.b[currow as int],
                ).unwrap(),
        decreases n + wc - j,
    {
        proof {
            assert(data.st().m[j as int] == s0.m[j as int]);
            assert(data.st().m[currow as int] == s0.m[currow as int]);
            assert(data.st().b[j as int] == s0.b[j as int]);
            assert(data.st().b[currow as int] == s0.b[currow as int]);
        }
        match reduce_row(data, currow, j) {
            Ok(()) => {},
            Err(_) => {
                proof {
                    assert(assigned_row(j as int, currow as int, w as int, wc as int));
                }
                return Err(SolveError::ArithmeticOverflow);
            },
        }
        proof {
            assert forall|jj: int|
                (j as int) < jj && jj < (j as int) + (wc as int) implies !assigned_row(
                jj,
                currow as int,
                w as int,
                wc as int,
            ) by {
                lemma_mod_stride(j as int - currow - 1, jj - j as int, wc as int, w as int);
            }
            vstd::arithmetic::div_mod::lemma_mod_add_multiples_vanish(
                j as int - currow - 1,
                wc as int,
            );
        }
        j = j + wc;
    }
    Ok(())
}

/// Forward elimination with the round-robin worker schedule: for each pivot
/// index the pivot is selected on the coordinating path, then the row
/// reductions of the step are performed worker by worker, each on its own
/// disjoint set of rows; no work of step `i + 1` starts before step `i` is
/// complete. A `worker_count` of zero is treated as one worker (sequential
/// mode), and counts above the number of rows are clamped, which leaves the
/// result unchanged. The contract is the same as `compute_gauss`: outcome and
/// final state are pinned to `gauss_spec`, so the parallel schedule returns
/// the same matrix and right-hand side as the sequential eliminator for every
/// worker count.
#[verifier::loop_isolation(false)]
pub fn compute_gauss_parallel(data: &mut Data) -> (res: Result<(), SolveError>)
    requires
        old(data).wf(),
    ensures
        final(data).wf(),
        final(data).nsize == old(data).nsize,
        final(data).num_threads == old(data).num_threads,
        final(data).c == old(data).c,
        final(data).v == old(data).v,
        match res {
            Ok(()) => gauss_spec(old(data).st(), old(data).n()) == StepRes::Done(
                final(data).st(),
            ),
            Err(SolveError::SingularMatrix) => gauss_spec(old(data).st(), old(data).n())
                is Singular,
            Err(SolveError::ArithmeticOverflow) => gauss_spec(old(data).st(), old(data).n())
                is Overflow,
        },
{
    let n = data.nsize;
    let nt = data.num_threads;
    let wc = if nt == 0 {
        1
    } else if nt > n {
        n
    } else {
        nt
    };
    let mut i: usize = 0;
    while i < n
        invariant
            i <= n,
            1 <= wc <= n,
            data.wf(),
            data.nsize == n,
            data.num_threads == old(data).num_threads,
            data.c == old(data).c,
            data.v == old(data).v,
            gauss_from(old(data).st(), 0, n as int) == gauss_from(data.st(), i as int, n as int),
        decreases n - i,
    {
        match pivot(data, i) {
            Ok(()) => {},
            Err(e) => {
                return Err(e);
            },
        }
        let ghost s1 = data.st();
        let mut w: usize = 0;
        while w < wc
            invariant
                w <= wc,
                1 <= wc <= n,
                i < n,
                data.wf(),
                data.nsize == n,
                data.num_threads == old(data).num_threads,
                data.c == old(data).c,
                data.v == old(data).v,
                st_wf(s1, n as int),
                gauss_from(old(data).st(), 0, n as int) == (if step_ok(s1, i as int, n as int) {
                    gauss_from(step_state(s1, i as int, n as int), i as int + 1, n as int)
                } else {
                    StepRes::Overflow
                }),
                data.st().swap == s1.swap,
                forall|jj: int|
                    (i as int) < jj < n as int && (jj - i - 1) % (wc as int) < w as int
                        ==> red_row_ok(
                        #[trigger] s1.m[jj],
                        s1.m[i as int],
                        i as int,
                        n as int,
                    ) && red_cell(s1.b[jj], s1.m[jj][i as int], s1.b[i as int]) is Some,
                forall|jj: int|
                    (i as int) < jj < n as int && (jj - i - 1) % (wc as int) < w as int
                        ==> #[trigger] data.st().m[jj] == red_row(
                        s1.m[jj],
                        s1.m[i as int],
                        i as int,
                        n as int,
                    ),
                forall|jj: int|
                    (i as int) < jj < n as int && (jj - i - 1) % (wc as int) < w as int
                        ==> #[trigger] data.st().b[jj] == red_cell(
                        s1.b[jj],
                        s1.m[jj][i as int],
                        s1.b[i as int],
                    ).unwrap(),
                forall|jj: int|
                    0 <= jj < n as int && !((i as int) < jj < n as int && (jj - i - 1) % (
                    wc as int) < w as int) ==> #[trigger] data.st().m[jj] == s1.m[jj],
                forall|jj: int|
                    0 <= jj < n as int && !((i as int) < jj < n as int && (jj - i - 1) % (
                    wc as int) < w as int) ==> #[trigger] data.st().b[jj] == s1.b[jj],
            decreases wc - w,
        {
            let ghost before = data.st();
            match reduce_rows_worker(data, i, w, wc) {
                Ok(()) => {},
                Err(_) => {
                    proof {
                        let jj = choose|jj: int|
                            (i as int) < jj < n as int && assigned_row(
                                jj,
                                i as int,
                                w as int,
                                wc as int,
                            ) && !(red_row_ok(
                                #[trigger] before.m[jj],
                                before.m[i as int],
                                i as int,
                                n as int,
                            ) && red_cell(
                                before.b[jj],
                                before.m[jj][i as int],
                                before.b[i as int],
                            ) is Some);
                        assert(before.m[jj] == s1.m[jj]);
                        assert(before.m[i as int] == s1.m[i as int]);
                        assert(before.b[jj] == s1.b[jj]);
                        assert(before.b[i as int] == s1.b[i as int]);
                        assert(!step_ok(s1, i as int, n as int));
                    }
                    return Err(SolveError::ArithmeticOverflow);
                },
            }
            proof {
                assert forall|jj: int|
                    (i as int) < jj < n as int && (jj - i - 1) % (wc as int) < w as int
                        + 1 implies red_row_ok(
                    #[trigger] s1.m[jj],
                    s1.m[i as int],
                    i as int,
                    n as int,
                ) && red_cell(s1.b[jj], s1.m[jj][i as int], s1.b[i as int]) is Some
                    && data.st().m[jj] == red_row(s1.m[jj], s1.m[i as int], i as int, n as int)
                    && data.st().b[jj] == red_cell(
                    s1.b[jj],
                    s1.m[jj][i as int],
                    s1.b[i as int],
                ).unwrap() by {
                    if (jj - i - 1) % (wc as int) == w as int {
                        assert(assigned_row(jj, i as int, w as int, wc as int));
                        assert(before.m[jj] == s1.m[jj]);
                        assert(before.m[i as int] == s1.m[i as int]);
                        assert(before.b[jj] == s1.b[jj]);
                        assert(before.b[i as int] == s1.b[i as int]);
                    } else {
                        assert(!assigned_row(jj, i as int, w as int, wc as int));
                        assert(data.st().m[jj] == before.m[jj]);
                        assert(data.st().b[jj] == before.b[jj]);
                    }
                }
            }
            w = w + 1;
        }
        proof {
            assert forall|jj: int| (i as int) < jj < n as int implies #[trigger] ((jj - i - 1) % (
            wc as int)) < wc as int by {
                vstd::arithmetic::div_mod::lemma_mod_division_less_than_divisor(
                    jj - i - 1,
                    wc as int,
                );
            }
            assert forall|jj: int|
                (i as int) < jj < n as int implies red_row_ok(
                #[trigger] s1.m[jj],
                s1.m[i as int],
                i as int,
                n as int,
            ) && red_cell(s1.b[jj], s1.m[jj][i as int], s1.b[i as int]) is Some by {
                assert(red_row_ok(s1.m[jj], s1.m[i as int], i as int, n as int));
            }
            assert(step_ok(s1, i as int, n as int));
            let stp = step_state(s1, i as int, n as int);
            assert(data.st().m =~= stp.m);
            assert(data.st().b =~= stp.b);
        }
        i = i + 1;
    }
    Ok(())
}

/// The matrix model is square of size `n`.
pub open spec fn mat_shape(m: Seq<Seq<RatV>>, n: int) -> bool {
    &&& m.len() == n
    &&& forall|r: int| 0 <= r < n ==> (#[trigger] m[r]).len() == n
}

/// The first `i` columns are eliminated: every entry below the diagonal in
/// those columns is exactly zero, and each of their diagonal entries has the
/// value one.
pub open spec fn cleared_upto(m: Seq<Seq<RatV>>, i: int, n: int) -> bool {
    &&& forall|r: int, c: int| 0 <= c < i && c < r < n ==> #[trigger] m[r][c] == rv_zero()
    &&& forall|c: int| 0 <= c < i ==> rv_eq(#[trigger] m[c][c], rv_one())
}

/// The scan returns `n` or a row at or below its start whose scanned entry is
/// non-zero.
proof fn lemma_scan_bounds(m: Seq<Seq<RatV>>, i: int, r0: int, n: int)
    ensures
        scan_pivot(m, i, r0, n) == n || (r0 <= scan_pivot(m, i, r0, n) < n && m[scan_pivot(
            m,
            i,
            r0,
            n,
        )][i].n != 0),
    decreases n - r0,
{
    if r0 < 0 || r0 >= n {
    } else if m[r0][i].n != 0 {
    } else {
        lemma_scan_bounds(m, i, r0 + 1, n);
    }
}

/// Elimination from step `i` on preserves the shape and, once it succeeds,
/// leaves every column eliminated: each step clears its own column and never
/// touches the columns already cleared.
proof fn lemma_gauss_from_clears(s: SysState, i: int, n: int, f: SysState)
    requires
        0 <= i <= n,
        mat_shape(s.m, n),
        cleared_upto(s.m, i, n),
        gauss_from(s, i, n) == StepRes::Done(f),
    ensures
        mat_shape(f.m, n),
        cleared_upto(f.m, n, n),
    decreases n - i,
{
    if i >= n {
    } else {
        let ps = pivot_spec(s, i, n);
        let s1 = ps->Done_0;
        let irow = scan_pivot(s.m, i, i, n);
        lemma_scan_bounds(s.m, i, i, n);
        let sw = if irow != i {
            pivot_swap(s, i, irow)
        } else {
            s
        };
        assert forall|r: int| 0 <= r < n implies (#[trigger] sw.m[r]).len() == n by {
            if irow != i {
                if r == i || r == irow {
                    assert(sw.m[r].len() == n);
                }
            }
        }
        assert(mat_shape(sw.m, n));
        assert forall|r: int, c: int| 0 <= c < i && c < r < n implies #[trigger] sw.m[r][c]
            == rv_zero() by {
            if irow != i && (r == i || r == irow) {
                assert(sw.m[r][c] == s.m[r][c]);
            }
        }
        assert forall|c: int| 0 <= c < i implies rv_eq(#[trigger] sw.m[c][c], rv_one()) by {
            assert(sw.m[c] == s.m[c]);
        }
        assert(cleared_upto(sw.m, i, n));
        let p = sw.m[i][i];
        assert(mat_shape(s1.m, n) && cleared_upto(s1.m, i, n) && rv_eq(s1.m[i][i], rv_one())) by {
            if p.n == p.d {
                assert(s1 == sw);
            } else {
                let nr = norm_row(sw.m[i], p, i, n);
                assert(s1.m == sw.m.update(i, nr));
                assert(nr.len() == n);
                assert forall|r: int, c: int| 0 <= c < i && c < r < n implies #[trigger] s1.m[r][c]
                    == rv_zero() by {
                    if r == i {
                        assert(s1.m[i][c] == nr[c]);
                        assert(nr[c] == sw.m[i][c]);
                    }
                }
                assert forall|c: int| 0 <= c < i implies rv_eq(#[trigger] s1.m[c][c], rv_one()) by {
                    assert(s1.m[c] == sw.m[c]);
                }
                assert(s1.m[i][i] == nr[i] && nr[i] == rv_one());
            }
        }
        assert(step_ok(s1, i, n));
        let s2 = step_state(s1, i, n);
        assert(gauss_from(s2, i + 1, n) == StepRes::Done(f));
        assert forall|r: int| 0 <= r < n implies (#[trigger] s2.m[r]).len() == n by {
            if i < r < n {
                assert(s2.m[r] == red_row(s1.m[r], s1.m[i], i, n));
            } else {
                assert(s2.m[r] == s1.m[r]);
            }
        }
        assert(mat_shape(s2.m, n));
        assert forall|r: int, c: int| 0 <= c < i + 1 && c < r < n implies #[trigger] s2.m[r][c]
            == rv_zero() by {
            if i < r < n {
                assert(s2.m[r] == red_row(s1.m[r], s1.m[i], i, n));
                if c == i {
                    assert(s2.m[r][c] == rv_zero());
                } else {
                    assert(s2.m[r][c] == s1.m[r][c]);
                }
            } else {
                assert(s2.m[r] == s1.m[r]);
                assert(c < i);
            }
        }
        assert forall|c: int| 0 <= c < i + 1 implies rv_eq(#[trigger] s2.m[c][c], rv_one()) by {
            assert(s2.m[c] == s1.m[c]);
        }
        assert(cleared_upto(s2.m, i + 1, n));
        lemma_gauss_from_clears(s2, i + 1, n, f);
    }
}

/// After a successful elimination the matrix is upper-triangular: every
/// diagonal entry has the value one, and every entry below the diagonal is
/// exactly zero.
pub proof fn lemma_gauss_upper_triangular(s: SysState, n: int, f: SysState)
    requires
        mat_shape(s.m, n),
        gauss_spec(s, n) == StepRes::Done(f),
    ensures
        forall|i: int| 0 <= i < n ==> rv_eq(#[trigger] f.m[i][i], rv_one()),
        forall|i: int, j: int| 0 <= j < i < n ==> #[trigger] f.m[i][j] == rv_zero(),
{
    lemma_gauss_from_clears(s, 0, n, f);
}

/// A scan over rows whose scanned entries are all zero finds no pivot.
proof fn lemma_scan_all_zero(m: Seq<Seq<RatV>>, i: int, r0: int, n: int)
    requires
        forall|r: int| r0 <= r < n ==> #[trigger] m[r][i].n == 0,
    ensures
        scan_pivot(m, i, r0, n) == n,
    decreases n - r0,
{
    if r0 < 0 || r0 >= n {
    } else {
        lemma_scan_all_zero(m, i, r0 + 1, n);
    }
}

/// A system whose current elimination column is entirely zero is singular:
/// the first pivot step finds no usable pivot, so the elimination fails with
/// the singular outcome — and both eliminators return the singular error
/// exactly on that outcome, whatever the worker count.
pub proof fn lemma_zero_column_is_singular(s: SysState, n: int)
    requires
        n > 0,
        forall|r: int| 0 <= r < n ==> #[trigger] s.m[r][0].n == 0,
    ensures
        gauss_spec(s, n) is Singular,
{
    lemma_scan_all_zero(s.m, 0, 0, n);
}

/// The parallel eliminator computes the same elimination as the sequential
/// one: `gauss_spec` is a function of the starting state alone, so whenever
/// the two eliminators start from the same system and both succeed, their
/// final states (matrix, right-hand side, and permutation log) are identical,
/// for every worker count.
pub proof fn lemma_parallel_matches_sequential(s: SysState, n: int, st1: SysState, st2: SysState)
    requires
        gauss_spec(s, n) == StepRes::Done(st1),
        gauss_spec(s, n) == StepRes::Done(st2),
    ensures
        st1 == st2,
{
}

} // verus!
