//! The linear system: an n-by-n matrix of rationals, its right-hand side, the
//! row-permutation log, and the solution vectors, together with the builder
//! that populates a system of size n from the fixed deterministic formula
//! `matrix[i][j] = 2 * (min(i, j) + 1)`.

use vstd::prelude::*;

use crate::rational::{rv_wf, rv_zero, Rat, RatV};

verus! {

broadcast use {
    crate::views::lemma_rvec_view_len,
    crate::views::lemma_rvec_view_index,
    crate::views::lemma_mat_view_len,
    crate::views::lemma_mat_view_index,
};

/// Mathematical model of the mutable part of a system: matrix, right-hand
/// side, and permutation log.
pub ghost struct SysState {
    pub m: Seq<Seq<RatV>>,
    pub b: Seq<RatV>,
    pub swap: Seq<u64>,
}

/// The matrix model is square of size `n` with well-formed entries.
pub open spec fn mat_wf(m: Seq<Seq<RatV>>, n: int) -> bool {
    &&& m.len() == n
    &&& forall|i: int| 0 <= i < n ==> (#[trigger] m[i]).len() == n
    &&& forall|i: int, j: int| 0 <= i < n && 0 <= j < n ==> rv_wf(#[trigger] m[i][j])
}

/// A vector model has length `n` and well-formed entries.
pub open spec fn rvec_wf(s: Seq<RatV>, n: int) -> bool {
    &&& s.len() == n
    &&& forall|i: int| 0 <= i < n ==> rv_wf(#[trigger] s[i])
}

/// The permutation log holds a permutation of `0 .. n-1`.
pub open spec fn perm_wf(s: Seq<u64>, n: int) -> bool {
    &&& s.len() == n
    &&& forall|i: int| 0 <= i < n ==> (#[trigger] s[i]) < n
    &&& forall|i: int, j: int|
        0 <= i < n && 0 <= j < n && i != j ==> #[trigger] s[i] != #[trigger] s[j]
}

/// Well-formedness of a system state model.
pub open spec fn st_wf(s: SysState, n: int) -> bool {
    mat_wf(s.m, n) && rvec_wf(s.b, n) && perm_wf(s.swap, n)
}

/// The linear system `A . x = b`, mutated in place by elimination and read by
/// back substitution and verification.
#[derive(Debug)]
pub struct Data {
    /// Size n of the system; fixed for its lifetime.
    pub nsize: usize,
    /// The n-by-n coefficient matrix, row-major.
    pub matrix: Vec<Vec<Rat>>,
    /// The right-hand side, co-mutated with `matrix`.
    pub b: Vec<Rat>,
    /// The externally observable final answer, filled by back substitution.
    pub c: Vec<Rat>,
    /// The working solution vector, filled by back substitution.
    pub v: Vec<Rat>,
    /// The permutation log: which original row occupies each position.
    pub swap: Vec<u64>,
    /// Worker count for the parallel elimination mode.
    pub num_threads: usize,
}

impl Data {
    /// The model of the parts that elimination mutates.
    pub open spec fn st(&self) -> SysState {
        SysState { m: self.matrix.deep_view(), b: self.b.deep_view(), swap: self.swap@ }
    }

    /// The system size as a mathematical integer.
    pub open spec fn n(&self) -> int {
        self.nsize as int
    }

    /// Well-formedness: a populated square system of size at least 2, inside
    /// the machine bound that keeps every index and builder value in range.
    pub open spec fn wf(&self) -> bool {
        &&& 2 <= self.nsize < 0x4000_0000
        &&& st_wf(self.st(), self.n())
        &&& rvec_wf(self.c.deep_view(), self.n())
        &&& rvec_wf(self.v.deep_view(), self.n())
    }
}

/// A work descriptor for one elimination step of a system of size `nsize`:
/// `index` is the pivot step whose row reductions are being dispatched.
pub struct Message {
    pub nsize: usize,
    pub index: usize,
}

/// The deterministic builder formula: `2 * (min(i, j) + 1)` as a rational.
pub open spec fn build_cell(i: int, j: int) -> RatV {
    RatV { n: 2 * ((if j < i { j } else { i }) + 1), d: 1 }
}

/// The matrix is populated by the builder formula.
pub open spec fn built_matrix(m: Seq<Seq<RatV>>, n: int) -> bool {
    forall|i: int, j: int| 0 <= i < n && 0 <= j < n ==> #[trigger] m[i][j] == build_cell(i, j)
}

/// The non-matrix vectors hold their initial values: `b[i] = i`, the
/// permutation log is the identity, and both solution vectors are zero.
pub open spec fn built_vectors(s: SysState, c: Seq<RatV>, v: Seq<RatV>, n: int) -> bool {
    &&& forall|i: int| 0 <= i < n ==> #[trigger] s.b[i] == (RatV { n: i, d: 1 })
    &&& forall|i: int| 0 <= i < n ==> #[trigger] s.swap[i] == i
    &&& forall|i: int| 0 <= i < n ==> #[trigger] c[i] == rv_zero()
    &&& forall|i: int| 0 <= i < n ==> #[trigger] v[i] == rv_zero()
}

/// Pushes the initial entries for each row index: a row of zeros into the
/// matrix, `i` into the right-hand side and the permutation log, and zeros
/// into both solution vectors. A thread-parallel builder calls this once and
/// then hands each worker its rows of `init_fill_rows`.
pub fn init_allocate(data: &mut Data)
    requires
        old(data).matrix@.len() == 0,
        old(data).b@.len() == 0,
        old(data).c@.len() == 0,
        old(data).v@.len() == 0,
        old(data).swap@.len() == 0,
        2 <= old(data).nsize < 0x4000_0000,
    ensures
        final(data).wf(),
        final(data).nsize == old(data).nsize,
        final(data).num_threads == old(data).num_threads,
        built_vectors(final(data).st(), final(data).c.deep_view(), final(data).v.deep_view(),
            final(data).n()),
        forall|i: int, j: int|
            0 <= i < final(data).n() && 0 <= j < final(data).n()
                ==> #[trigger] final(data).st().m[i][j] == rv_zero(),
{
    let n = data.nsize;
    for i in 0..n
        invariant
            data.nsize == n,
            data.num_threads == old(data).num_threads,
            2 <= n < 0x4000_0000,
            data.matrix@.len() == i,
            data.b@.len() == i,
            data.c@.len() == i,
            data.v@.len() == i,
            data.swap@.len() == i,
            forall|r: int| 0 <= r < i ==> (#[trigger] data.matrix.deep_view()[r]).len() == n,
            forall|r: int, j: int|
                0 <= r < i && 0 <= j < n ==> #[trigger] data.matrix.deep_view()[r][j]
                    == rv_zero(),
            forall|r: int| 0 <= r < i ==> #[trigger] data.b.deep_view()[r] == (RatV { n: r, d: 1 }),
            forall|r: int| 0 <= r < i ==> #[trigger] data.swap@[r] == r,
            forall|r: int| 0 <= r < i ==> #[trigger] data.c.deep_view()[r] == rv_zero(),
            forall|r: int| 0 <= r < i ==> #[trigger] data.v.deep_view()[r] == rv_zero(),
    {
        let mut row: Vec<Rat> = Vec::new();
        for j in 0..n
            invariant
                row@.len() == j,
                forall|k: int| 0 <= k < j ==> #[trigger] row.deep_view()[k] == rv_zero(),
        {
            row.push(Rat::zero());
        }
        data.matrix.push(row);
        data.b.push(Rat::from_i64(i as i64));
        data.swap.push(i as u64);
        data.c.push(Rat::zero());
        data.v.push(Rat::zero());
    }
}

/// Fills the matrix rows assigned to worker `w` out of `wc` (rows `w`,
/// `w + wc`, `w + 2 wc`, ...) with the builder formula; everything else is
/// left unchanged. `init` calls it for the single worker 0; a thread-parallel
/// driver may call it once per worker, since distinct workers write disjoint
/// rows.
pub fn init_fill_rows(data: &mut Data, w: usize, wc: usize)
    requires
        old(data).wf(),
        w < wc,
        wc <= 0x4000_0000,
    ensures
        final(data).wf(),
        final(data).nsize == old(data).nsize,
        final(data).num_threads == old(data).num_threads,
        final(data).b == old(data).b,
        final(data).c == old(data).c,
        final(data).v == old(data).v,
        final(data).swap == old(data).swap,
        forall|i: int, j: int|
            0 <= i < final(data).n() && 0 <= j < final(data).n()
                ==> #[trigger] final(data).st().m[i][j] == (if i % (wc as int) == w as int {
                build_cell(i, j)
            } else {
                old(data).st().m[i][j]
            }),
{
    let n = data.nsize;
    proof {
        vstd::arithmetic::div_mod::lemma_small_mod(w as nat, wc as nat);
        assert forall|r: int| 0 <= r < w as int implies #[trigger] (r % (wc as int)) == r by {
            vstd::arithmetic::div_mod::lemma_small_mod(r as nat, wc as nat);
        }
    }
    let mut i = w;
    while i < n
        invariant
            data.wf(),
            data.nsize == n,
            data.num_threads == old(data).num_threads,
            data.b == old(data).b,
            data.c == old(data).c,
            data.v == old(data).v,
            data.swap == old(data).swap,
            w < wc <= 0x4000_0000,
            i % wc == w,
            i <= n + wc,
            w <= i,
            forall|r: int, j: int|
                0 <= r < n as int && 0 <= j < n as int
                    ==> #[trigger] data.st().m[r][j] == (if r % (wc as int) == w as int && r
                    < i as int {
                    build_cell(r, j)
                } else {
                    old(data).st().m[r][j]
                }),
        decreases n + wc - i,
    {
        for j in 0..n
            invariant
                data.wf(),
                data.nsize == n,
                data.num_threads == old(data).num_threads,
                data.b == old(data).b,
                data.c == old(data).c,
                data.v == old(data).v,
                data.swap == old(data).swap,
                w < wc <= 0x4000_0000,
                i % wc == w,
                w <= i < n,
                forall|r: int, jj: int|
                    0 <= r < n as int && 0 <= jj < n as int && r != i as int
                        ==> #[trigger] data.st().m[r][jj] == (if r % (wc as int) == w as int && r
                        < i as int {
                        build_cell(r, jj)
                    } else {
                        old(data).st().m[r][jj]
                    }),
                forall|jj: int|
                    0 <= jj < j as int ==> #[trigger] data.st().m[i as int][jj] == build_cell(
                        i as int, jj),
                forall|jj: int|
                    j as int <= jj < n as int ==> #[trigger] data.st().m[i as int][jj] == old(
                    data).st().m[i as int][jj],
        {
            let low = if j < i {
                j
            } else {
                i
            };
            let val = Rat::from_i64(2 * (low as i64 + 1));
            data.matrix[i].set(j, val);
        }
        proof {
            vstd::arithmetic::div_mod::lemma_mod_add_multiples_vanish(i as int, wc as int);
            assert forall|r: int| (i as int) < r && r < (i as int) + (wc as int) implies #[trigger] (r % (
            wc as int)) != w as int by {
                let t = r - i as int;
                vstd::arithmetic::div_mod::lemma_add_mod_noop(i as int, t, wc as int);
                vstd::arithmetic::div_mod::lemma_small_mod(t as nat, wc as nat);
                if w as int + t < wc as int {
                    vstd::arithmetic::div_mod::lemma_small_mod((w as int + t) as nat, wc as nat);
                } else {
                    vstd::arithmetic::div_mod::lemma_mod_sub_multiples_vanish(
                        w as int + t, wc as int);
                    vstd::arithmetic::div_mod::lemma_small_mod((w as int + t - wc as int) as nat,
                        wc as nat);
                }
            }
        }
        i = i + wc;
    }
}

/// Populates the system: pushes the initial vectors and fills the matrix with
/// the builder formula. The matrix is symmetric with `2 * (i + 1)` on the
/// diagonal, which guarantees a unique, non-singular solution for any size.
pub fn init(data: &mut Data)
    requires
        old(data).matrix@.len() == 0,
        old(data).b@.len() == 0,
        old(data).c@.len() == 0,
        old(data).v@.len() == 0,
        old(data).swap@.len() == 0,
        2 <= old(data).nsize < 0x4000_0000,
    ensures
        final(data).wf(),
        final(data).nsize == old(data).nsize,
        final(data).num_threads == old(data).num_threads,
        built_matrix(final(data).st().m, final(data).n()),
        built_vectors(final(data).st(), final(data).c.deep_view(), final(data).v.deep_view(),
            final(data).n()),
{
    init_allocate(data);
    init_fill_rows(data, 0, 1);
}

/// Populates the system with the round-robin worker schedule: after the
/// initial vectors are pushed, each of the `wc` workers in turn fills its own
/// disjoint rows. Every row index falls to exactly one worker, so the result
/// is the same built system that `init` produces, for every worker count; a
/// thread-parallel driver may run the fills concurrently instead.
pub fn init_parallel(data: &mut Data, wc: usize)
    requires
        old(data).matrix@.len() == 0,
        old(data).b@.len() == 0,
        old(data).c@.len() == 0,
        old(data).v@.len() == 0,
        old(data).swap@.len() == 0,
        2 <= old(data).nsize < 0x4000_0000,
        1 <= wc <= 0x4000_0000,
    ensures
        final(data).wf(),
        final(data).nsize == old(data).nsize,
        final(data).num_threads == old(data).num_threads,
        built_matrix(final(data).st().m, final(data).n()),
        built_vectors(final(data).st(), final(data).c.deep_view(), final(data).v.deep_view(),
            final(data).n()),
{
    init_allocate(data);
    let ghost a0 = data.st();
    let ghost ac = data.c;
    let ghost av = data.v;
    let n = data.nsize;
    let mut w: usize = 0;
    while w < wc
        invariant
            w <= wc,
            1 <= wc <= 0x4000_0000,
            data.wf(),
            data.nsize == n,
            data.num_threads == old(data).num_threads,
            data.st().b == a0.b,
            data.st().swap == a0.swap,
            data.c == ac,
            data.v == av,
            built_vectors(
                SysState { m: data.st().m, b: a0.b, swap: a0.swap },
                ac.deep_view(),
                av.deep_view(),
                n as int,
            ),
            forall|i: int, j: int|
                0 <= i < n as int && 0 <= j < n as int ==> #[trigger] data.st().m[i][j] == (if i % (
                wc as int) < w as int {
                    build_cell(i, j)
                } else {
                    a0.m[i][j]
                }),
        decreases wc - w,
    {
        init_fill_rows(data, w, wc);
        w = w + 1;
    }
    proof {
        assert forall|i: int| 0 <= i < n as int implies #[trigger] (i % (wc as int)) < wc as int by {
            vstd::arithmetic::div_mod::lemma_mod_division_less_than_divisor(i, wc as int);
        }
    }
}

/// The built matrix is symmetric, and its diagonal entry at `i` is
/// `2 * (i + 1)`: the law that every system the builder populates satisfies.
pub proof fn lemma_built_matrix_symmetric(m: Seq<Seq<RatV>>, n: int)
    requires
        built_matrix(m, n),
    ensures
        forall|i: int, j: int| 0 <= i < n && 0 <= j < n ==> #[trigger] m[i][j] == m[j][i],
        forall|i: int| 0 <= i < n ==> #[trigger] m[i][i] == (RatV { n: 2 * (i + 1), d: 1 }),
{
    assert forall|i: int, j: int| 0 <= i < n && 0 <= j < n implies #[trigger] m[i][j]
        == m[j][i] by {
        assert(m[i][j] == build_cell(i, j));
        assert(m[j][i] == build_cell(j, i));
    }
    assert forall|i: int| 0 <= i < n implies #[trigger] m[i][i] == (RatV {
        n: 2 * (i + 1),
        d: 1,
    }) by {
        assert(m[i][i] == build_cell(i, i));
    }
}

} // verus!


