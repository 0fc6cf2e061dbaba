//! Verification of a solved system against the values that the deterministic
//! builder guarantees.
//!
//! With exact rational arithmetic an absolute tolerance collapses to exact
//! value equality: a computed entry either denotes the expected rational or
//! the comparison fails.

use vstd::prelude::*;

use crate::rational::{rv_eq, rv_zero, RatV};
use crate::system::Data;

verus! {

broadcast use {
    crate::views::lemma_rvec_view_len,
    crate::views::lemma_rvec_view_index,
    crate::views::lemma_mat_view_len,
    crate::views::lemma_mat_view_index,
};

/// The value one half, the right-hand-side entry that elimination of a built
/// system produces everywhere but in the first row.
pub open spec fn rv_half() -> RatV {
    RatV { n: 1, d: 2 }
}

/// The value minus one half, the first result entry for systems larger than
/// three.
pub open spec fn rv_neg_half() -> RatV {
    RatV { n: -1, d: 2 }
}

/// The expected values at index `i` of a solved system larger than three:
/// `b[0] = 0` and `c[0] = -1/2`; `c[i] = 1/2` at the third-to-last and last
/// indices; everywhere else `b[i] = 1/2` and `c[i] = 0`.
pub open spec fn expected_entry(b: Seq<RatV>, c: Seq<RatV>, n: int, i: int) -> bool {
    if i == 0 {
        rv_eq(b[0], rv_zero()) && rv_eq(c[0], rv_neg_half())
    } else if i == n - 3 || i == n - 1 {
        rv_eq(c[i], rv_half())
    } else {
        rv_eq(b[i], rv_half()) && rv_eq(c[i], rv_zero())
    }
}

/// The verifier's acceptance condition: hard-coded expected vectors for sizes
/// two and three, and the generalized pattern for larger systems.
pub open spec fn expected_ok(b: Seq<RatV>, c: Seq<RatV>, n: int) -> bool {
    if n == 2 {
        &&& rv_eq(b[0], rv_zero())
        &&& rv_eq(b[1], rv_half())
        &&& rv_eq(c[0], rv_zero())
        &&& rv_eq(c[1], rv_half())
    } else if n == 3 {
        &&& rv_eq(b[0], rv_zero())
        &&& rv_eq(b[1], rv_half())
        &&& rv_eq(b[2], rv_half())
        &&& rv_eq(c[0], rv_zero())
        &&& rv_eq(c[1], rv_zero())
        &&& rv_eq(c[2], rv_half())
    } else {
        forall|i: int| 0 <= i < n ==> #[trigger] expected_entry(b, c, n, i)
    }
}

/// Checks the solved system against the expected values. The system is only
/// read, and the result is a function of the right-hand side and the result
/// vector alone, so running the verifier again on an already-verified system
/// mutates nothing and returns the same outcome.
pub fn verify(data: &Data) -> (r: bool)
    requires
        data.wf(),
    ensures
        r == expected_ok(data.st().b, data.c.deep_view(), data.n()),
{
    let n = data.nsize;
    if n == 2 {
        let r = data.b[0].has_value(0, 1) && data.b[1].has_value(1, 2) && data.c[0].has_value(
            0,
            1,
        ) && data.c[1].has_value(1, 2);
        proof {
            assert(data.b@[0]@ == data.st().b[0]);
            assert(data.b@[1]@ == data.st().b[1]);
            assert(data.c@[0]@ == data.c.deep_view()[0]);
            assert(data.c@[1]@ == data.c.deep_view()[1]);
        }
        r
    } else if n == 3 {
        let r = data.b[0].has_value(0, 1) && data.b[1].has_value(1, 2) && data.b[2].has_value(
            1,
            2,
        ) && data.c[0].has_value(0, 1) && data.c[1].has_value(0, 1) && data.c[2].has_value(1, 2);
        proof {
            assert(data.b@[0]@ == data.st().b[0]);
            assert(data.b@[1]@ == data.st().b[1]);
            assert(data.b@[2]@ == data.st().b[2]);
            assert(data.c@[0]@ == data.c.deep_view()[0]);
            assert(data.c@[1]@ == data.c.deep_view()[1]);
            assert(data.c@[2]@ == data.c.deep_view()[2]);
        }
        r
    } else {
        let mut i: usize = 0;
        while i < n
            invariant
                i <= n,
                data.wf(),
                n == data.nsize,
                3 < n,
                forall|r: int|
                    0 <= r < i as int ==> #[trigger] expected_entry(
                        data.st().b,
                        data.c.deep_view(),
                        n as int,
                        r,
                    ),
            decreases n - i,
        {
            let ok = if i == 0 {
                data.b[0].has_value(0, 1) && data.c[0].has_value(-1, 2)
            } else if i == n - 3 || i == n - 1 {
                data.c[i].has_value(1, 2)
            } else {
                data.b[i].has_value(1, 2) && data.c[i].has_value(0, 1)
            };
            proof {
                assert(data.b@[i as int]@ == data.st().b[i as int]);
                assert(data.c@[i as int]@ == data.c.deep_view()[i as int]);
            }
            if !ok {
                proof {
                    assert(!expected_entry(data.st().b, data.c.deep_view(), n as int, i as int));
                }
                return false;
            }
            i = i + 1;
        }
        true
    }
}

} // verus!