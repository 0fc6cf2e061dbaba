//! Exact rational arithmetic for the elimination engine.
//!
//! A `Rat` is a fraction of two `i64`s with a positive denominator. Every
//! operation reduces its result by the greatest common divisor of numerator
//! and denominator and reports overflow instead of wrapping, so a chain of
//! eliminations either returns exact values or fails loudly.

use vstd::prelude::*;

verus! {

/// Mathematical model of a stored rational: a numerator/denominator pair of
/// unbounded integers.
pub ghost struct RatV {
    pub n: int,
    pub d: int,
}

/// A stored rational is well formed when its denominator is positive and both
/// components fit the symmetric `i64` range (`i64::MIN` is excluded so that
/// negation never overflows).
pub open spec fn rv_wf(a: RatV) -> bool {
    1 <= a.d <= i64::MAX && -i64::MAX <= a.n <= i64::MAX
}

pub open spec fn rv_zero() -> RatV {
    RatV { n: 0, d: 1 }
}

pub open spec fn rv_one() -> RatV {
    RatV { n: 1, d: 1 }
}

/// Two pairs denote the same rational value: cross multiplication.
pub open spec fn rv_eq(a: RatV, b: RatV) -> bool {
    a.n * b.d == b.n * a.d
}

pub open spec fn iabs(n: int) -> nat {
    if n < 0 {
        (-n) as nat
    } else {
        n as nat
    }
}

/// Euclid's greatest common divisor.
pub open spec fn gcd(a: nat, b: nat) -> nat
    decreases b,
{
    if b == 0 {
        a
    } else {
        gcd(b, a % b)
    }
}

/// The reduced, sign-normalized pair denoting `n / d`: the denominator is made
/// positive and both components are divided by their greatest common divisor.
pub open spec fn rv_norm(n: int, d: int) -> RatV
    recommends
        d != 0,
{
    let neg = (n < 0) != (d < 0);
    let na = iabs(n);
    let da = iabs(d);
    let g = gcd(na, da);
    let qn = na as int / g as int;
    let qd = da as int / g as int;
    RatV { n: if neg { -qn } else { qn }, d: qd }
}

/// The reduced pair fits the machine representation.
pub open spec fn rv_fits(a: RatV) -> bool {
    rv_wf(a)
}

/// Checked multiplication over the model: the reduced product, or `None` when
/// it exceeds the machine range.
pub open spec fn rv_mul_ck(a: RatV, b: RatV) -> Option<RatV> {
    let r = rv_norm(a.n * b.n, a.d * b.d);
    if rv_fits(r) {
        Some(r)
    } else {
        None
    }
}

/// Checked subtraction over the model.
pub open spec fn rv_sub_ck(a: RatV, b: RatV) -> Option<RatV> {
    let r = rv_norm(a.n * b.d - b.n * a.d, a.d * b.d);
    if rv_fits(r) {
        Some(r)
    } else {
        None
    }
}

/// Checked division over the model.
pub open spec fn rv_div_ck(a: RatV, b: RatV) -> Option<RatV>
    recommends
        b.n != 0,
{
    let r = rv_norm(a.n * b.d, a.d * b.n);
    if rv_fits(r) {
        Some(r)
    } else {
        None
    }
}

/// An exact rational number: `num / den` with `den >= 1`.
#[derive(Clone, Copy, Debug)]
pub struct Rat {
    num: i64,
    den: i64,
}

impl View for Rat {
    type V = RatV;

    closed spec fn view(&self) -> RatV {
        RatV { n: self.num as int, d: self.den as int }
    }
}

impl DeepView for Rat {
    type V = RatV;

    open spec fn deep_view(&self) -> RatV {
        self.view()
    }
}

/// The view of an optional rational.
pub open spec fn opt_v(r: Option<Rat>) -> Option<RatV> {
    match r {
        Some(x) => Some(x@),
        None => None,
    }
}

/// The product of two well-formed components is bounded by `i64::MAX` squared.
proof fn lemma_wf_prod_bound(x: int, y: int)
    requires
        -0x7fff_ffff_ffff_ffff <= x <= 0x7fff_ffff_ffff_ffff,
        -0x7fff_ffff_ffff_ffff <= y <= 0x7fff_ffff_ffff_ffff,
    ensures
        -0x3fff_ffff_ffff_ffff_0000_0000_0000_0001 <= x * y
            <= 0x3fff_ffff_ffff_ffff_0000_0000_0000_0001,
{
    assert(-0x3fff_ffff_ffff_ffff_0000_0000_0000_0001 <= x * y
        <= 0x3fff_ffff_ffff_ffff_0000_0000_0000_0001) by (nonlinear_arith)
        requires
            -0x7fff_ffff_ffff_ffff <= x <= 0x7fff_ffff_ffff_ffff,
            -0x7fff_ffff_ffff_ffff <= y <= 0x7fff_ffff_ffff_ffff,
    ;
}

/// The product of two positive integers is positive.
proof fn lemma_pos_prod(x: int, y: int)
    requires
        x >= 1,
        y >= 1,
    ensures
        x * y >= 1,
{
    assert(x * y >= 1) by (nonlinear_arith)
        requires
            x >= 1,
            y >= 1,
    ;
}

/// The product of two non-zero integers is non-zero.
proof fn lemma_nonzero_prod(x: int, y: int)
    requires
        x != 0,
        y != 0,
    ensures
        x * y != 0,
{
    assert(x * y != 0) by (nonlinear_arith)
        requires
            x != 0,
            y != 0,
    ;
}

/// The product of two integers of `i64` magnitude stays far inside `i128`.
proof fn lemma_prod_bound(x: int, y: int)
    requires
        -0x8000_0000_0000_0000 <= x <= 0x8000_0000_0000_0000,
        -0x8000_0000_0000_0000 <= y <= 0x8000_0000_0000_0000,
    ensures
        -0x4000_0000_0000_0000_0000_0000_0000_0000 <= x * y
            <= 0x4000_0000_0000_0000_0000_0000_0000_0000,
{
    assert(-0x4000_0000_0000_0000_0000_0000_0000_0000 <= x * y
        <= 0x4000_0000_0000_0000_0000_0000_0000_0000) by (nonlinear_arith)
        requires
            -0x8000_0000_0000_0000 <= x <= 0x8000_0000_0000_0000,
            -0x8000_0000_0000_0000 <= y <= 0x8000_0000_0000_0000,
    ;
}

proof fn lemma_gcd_pos(a: nat, b: nat)
    requires
        a > 0 || b > 0,
    ensures
        gcd(a, b) >= 1,
    decreases b,
{
    if b == 0 {
    } else if a % b == 0 {
        assert(gcd(a, b) == gcd(b, 0));
    } else {
        lemma_gcd_pos(b, a % b);
    }
}

/// Euclid's algorithm yields a common divisor of its arguments.
proof fn lemma_gcd_divides(a: nat, b: nat)
    requires
        a > 0 || b > 0,
    ensures
        a % gcd(a, b) == 0,
        b % gcd(a, b) == 0,
    decreases b,
{
    lemma_gcd_pos(a, b);
    if b == 0 {
        vstd::arithmetic::div_mod::lemma_mod_self_0(a as int);
        vstd::arithmetic::div_mod::lemma_small_mod(0, a);
    } else {
        lemma_gcd_divides(b, a % b);
        let g = gcd(b, a % b) as int;
        let ai = a as int;
        let bi = b as int;
        vstd::arithmetic::div_mod::lemma_fundamental_div_mod(ai, bi);
        vstd::arithmetic::div_mod::lemma_fundamental_div_mod(bi, g);
        let q = ai / bi;
        let k = bi / g;
        assert(bi == g * k);
        assert(bi * q == (k * q) * g) by (nonlinear_arith)
            requires
                bi == g * k,
        ;
        vstd::arithmetic::div_mod::lemma_mod_multiples_basic(k * q, g);
        vstd::arithmetic::div_mod::lemma_add_mod_noop(bi * q, ai % bi, g);
        vstd::arithmetic::div_mod::lemma_small_mod(0, g as nat);
        assert(ai == bi * q + ai % bi);
        assert(ai % g == 0);
    }
}

/// Reduction is sound: the reduced, sign-normalized pair denotes the same
/// rational value as the raw pair it was built from.
pub proof fn lemma_norm_preserves_value(n: int, d: int)
    requires
        d != 0,
    ensures
        rv_eq(rv_norm(n, d), RatV { n: n, d: d }),
{
    let na = iabs(n);
    let da = iabs(d);
    lemma_gcd_divides(na, da);
    lemma_gcd_pos(na, da);
    let g = gcd(na, da) as int;
    let qn = na as int / g;
    let qd = da as int / g;
    vstd::arithmetic::div_mod::lemma_fundamental_div_mod(na as int, g);
    vstd::arithmetic::div_mod::lemma_fundamental_div_mod(da as int, g);
    assert(na as int == g * qn && da as int == g * qd);
    assert(qn * (da as int) == (na as int) * qd) by (nonlinear_arith)
        requires
            na as int == g * qn,
            da as int == g * qd,
    ;
    let r = rv_norm(n, d);
    if n >= 0 && d > 0 {
        assert(na as int == n);
        assert(da as int == d);
        assert(r.n == qn);
        assert(r.d == qd);
        assert(r.n * d == n * r.d) by (nonlinear_arith)
            requires
                r.n == qn,
                r.d == qd,
                na as int == n,
                da as int == d,
                qn * (da as int) == (na as int) * qd,
        ;
    } else if n < 0 && d > 0 {
        assert(r.n * d == n * r.d) by (nonlinear_arith)
            requires
                r.n == -qn,
                r.d == qd,
                na as int == -n,
                da as int == d,
                qn * (da as int) == (na as int) * qd,
        ;
    } else if n >= 0 && d < 0 {
        assert(r.n * d == n * r.d) by (nonlinear_arith)
            requires
                r.n == -qn,
                r.d == qd,
                na as int == n,
                da as int == -d,
                qn * (da as int) == (na as int) * qd,
        ;
    } else {
        assert(r.n * d == n * r.d) by (nonlinear_arith)
            requires
                r.n == qn,
                r.d == qd,
                na as int == -n,
                da as int == -d,
                qn * (da as int) == (na as int) * qd,
        ;
    }
}

fn gcd_u128(a: u128, b: u128) -> (g: u128)
    ensures
        g == gcd(a as nat, b as nat),
    decreases b,
{
    if b == 0 {
        a
    } else {
        gcd_u128(b, a % b)
    }
}

/// Builds the reduced, sign-normalized rational denoting `rn / rd`, or `None`
/// when the reduced pair exceeds the `i64` range.
fn rat_make(rn: i128, rd: i128) -> (r: Option<Rat>)
    requires
        rd != 0,
        rn != i128::MIN,
        rd != i128::MIN,
    ensures
        opt_v(r) == (if rv_fits(rv_norm(rn as int, rd as int)) {
            Some(rv_norm(rn as int, rd as int))
        } else {
            None::<RatV>
        }),
        r is Some ==> r.unwrap().wf(),
{
    let neg: bool = (rn < 0) != (rd < 0);
    let na: u128 = if rn < 0 {
        (-rn) as u128
    } else {
        rn as u128
    };
    let da: u128 = if rd < 0 {
        (-rd) as u128
    } else {
        rd as u128
    };
    proof {
        lemma_gcd_pos(na as nat, da as nat);
    }
    let g: u128 = gcd_u128(na, da);
    let qn: u128 = na / g;
    let qd: u128 = da / g;
    if qn <= i64::MAX as u128 && 1 <= qd && qd <= i64::MAX as u128 {
        let num: i64 = if neg {
            -(qn as i64)
        } else {
            qn as i64
        };
        Some(Rat { num, den: qd as i64 })
    } else {
        None
    }
}

impl Rat {
    /// The stored pair is well formed.
    pub open spec fn wf(&self) -> bool {
        rv_wf(self@)
    }

    /// The rational zero.
    pub fn zero() -> (r: Rat)
        ensures
            r@ == rv_zero(),
            r.wf(),
    {
        Rat { num: 0, den: 1 }
    }

    /// The rational one.
    pub fn one() -> (r: Rat)
        ensures
            r@ == rv_one(),
            r.wf(),
    {
        Rat { num: 1, den: 1 }
    }

    /// The integer `v` as a rational.
    pub fn from_i64(v: i64) -> (r: Rat)
        requires
            v != i64::MIN,
        ensures
            r@ == (RatV { n: v as int, d: 1 }),
            r.wf(),
    {
        Rat { num: v, den: 1 }
    }

    /// The reduced rational denoting `num / den`, or `None` when `den` is zero
    /// or the reduced pair exceeds the `i64` range.
    pub fn new_frac(num: i64, den: i64) -> (r: Option<Rat>)
        requires
            num != i64::MIN,
            den != i64::MIN,
        ensures
            den == 0 ==> r is None,
            den != 0 ==> opt_v(r) == (if rv_fits(rv_norm(num as int, den as int)) {
                Some(rv_norm(num as int, den as int))
            } else {
                None::<RatV>
            }),
            r is Some ==> r.unwrap().wf(),
    {
        if den == 0 {
            None
        } else {
            rat_make(num as i128, den as i128)
        }
    }

    /// The stored numerator.
    pub fn num(&self) -> (r: i64)
        ensures
            r == self@.n,
    {
        self.num
    }

    /// The stored denominator.
    pub fn den(&self) -> (r: i64)
        ensures
            r == self@.d,
    {
        self.den
    }

    /// Whether this rational denotes the value `num / den`.
    pub fn has_value(&self, num: i64, den: i64) -> (r: bool)
        ensures
            r == rv_eq(self@, RatV { n: num as int, d: den as int }),
    {
        proof {
            lemma_prod_bound(self.num as int, den as int);
            lemma_prod_bound(num as int, self.den as int);
        }
        (self.num as i128) * (den as i128) == (num as i128) * (self.den as i128)
    }

    /// Whether this rational equals `other` as a value.
    pub fn eq_value(&self, other: &Rat) -> (r: bool)
        ensures
            r == rv_eq(self@, other@),
    {
        proof {
            lemma_prod_bound(self.num as int, other.den as int);
            lemma_prod_bound(other.num as int, self.den as int);
        }
        (self.num as i128) * (other.den as i128) == (other.num as i128) * (self.den as i128)
    }

    /// Whether this rational is the value zero.
    pub fn is_zero(&self) -> (r: bool)
        ensures
            r == (self@.n == 0),
    {
        self.num == 0
    }

    /// Checked multiplication: the reduced product, or `None` when it exceeds
    /// the `i64` range.
    pub fn checked_mul(&self, other: &Rat) -> (r: Option<Rat>)
        requires
            self.wf(),
            other.wf(),
        ensures
            opt_v(r) == rv_mul_ck(self@, other@),
            r is Some ==> r.unwrap().wf(),
            r is Some ==> rv_eq(
                r.unwrap()@,
                RatV { n: self@.n * other@.n, d: self@.d * other@.d },
            ),
    {
        proof {
            lemma_wf_prod_bound(self.num as int, other.num as int);
            lemma_pos_prod(self.den as int, other.den as int);
            lemma_wf_prod_bound(self.den as int, other.den as int);
        }
        let rn: i128 = (self.num as i128) * (other.num as i128);
        let rd: i128 = (self.den as i128) * (other.den as i128);
        let res = rat_make(rn, rd);
        proof {
            lemma_norm_preserves_value(rn as int, rd as int);
        }
        res
    }

    /// Checked subtraction: the reduced difference, or `None` when it exceeds
    /// the `i64` range.
    pub fn checked_sub(&self, other: &Rat) -> (r: Option<Rat>)
        requires
            self.wf(),
            other.wf(),
        ensures
            opt_v(r) == rv_sub_ck(self@, other@),
            r is Some ==> r.unwrap().wf(),
            r is Some ==> rv_eq(
                r.unwrap()@,
                RatV { n: self@.n * other@.d - other@.n * self@.d, d: self@.d * other@.d },
            ),
    {
        proof {
            lemma_wf_prod_bound(self.num as int, other.den as int);
            lemma_wf_prod_bound(other.num as int, self.den as int);
            lemma_pos_prod(self.den as int, other.den as int);
            lemma_wf_prod_bound(self.den as int, other.den as int);
        }
        let rn: i128 = (self.num as i128) * (other.den as i128) - (other.num as i128) * (
        self.den as i128);
        let rd: i128 = (self.den as i128) * (other.den as i128);
        let res = rat_make(rn, rd);
        proof {
            lemma_norm_preserves_value(rn as int, rd as int);
        }
        res
    }

    /// Checked division: the reduced quotient, or `None` when it exceeds the
    /// `i64` range. The divisor must be non-zero.
    pub fn checked_div(&self, other: &Rat) -> (r: Option<Rat>)
        requires
            self.wf(),
            other.wf(),
            other@.n != 0,
        ensures
            opt_v(r) == rv_div_ck(self@, other@),
            r is Some ==> r.unwrap().wf(),
            r is Some ==> rv_eq(
                r.unwrap()@,
                RatV { n: self@.n * other@.d, d: self@.d * other@.n },
            ),
    {
        proof {
            lemma_wf_prod_bound(self.num as int, other.den as int);
            lemma_nonzero_prod(self.den as int, other.num as int);
            lemma_wf_prod_bound(self.den as int, other.num as int);
        }
        let rn: i128 = (self.num as i128) * (other.den as i128);
        let rd: i128 = (self.den as i128) * (other.num as i128);
        let res = rat_make(rn, rd);
        proof {
            lemma_norm_preserves_value(rn as int, rd as int);
        }
        res
    }

    /// Whether this rational is the value one.
    pub fn is_one(&self) -> (r: bool)
        requires
            self.wf(),
        ensures
            r == rv_eq(self@, rv_one()),
    {
        self.num == self.den
    }
}

} // verus!
