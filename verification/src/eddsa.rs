//! Affine points of ed25519 whose coordinates are computed in the field of
//! arkworks (`ark_ed25519::Fq`, the integers modulo `2^255 - 19`), held as
//! eight little-endian limbs of the canonical representative.
use vstd::prelude::*;
use ark_ed25519::Fq;
use ark_ff::Field;
use num_bigint::BigUint;
use crate::field::{
    coeff_d, lemma_add_congr, lemma_constants, lemma_mod_mod, lemma_mul_congr, limbs_from_digits, q,
    COEFF_D, ONE,
};
use crate::limbs::{lemma_limbs_of, limbs_of, limbs_val};
use crate::group::{finv, lemma_finv_unique};
use crate::scalar_mul::lemma_identity_limbs;
use crate::structs::add_hint_holds;

verus! {

/// Calls arkworks: `a * b` in `Fq`, each operand read from its limbs with
/// `Fq::from(BigUint)` (which reduces modulo `q`), the product handed back
/// as `BigUint::from(Fq).to_u32_digits()`. The contract claims that the
/// digits stand for `a * b mod q` with no zero digit on top.
#[verifier::external_body]
fn fq_mul_digits(a: &[u32; 8], b: &[u32; 8]) -> (res: Vec<u32>)
    ensures
        limbs_val(res@) == (limbs_val(a@) * limbs_val(b@)) % q(),
        res@.len() == 0 || res@.last() != 0,
{
    let a = Fq::from(BigUint::from_slice(a));
    let b = Fq::from(BigUint::from_slice(b));
    BigUint::from(a * b).to_u32_digits()
}

/// Calls arkworks: `a + b` in `Fq`, converted as for `fq_mul_digits`. The
/// contract claims that the digits stand for `a + b mod q`.
#[verifier::external_body]
fn fq_add_digits(a: &[u32; 8], b: &[u32; 8]) -> (res: Vec<u32>)
    ensures
        limbs_val(res@) == (limbs_val(a@) + limbs_val(b@)) % q(),
        res@.len() == 0 || res@.last() != 0,
{
    let a = Fq::from(BigUint::from_slice(a));
    let b = Fq::from(BigUint::from_slice(b));
    BigUint::from(a + b).to_u32_digits()
}

/// Calls arkworks: `a - b` in `Fq`, converted as for `fq_mul_digits`. The
/// contract claims that the digits stand for `a - b mod q` (the
/// representative in `0..q`).
#[verifier::external_body]
fn fq_sub_digits(a: &[u32; 8], b: &[u32; 8]) -> (res: Vec<u32>)
    ensures
        limbs_val(res@) == (limbs_val(a@) - limbs_val(b@)) % (q() as int),
        res@.len() == 0 || res@.last() != 0,
{
    let a = Fq::from(BigUint::from_slice(a));
    let b = Fq::from(BigUint::from_slice(b));
    BigUint::from(a - b).to_u32_digits()
}

/// Calls arkworks: `Field::inverse` of the field element `a mod q`,
/// converted as for `fq_mul_digits`. The contract claims that there is none
/// exactly when `a mod q` is zero, and that otherwise the result is reduced
/// and its product with `a` is one modulo `q` (which fixes it).
#[verifier::external_body]
fn fq_inverse_digits(a: &[u32; 8]) -> (res: Option<Vec<u32>>)
    ensures
        res is None <==> limbs_val(a@) % q() == 0,
        res matches Some(r) ==> {
            &&& limbs_val(r@) < q()
            &&& (limbs_val(a@) * limbs_val(r@)) % q() == 1
            &&& (r@.len() == 0 || r@.last() != 0)
        },
{
    match Fq::from(BigUint::from_slice(a)).inverse() {
        Some(r) => Some(BigUint::from(r).to_u32_digits()),
        None => None,
    }
}

/// `a * b mod q`.
fn fq_mul(a: &[u32; 8], b: &[u32; 8]) -> (res: [u32; 8])
    ensures
        limbs_val(res@) == (limbs_val(a@) * limbs_val(b@)) % q(),
{
    proof {
        lemma_constants();
    }
    limbs_from_digits(fq_mul_digits(a, b))
}

/// `a + b mod q`.
fn fq_add(a: &[u32; 8], b: &[u32; 8]) -> (res: [u32; 8])
    ensures
        limbs_val(res@) == (limbs_val(a@) + limbs_val(b@)) % q(),
{
    proof {
        lemma_constants();
    }
    limbs_from_digits(fq_add_digits(a, b))
}

/// `a - b mod q`.
fn fq_sub(a: &[u32; 8], b: &[u32; 8]) -> (res: [u32; 8])
    ensures
        limbs_val(res@) == (limbs_val(a@) - limbs_val(b@)) % (q() as int),
{
    proof {
        lemma_constants();
    }
    limbs_from_digits(fq_sub_digits(a, b))
}

/// `d x1 x2 y1 y2 mod q`.
pub open spec fn edwards_t(x1: nat, y1: nat, x2: nat, y2: nat) -> nat {
    (coeff_d() * (x1 * x2) * (y1 * y2)) % q()
}

/// Whether the two denominators of the addition law, `1 + t` and `1 - t`,
/// are nonzero modulo `q`.
pub open spec fn edwards_sum_defined(x1: nat, y1: nat, x2: nat, y2: nat) -> bool {
    let t = edwards_t(x1, y1, x2, y2);
    &&& (1 + t) % q() != 0
    &&& (1 - t) % (q() as int) != 0
}

/// The `x` of the sum: `(x1 y2 + x2 y1) / (1 + t)`.
pub open spec fn edwards_sum_x(x1: nat, y1: nat, x2: nat, y2: nat) -> nat {
    let t = edwards_t(x1, y1, x2, y2);
    ((x1 * y2 + x2 * y1) * finv((1 + t) % q())) % q()
}

/// The `y` of the sum: `(y1 y2 + x1 x2) / (1 - t)`.
pub open spec fn edwards_sum_y(x1: nat, y1: nat, x2: nat, y2: nat) -> nat {
    let t = edwards_t(x1, y1, x2, y2);
    ((y1 * y2 + x1 * x2) * finv(((1 - t) % (q() as int)) as nat)) % q()
}

/// Dividing by a value with a known inverse: if `v = n i` and `den i = 1`
/// modulo `m`, then `v den = n` modulo `m`.
pub(crate) proof fn lemma_div_by_inverse(n: int, i: int, den: int, v: int, m: int)
    requires
        m > 0,
        (den * i) % m == 1,
        v == (n * i) % m,
    ensures
        (v * den) % m == n % m,
{
    lemma_mod_mod(n * i, m);
    lemma_mul_congr(v, den, n * i, den, m);
    assert(n * i * den == n * (den * i)) by (nonlinear_arith);
    lemma_mod_mod(den * i, m);
    vstd::arithmetic::div_mod::lemma_small_mod(1, m as nat);
    lemma_mul_congr(n, den * i, n, 1, m);
}

/// The addition check does not depend on the order of the summands.
proof fn lemma_add_hint_swap(x1: nat, y1: nat, x2: nat, y2: nat, x3: nat, y3: nat)
    requires
        add_hint_holds(x1, y1, x2, y2, x3, y3),
    ensures
        add_hint_holds(x2, y2, x1, y1, x3, y3),
{
    assert(coeff_d() * (x1 * x2) * (y1 * y2) == coeff_d() * (x2 * x1) * (y2 * y1)) by (nonlinear_arith);
    assert(x1 * y2 + x2 * y1 == x2 * y1 + x1 * y2);
    assert(x1 * x2 + y1 * y2 == x2 * x1 + y2 * y1) by (nonlinear_arith);
}

/// Adding `(0, 1)` (given by any representatives) gives back the point,
/// reduced: a reduced hint that the addition check accepts for `(x1, y1)`
/// and `(0, 1)` is `(x1, y1)` modulo `q`.
pub proof fn law_add_identity(x1: nat, y1: nat, x2: nat, y2: nat, x3: nat, y3: nat)
    requires
        x2 % q() == 0,
        y2 % q() == 1,
        x3 < q(),
        y3 < q(),
        add_hint_holds(x1, y1, x2, y2, x3, y3),
    ensures
        x3 == x1 % q(),
        y3 == y1 % q(),
{
    lemma_constants();
    let m = q() as int;
    let t = (coeff_d() * (x1 * x2) * (y1 * y2)) as int;
    vstd::arithmetic::div_mod::lemma_small_mod(0, q());
    vstd::arithmetic::div_mod::lemma_small_mod(1, q());
    vstd::arithmetic::div_mod::lemma_small_mod(x3, q());
    vstd::arithmetic::div_mod::lemma_small_mod(y3, q());
    // t = 0 modulo q
    lemma_mul_congr(x1 as int, x2 as int, x1 as int, 0, m);
    lemma_mul_congr(coeff_d() as int, (x1 * x2) as int, coeff_d() as int, 0, m);
    lemma_mul_congr((coeff_d() * (x1 * x2)) as int, (y1 * y2) as int, 0, (y1 * y2) as int, m);
    assert(t % m == 0);
    // x3 (1 + t) = x3 and x1 y2 + x2 y1 = x1
    lemma_add_congr(1, t, 1, 0, m);
    lemma_mul_congr(x3 as int, 1 + t, x3 as int, 1, m);
    lemma_mul_congr(x1 as int, y2 as int, x1 as int, 1, m);
    lemma_mul_congr(x2 as int, y1 as int, 0, y1 as int, m);
    lemma_add_congr((x1 * y2) as int, (x2 * y1) as int, x1 as int, 0, m);
    // y3 = x1 x2 + y1 y2 + t y3 = y1
    lemma_mul_congr(y1 as int, y2 as int, y1 as int, 1, m);
    lemma_mul_congr(t, y3 as int, 0, y3 as int, m);
    lemma_add_congr((x1 * x2) as int, (y1 * y2) as int, 0, y1 as int, m);
    lemma_add_congr((x1 * x2 + y1 * y2) as int, t * y3, y1 as int, 0, m);
}

/// A point in affine coordinates, each coordinate as the eight limbs of a
/// field element.
pub struct AffineEdwardsPoint {
    pub x: [u32; 8],
    pub y: [u32; 8],
}

impl AffineEdwardsPoint {
    /// The number that the `x` limbs stand for.
    pub open spec fn xv(self) -> nat {
        limbs_val(self.x@)
    }

    /// The number that the `y` limbs stand for.
    pub open spec fn yv(self) -> nat {
        limbs_val(self.y@)
    }

    /// Whether both coordinates are reduced below `q`.
    pub open spec fn reduced(self) -> bool {
        self.xv() < q() && self.yv() < q()
    }

    /// The identity `(0, 1)`.
    pub fn default() -> (res: Self)
        ensures
            res.x@ == Seq::new(8, |i: int| 0u32),
            res.y@ == Seq::new(8, |i: int| if i == 0 { 1u32 } else { 0u32 }),
            res.xv() == 0,
            res.yv() == 1,
            res.reduced(),
    {
        let res = Self { x: [0u32; 8], y: ONE };
        assert(res.x@ =~= Seq::new(8, |i: int| 0u32));
        assert(res.y@ =~= Seq::new(8, |i: int| if i == 0 { 1u32 } else { 0u32 }));
        proof {
            lemma_identity_limbs();
            lemma_constants();
        }
        res
    }

    /// The sum by the twisted Edwards addition law of ed25519, computed in
    /// `Fq`, or `None` when one of its denominators `1 + t`, `1 - t`
    /// vanishes; the coordinates come back reduced.
    pub fn try_add(&self, rhs: &AffineEdwardsPoint) -> (res: Option<AffineEdwardsPoint>)
        ensures
            res is Some <==> edwards_sum_defined(self.xv(), self.yv(), rhs.xv(), rhs.yv()),
            res matches Some(r) ==> r.is_sum(*self, *rhs),
    {
        proof {
            lemma_constants();
        }
        let x1x2 = fq_mul(&self.x, &rhs.x);
        let y1y2 = fq_mul(&self.y, &rhs.y);

        let x1y2 = fq_mul(&self.x, &rhs.y);
        let x2y1 = fq_mul(&rhs.x, &self.y);

        let dx1x2 = fq_mul(&COEFF_D, &x1x2);
        let dx1x2y1y2 = fq_mul(&dx1x2, &y1y2);
        let one_plus_dx1x2y1y2 = fq_add(&ONE, &dx1x2y1y2);
        let one_minus_dx1x2y1y2 = fq_sub(&ONE, &dx1x2y1y2);

        let ghost x1 = self.xv();
        let ghost y1 = self.yv();
        let ghost x2 = rhs.xv();
        let ghost y2 = rhs.yv();
        let ghost tt: int = (coeff_d() * (x1 * x2) * (y1 * y2)) as int;
        let ghost t = edwards_t(x1, y1, x2, y2);
        let ghost m = q() as int;
        proof {
            lemma_mod_mod((x1 * x2) as int, m);
            lemma_mod_mod((y1 * y2) as int, m);
            lemma_mul_congr(coeff_d() as int, limbs_val(x1x2@) as int, coeff_d() as int, (x1 * x2) as int, m);
            lemma_mod_mod((coeff_d() * (x1 * x2)) as int, m);
            lemma_mul_congr(
                limbs_val(dx1x2@) as int,
                limbs_val(y1y2@) as int,
                (coeff_d() * (x1 * x2)) as int,
                (y1 * y2) as int,
                m,
            );
            assert(limbs_val(dx1x2y1y2@) == t);
            lemma_mod_mod(tt, m);
            lemma_add_congr(1, t as int, 1, tt, m);
            vstd::arithmetic::div_mod::lemma_sub_mod_noop(1, tt, m);
            vstd::arithmetic::div_mod::lemma_small_mod(1, q());
            assert(limbs_val(one_plus_dx1x2y1y2@) == (1 + t) % q());
            assert(limbs_val(one_minus_dx1x2y1y2@) == (1 - t) % m);
            lemma_limbs_of((1 + t) % q(), one_plus_dx1x2y1y2@);
            lemma_limbs_of(((1 - t) % m) as nat, one_minus_dx1x2y1y2@);
        }

        let x1y2_plus_y1x2 = fq_add(&x1y2, &x2y1);
        let inv_x = fq_inverse_digits(&one_plus_dx1x2y1y2);
        let inv_x = match inv_x {
            Some(v) => {
                proof {
                    lemma_finv_unique(limbs_val(one_plus_dx1x2y1y2@), limbs_val(v@));
                }
                limbs_from_digits(v)
            },
            None => {
                return None;
            },
        };
        let x = fq_mul(&x1y2_plus_y1x2, &inv_x);

        let y1y2_plus_x1x2 = fq_add(&y1y2, &x1x2);
        let inv_y = fq_inverse_digits(&one_minus_dx1x2y1y2);
        let inv_y = match inv_y {
            Some(v) => {
                proof {
                    lemma_finv_unique(limbs_val(one_minus_dx1x2y1y2@), limbs_val(v@));
                }
                limbs_from_digits(v)
            },
            None => {
                return None;
            },
        };
        let y = fq_mul(&y1y2_plus_x1x2, &inv_y);

        proof {
            // x: (x1 y2 + x2 y1) / (1 + t)
            lemma_mod_mod((x1 * y2) as int, m);
            lemma_mod_mod((x2 * y1) as int, m);
            lemma_add_congr(
                limbs_val(x1y2@) as int,
                limbs_val(x2y1@) as int,
                (x1 * y2) as int,
                (x2 * y1) as int,
                m,
            );
            lemma_mod_mod((x1 * y2 + x2 * y1) as int, m);
            lemma_mul_congr(
                limbs_val(x1y2_plus_y1x2@) as int,
                limbs_val(inv_x@) as int,
                (x1 * y2 + x2 * y1) as int,
                limbs_val(inv_x@) as int,
                m,
            );
            assert(limbs_val(x@) == edwards_sum_x(x1, y1, x2, y2));
            lemma_div_by_inverse(
                (x1 * y2 + x2 * y1) as int,
                limbs_val(inv_x@) as int,
                limbs_val(one_plus_dx1x2y1y2@) as int,
                limbs_val(x@) as int,
                m,
            );
            lemma_mod_mod(1 + tt, m);
            lemma_mul_congr(
                limbs_val(x@) as int,
                limbs_val(one_plus_dx1x2y1y2@) as int,
                limbs_val(x@) as int,
                1 + tt,
                m,
            );
            assert((limbs_val(x@) * (1 + tt)) % m == ((x1 * y2 + x2 * y1) as int) % m);

            // y: (y1 y2 + x1 x2) / (1 - t)
            lemma_add_congr(
                limbs_val(y1y2@) as int,
                limbs_val(x1x2@) as int,
                (y1 * y2) as int,
                (x1 * x2) as int,
                m,
            );
            lemma_mod_mod((y1 * y2 + x1 * x2) as int, m);
            lemma_mul_congr(
                limbs_val(y1y2_plus_x1x2@) as int,
                limbs_val(inv_y@) as int,
                (y1 * y2 + x1 * x2) as int,
                limbs_val(inv_y@) as int,
                m,
            );
            assert(limbs_val(y@) == edwards_sum_y(x1, y1, x2, y2));
            let yv = limbs_val(y@) as int;
            lemma_div_by_inverse(
                (y1 * y2 + x1 * x2) as int,
                limbs_val(inv_y@) as int,
                limbs_val(one_minus_dx1x2y1y2@) as int,
                yv,
                m,
            );
            lemma_mod_mod(1 - tt, m);
            lemma_mul_congr(yv, limbs_val(one_minus_dx1x2y1y2@) as int, yv, 1 - tt, m);
            // y (1 - t) = y1 y2 + x1 x2, so y = y1 y2 + x1 x2 + t y
            assert(yv == yv * (1 - tt) + tt * yv) by (nonlinear_arith);
            lemma_mod_mod(yv * (1 - tt), m);
            lemma_mod_mod(tt * yv, m);
            lemma_add_congr(
                yv * (1 - tt),
                tt * yv,
                (y1 * y2 + x1 * x2) as int,
                tt * yv,
                m,
            );
            vstd::arithmetic::div_mod::lemma_small_mod(yv as nat, q());
            lemma_limbs_of(limbs_val(x@), x@);
            lemma_limbs_of(limbs_val(y@), y@);
            let (a1, b1, a2, b2) = (self.xv(), self.yv(), rhs.xv(), rhs.yv());
            let (a3, b3) = (limbs_val(x@), limbs_val(y@));
            if a2 % q() == 0 && b2 % q() == 1 {
                law_add_identity(a1, b1, a2, b2, a3, b3);
            }
            if a1 % q() == 0 && b1 % q() == 1 {
                lemma_add_hint_swap(a1, b1, a2, b2, a3, b3);
                law_add_identity(a2, b2, a1, b1, a3, b3);
            }
        }
        Some(AffineEdwardsPoint { x, y })
    }

    /// Whether `self` is the sum of `p` and `r` by the addition law, with
    /// reduced coordinates; `(0, 1)` is then an identity on either side.
    pub open spec fn is_sum(self, p: AffineEdwardsPoint, r: AffineEdwardsPoint) -> bool {
        &&& self.x@ == limbs_of(edwards_sum_x(p.xv(), p.yv(), r.xv(), r.yv()))
        &&& self.y@ == limbs_of(edwards_sum_y(p.xv(), p.yv(), r.xv(), r.yv()))
        &&& add_hint_holds(p.xv(), p.yv(), r.xv(), r.yv(), self.xv(), self.yv())
        &&& self.reduced()
        &&& r.xv() % q() == 0 && r.yv() % q() == 1 ==> self.xv() == p.xv() % q() && self.yv()
            == p.yv() % q()
        &&& p.xv() % q() == 0 && p.yv() % q() == 1 ==> self.xv() == r.xv() % q() && self.yv()
            == r.yv() % q()
    }

    /// The sum by the twisted Edwards addition law of ed25519, computed in
    /// `Fq`; the coordinates come back reduced.
    pub fn add(&self, rhs: &AffineEdwardsPoint) -> (res: AffineEdwardsPoint)
        requires
            edwards_sum_defined(self.xv(), self.yv(), rhs.xv(), rhs.yv()),
        ensures
            res.x@ == limbs_of(edwards_sum_x(self.xv(), self.yv(), rhs.xv(), rhs.yv())),
            res.y@ == limbs_of(edwards_sum_y(self.xv(), self.yv(), rhs.xv(), rhs.yv())),
            add_hint_holds(self.xv(), self.yv(), rhs.xv(), rhs.yv(), res.xv(), res.yv()),
            res.reduced(),
            // `(0, 1)` is an identity on either side
            rhs.xv() % q() == 0 && rhs.yv() % q() == 1 ==> res.xv() == self.xv() % q() && res.yv()
                == self.yv() % q(),
            self.xv() % q() == 0 && self.yv() % q() == 1 ==> res.xv() == rhs.xv() % q() && res.yv()
                == rhs.yv() % q(),
    {
        match self.try_add(rhs) {
            Some(r) => r,
            None => {
                proof {
                    assert(false);
                }
                AffineEdwardsPoint::default()
            },
        }
    }

    /// The double, as the sum of the point with itself.
    pub fn double(&self) -> (res: Self)
        requires
            edwards_sum_defined(self.xv(), self.yv(), self.xv(), self.yv()),
        ensures
            res.x@ == limbs_of(edwards_sum_x(self.xv(), self.yv(), self.xv(), self.yv())),
            res.y@ == limbs_of(edwards_sum_y(self.xv(), self.yv(), self.xv(), self.yv())),
            add_hint_holds(self.xv(), self.yv(), self.xv(), self.yv(), res.xv(), res.yv()),
            res.reduced(),
    {
        self.add(self)
    }
}

} // verus!
