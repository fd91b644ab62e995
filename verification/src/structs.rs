//! Points of ed25519 in affine coordinates, and the checks that accept or
//! refuse the hints a prover hands out for them.
use vstd::prelude::*;
use crate::EvaluationError;
use crate::field::{
    coeff_d, lemma_add_congr, lemma_constants, lemma_mod_mod, lemma_mul_congr, mul_mod, q,
    COEFF_D, MODULUS_Q, ONE, TWO,
};
use crate::hinter::DecompressionHint;
use crate::limbs::{lemma_limbs_val_bound, lemma_limbs_val_injective, limbs_val, radix_pow};

verus! {

/// A compressed point: the limbs of `y`, with the sign of `x` in the top bit.
pub struct CompressedEdwardsY(pub [u32; 8]);

/// A point in affine coordinates, each coordinate as eight little-endian limbs.
#[derive(Clone, Copy, Debug, PartialEq, Eq)]
pub struct TEPoint {
    pub x: [u32; 8],
    pub y: [u32; 8],
}

impl TEPoint {
    /// The number that the `x` limbs stand for.
    pub open spec fn xv(self) -> nat {
        limbs_val(self.x@)
    }

    /// The number that the `y` limbs stand for.
    pub open spec fn yv(self) -> nat {
        limbs_val(self.y@)
    }
}

impl Default for TEPoint {
    /// The identity `(0, 1)`.
    fn default() -> (res: Self)
        ensures
            res.x@ == Seq::new(8, |i: int| 0u32),
            res.y@ == Seq::new(8, |i: int| if i == 0 { 1u32 } else { 0u32 }),
    {
        let res = Self { x: [0u32; 8], y: [1u32, 0u32, 0u32, 0u32, 0u32, 0u32, 0u32, 0u32] };
        assert(res.x@ =~= Seq::new(8, |i: int| 0u32));
        assert(res.y@ =~= Seq::new(8, |i: int| if i == 0 { 1u32 } else { 0u32 }));
        res
    }
}

/// The twisted Edwards addition law of ed25519 (`a = -1`) for a claimed sum
/// `(x3, y3)` of `(x1, y1)` and `(x2, y2)`, with `t = d x1 x2 y1 y2`:
/// `x3 (1 + t) = x1 y2 + x2 y1` modulo `q`, and `y3 (1 - t) = x1 x2 + y1 y2`
/// modulo `q` with `y3` reduced, written as `y3 = (x1 x2 + y1 y2 + t y3) mod q`.
pub open spec fn add_hint_holds(x1: nat, y1: nat, x2: nat, y2: nat, x3: nat, y3: nat) -> bool {
    let t = coeff_d() * (x1 * x2) * (y1 * y2);
    &&& (x3 * (1 + t)) % q() == (x1 * y2 + x2 * y1) % q()
    &&& y3 == (x1 * x2 + y1 * y2 + t * y3) % q()
}

/// The doubling law for a claimed double `(x3, y3)` of `(x1, y1)`, with
/// `t = d x1^2 y1^2`: `x3 (1 + t) = 2 x1 y1` modulo `q`, and
/// `y3 = (x1^2 + y1^2 + t y3) mod q`.
pub open spec fn dbl_hint_holds(x1: nat, y1: nat, x3: nat, y3: nat) -> bool {
    let t = coeff_d() * (x1 * x1) * (y1 * y1);
    &&& (x3 * (1 + t)) % q() == (2 * (x1 * y1)) % q()
    &&& y3 == (x1 * x1 + y1 * y1 + t * y3) % q()
}

/// The check that the decompression of a point makes: with the hinted `x`
/// and the `y` of the compressed point, `x^2 = d x^2 y^2 + 1 + x^2` modulo `q`.
pub open spec fn decompression_holds(x: nat, y: nat) -> bool {
    (x * x) % q() == (coeff_d() * (x * x) * (y * y) + 1 + x * x) % q()
}

/// The `y` limbs of a compressed point: its limbs with the top bit cleared.
pub open spec fn compressed_y_limbs(c: [u32; 8]) -> Seq<u32> {
    c@.update(7, (c@[7] % 0x8000_0000) as u32)
}

/// The sign bit of `x` that a compressed point carries in its top bit.
pub open spec fn compressed_x_sign(c: [u32; 8]) -> bool {
    c@[7] >= 0x8000_0000
}

/// Whether the decompression of `c` accepts the hinted `x`: the
/// decompression check holds and the parity of `x` is the sign bit of `c`.
pub open spec fn decompression_accepts(c: [u32; 8], x: [u32; 8]) -> bool {
    &&& decompression_holds(limbs_val(x@), limbs_val(compressed_y_limbs(c)))
    &&& (x[0] % 2 == 1) == compressed_x_sign(c)
}

/// Whether two eight-limb numbers are equal.
fn limbs_equal(a: &[u32; 8], b: &[u32; 8]) -> (r: bool)
    ensures
        r == (limbs_val(a@) == limbs_val(b@)),
{
    let mut i: usize = 0;
    while i < 8
        invariant
            0 <= i <= 8,
            forall|k: int| 0 <= k < i ==> a@[k] == b@[k],
        decreases 8 - i,
    {
        if a[i] != b[i] {
            proof {
                if limbs_val(a@) == limbs_val(b@) {
                    lemma_limbs_val_injective(a@, b@);
                }
            }
            return false;
        }
        i += 1;
    }
    assert(a@ =~= b@);
    true
}

/// Adds two reduced values that fit, with no carry out.
fn add_reduced(accm: &mut [u32; 8], new: &[u32; 8])
    requires
        limbs_val(old(accm)@) + limbs_val(new@) < radix_pow(8),
    ensures
        limbs_val(final(accm)@) == limbs_val(old(accm)@) + limbs_val(new@),
{
    let carry = crate::limbs::add::<8, 8>(accm, new);
    assert(carry == 0) by {
        if carry == 1 {
            lemma_limbs_val_bound(final(accm)@);
        }
    }
}

/// Adds one to a value below `radix()^8 - 1`.
fn add_one(accm: &mut [u32; 8])
    requires
        limbs_val(old(accm)@) + 1 < radix_pow(8),
    ensures
        limbs_val(final(accm)@) == limbs_val(old(accm)@) + 1,
{
    let one: [u32; 1] = [1u32];
    proof {
        assert(one@.drop_last() =~= Seq::<u32>::empty());
        assert(one@.last() == 1);
        assert(limbs_val(Seq::<u32>::empty()) == 0);
        assert(radix_pow(0) == 1);
        assert(limbs_val(one@) == 1);
    }
    let carry = crate::limbs::add::<8, 1>(accm, &one);
    assert(carry == 0) by {
        if carry == 1 {
            lemma_limbs_val_bound(final(accm)@);
        }
    }
}


/// The modular bookkeeping behind the addition check: the reduced
/// intermediate values computed by the addition check are the reductions of the
/// terms of the addition law.
proof fn lemma_add_check_terms(
    x1: nat,
    y1: nat,
    x2: nat,
    y2: nat,
    x3: nat,
    y3: nat,
    a: nat,
    b: nat,
    c: nat,
    e: nat,
    p: nat,
    f: nat,
    g: nat,
    h: nat,
    k: nat,
    k2: nat,
    k3: nat,
)
    requires
        a == (x1 * x2) % q(),
        b == (y1 * y2) % q(),
        c == (x1 * y2) % q(),
        e == (x2 * y1) % q(),
        p == (a * b) % q(),
        f == (p * coeff_d()) % q(),
        g == (c + e) % q(),
        h == ((f + 1) * x3) % q(),
        k == (f * y3) % q(),
        k2 == (k + b) % q(),
        k3 == (k2 + a) % q(),
    ensures
        ({
            let t = coeff_d() * (x1 * x2) * (y1 * y2);
            &&& h == (x3 * (1 + t)) % q()
            &&& g == (x1 * y2 + x2 * y1) % q()
            &&& k3 == (x1 * x2 + y1 * y2 + t * y3) % q()
        }),
{
    let m = q() as int;
    let x1x2 = (x1 * x2) as int;
    let y1y2 = (y1 * y2) as int;
    let t = coeff_d() * (x1 * x2) * (y1 * y2);
    lemma_constants();
    lemma_mod_mod(x1x2, m);
    lemma_mod_mod(y1y2, m);
    lemma_mul_congr(a as int, b as int, x1x2, y1y2, m);
    lemma_mod_mod((a * b) as int, m);
    lemma_mul_congr(p as int, coeff_d() as int, x1x2 * y1y2, coeff_d() as int, m);
    assert(x1x2 * y1y2 * coeff_d() == t) by (nonlinear_arith)
        requires
            x1x2 == x1 * x2,
            y1y2 == y1 * y2,
            t == coeff_d() * (x1 * x2) * (y1 * y2),
    ;
    // f is the reduction of t
    lemma_mod_mod(t as int, m);
    lemma_add_congr(f as int, 1, t as int, 1, m);
    lemma_mul_congr((f + 1) as int, x3 as int, (1 + t) as int, x3 as int, m);
    assert((1 + t) * x3 == x3 * (1 + t)) by (nonlinear_arith);
    lemma_mod_mod((x1 * y2) as int, m);
    lemma_mod_mod((x2 * y1) as int, m);
    lemma_add_congr(c as int, e as int, (x1 * y2) as int, (x2 * y1) as int, m);
    lemma_mul_congr(f as int, y3 as int, t as int, y3 as int, m);
    lemma_mod_mod((t * y3) as int, m);
    lemma_add_congr(k as int, b as int, (t * y3) as int, y1y2, m);
    lemma_mod_mod((t * y3 + y1y2) as int, m);
    lemma_add_congr(k2 as int, a as int, (t * y3 + y1y2) as int, x1x2, m);
}

proof fn lemma_decompression_terms(x: nat, y: nat, xs: nat, ys: nat, r0: nat, r1: nat, r3: nat)
    requires
        xs == (x * x) % q(),
        ys == (y * y) % q(),
        r0 == (xs * ys) % q(),
        r1 == (r0 * coeff_d()) % q(),
        r3 == (r1 + 1 + xs) % q(),
    ensures
        r3 == (coeff_d() * (x * x) * (y * y) + 1 + x * x) % q(),
{
    let m = q() as int;
    let xx = (x * x) as int;
    let yy = (y * y) as int;
    let t = coeff_d() * xx * yy;
    lemma_constants();
    assert(r1 == t % m) by {
        lemma_mod_mod(xx, m);
        lemma_mod_mod(yy, m);
        lemma_mul_congr(xs as int, ys as int, xx, yy, m);
        lemma_mod_mod((xs * ys) as int, m);
        lemma_mul_congr(r0 as int, coeff_d() as int, xx * yy, coeff_d() as int, m);
        assert(xx * yy * coeff_d() == t) by (nonlinear_arith)
            requires
                t == coeff_d() * xx * yy,
        ;
    }
    assert(r3 == (t + 1 + xx) % m) by {
        lemma_mod_mod(t, m);
        lemma_add_congr(r1 as int, 1, t, 1, m);
        lemma_mod_mod(xx, m);
        lemma_add_congr((r1 + 1) as int, xs as int, t + 1, xx, m);
    }
}

/// Clearing the top bit of the limbs takes the value modulo `2^255`.
proof fn lemma_clear_top_bit(c: [u32; 8], y: [u32; 8])
    requires
        y@ == compressed_y_limbs(c),
    ensures
        limbs_val(y@) == limbs_val(c@) % 0x8000_0000_0000_0000_0000_0000_0000_0000_0000_0000_0000_0000_0000_0000_0000_0000nat,
{
    crate::limbs::lemma_limbs8_val(c);
    crate::limbs::lemma_limbs8_val(y);
    let top = c[7];
    assert(top == (top / 0x8000_0000) * 0x8000_0000 + top % 0x8000_0000);
    let qq = (top / 0x8000_0000) as int;
    let m = 0x8000_0000_0000_0000_0000_0000_0000_0000_0000_0000_0000_0000_0000_0000_0000_0000int;
    assert(limbs_val(c@) == qq * m + limbs_val(y@));
    assert(limbs_val(y@) < m);
    vstd::arithmetic::div_mod::lemma_fundamental_div_mod_converse(
        limbs_val(c@) as int,
        m,
        qq,
        limbs_val(y@) as int,
    );
}

impl CompressedEdwardsY {
    /// Decompresses with the hinted `x`: the `y` limbs are the compressed
    /// limbs with the top bit cleared; the hint is accepted when
    /// `decompression_holds` and the parity of `x`'s low limb matches the
    /// sign bit.
    pub fn decompose_with_hints(&self, hint: &DecompressionHint) -> (res: Result<
        TEPoint,
        EvaluationError,
    >)
        ensures
            res is Ok <==> decompression_accepts(self.0, hint.x),
            res matches Ok(p) ==> p.x == hint.x && p.y@ == compressed_y_limbs(self.0),
            res matches Err(e) ==> e == EvaluationError::WrongHint,
            limbs_val(compressed_y_limbs(self.0)) == limbs_val(self.0@)
                % 0x8000_0000_0000_0000_0000_0000_0000_0000_0000_0000_0000_0000_0000_0000_0000_0000nat,
    {
        proof {
            lemma_constants();
        }
        let mut res = TEPoint { x: hint.x, y: self.0 };
        let top = res.y[7];
        res.y[7] = top & 0x7fffffff;
        assert(top & 0x7fffffff == top % 0x8000_0000) by (bit_vector);
        assert(res.y@ =~= compressed_y_limbs(self.0));
        proof {
            lemma_clear_top_bit(self.0, res.y);
        }

        let x_expected_sign = (self.0[7] >> 31) != 0;
        assert(((top >> 31) != 0) == (top >= 0x8000_0000)) by (bit_vector);

        let x_square = mul_mod(&res.x, &res.x, &MODULUS_Q);
        let y_square = mul_mod(&res.y, &res.y, &MODULUS_Q);

        let mut rhs = mul_mod(&x_square, &y_square, &MODULUS_Q);
        let ghost r0 = limbs_val(rhs@);
        rhs = mul_mod(&rhs, &COEFF_D, &MODULUS_Q);
        let ghost r1 = limbs_val(rhs@);

        // it would not overflow to 2^256 for such additions
        add_one(&mut rhs);
        add_reduced(&mut rhs, &x_square);

        rhs = mul_mod(&rhs, &ONE, &MODULUS_Q);
        proof {
            lemma_decompression_terms(
                limbs_val(res.x@),
                limbs_val(res.y@),
                limbs_val(x_square@),
                limbs_val(y_square@),
                r0,
                r1,
                limbs_val(rhs@),
            );
        }

        let lhs_equal_rhs = limbs_equal(&x_square, &rhs);

        if !lhs_equal_rhs {
            return Err(EvaluationError::WrongHint);
        }

        let x_actual_sign = (res.x[0] & 1) != 0;
        let x0 = res.x[0];
        assert(((x0 & 1) != 0) == (x0 % 2 == 1)) by (bit_vector);

        if x_actual_sign != x_expected_sign {
            return Err(EvaluationError::WrongHint);
        }

        Ok(res)
    }
}

impl TEPoint {
    /// Checks that `hint` is the sum of `self` and `rhs` by the addition law.
    pub fn check_add_hint(&self, rhs: &Self, hint: &Self) -> (res: Result<(), EvaluationError>)
        ensures
            res == (if add_hint_holds(self.xv(), self.yv(), rhs.xv(), rhs.yv(), hint.xv(), hint.yv()) {
                Ok(())
            } else {
                Err(EvaluationError::WrongHint)
            }),
    {
        proof {
            lemma_constants();
        }
        let x1 = &self.x;
        let y1 = &self.y;
        let x2 = &rhs.x;
        let y2 = &rhs.y;
        let x3 = &hint.x;
        let y3 = &hint.y;

        let x1x2 = mul_mod(x1, x2, &MODULUS_Q);
        let y1y2 = mul_mod(y1, y2, &MODULUS_Q);

        let x1y2 = mul_mod(x1, y2, &MODULUS_Q);
        let y1x2 = mul_mod(x2, y1, &MODULUS_Q);

        let mut dx1x2y1y2 = mul_mod(&x1x2, &y1y2, &MODULUS_Q);
        let ghost p = limbs_val(dx1x2y1y2@);
        dx1x2y1y2 = mul_mod(&dx1x2y1y2, &COEFF_D, &MODULUS_Q);

        let mut x1y2_plus_y1x2 = x1y2;
        add_reduced(&mut x1y2_plus_y1x2, &y1x2);
        x1y2_plus_y1x2 = mul_mod(&x1y2_plus_y1x2, &ONE, &MODULUS_Q);

        let mut dx1x2y1y2_plus_one = dx1x2y1y2;
        add_one(&mut dx1x2y1y2_plus_one);
        let x3_times_dx1x2y1y2_plus_one = mul_mod(&dx1x2y1y2_plus_one, x3, &MODULUS_Q);

        // x3 * (1 + d * x1 * y1 * x2 * y2) = x1 * y2 + y1 * x2
        let first_equation_is_equal = limbs_equal(&x3_times_dx1x2y1y2_plus_one, &x1y2_plus_y1x2);

        let mut should_be_y3 = mul_mod(&dx1x2y1y2, y3, &MODULUS_Q);
        let ghost k = limbs_val(should_be_y3@);
        add_reduced(&mut should_be_y3, &y1y2);
        should_be_y3 = mul_mod(&should_be_y3, &ONE, &MODULUS_Q);
        let ghost k2 = limbs_val(should_be_y3@);
        add_reduced(&mut should_be_y3, &x1x2);
        should_be_y3 = mul_mod(&should_be_y3, &ONE, &MODULUS_Q);

        proof {
            lemma_add_check_terms(
                self.xv(),
                self.yv(),
                rhs.xv(),
                rhs.yv(),
                hint.xv(),
                hint.yv(),
                limbs_val(x1x2@),
                limbs_val(y1y2@),
                limbs_val(x1y2@),
                limbs_val(y1x2@),
                p,
                limbs_val(dx1x2y1y2@),
                limbs_val(x1y2_plus_y1x2@),
                limbs_val(x3_times_dx1x2y1y2_plus_one@),
                k,
                k2,
                limbs_val(should_be_y3@),
            );
        }

        if !first_equation_is_equal {
            return Err(EvaluationError::WrongHint);
        }

        // y3 =  x1 * x2 +  y1 * y2 + d * x1 * y1 * x2 * y2 * y3
        let second_equation_is_equal = limbs_equal(&should_be_y3, y3);

        if !second_equation_is_equal {
            return Err(EvaluationError::WrongHint);
        }

        Ok(())
    }

    /// Checks that `hint` is the double of `self` by the doubling law.
    pub fn check_dbl_hint(&self, hint: &Self) -> (res: Result<(), EvaluationError>)
        ensures
            res == (if dbl_hint_holds(self.xv(), self.yv(), hint.xv(), hint.yv()) {
                Ok(())
            } else {
                Err(EvaluationError::WrongHint)
            }),
    {
        proof {
            lemma_constants();
        }
        let x1 = &self.x;
        let y1 = &self.y;
        let x3 = &hint.x;
        let y3 = &hint.y;

        let x1x1 = mul_mod(x1, x1, &MODULUS_Q);
        let y1y1 = mul_mod(y1, y1, &MODULUS_Q);
        let x1y1 = mul_mod(x1, y1, &MODULUS_Q);

        let mut dx1x1y1y1 = mul_mod(&x1x1, &y1y1, &MODULUS_Q);
        let ghost p = limbs_val(dx1x1y1y1@);
        dx1x1y1y1 = mul_mod(&dx1x1y1y1, &COEFF_D, &MODULUS_Q);

        let x1y1_plus_y1x1 = mul_mod(&x1y1, &TWO, &MODULUS_Q);

        let mut dx1x1y1y1_plus_one = dx1x1y1y1;
        add_one(&mut dx1x1y1y1_plus_one);

        let x3_times_dx1x1y1y1_plus_one = mul_mod(&dx1x1y1y1_plus_one, x3, &MODULUS_Q);

        // x3 * (1 + d * x1 * x1 * y1 * y1) = 2 * x1 * y1
        let first_equation_is_equal = limbs_equal(&x3_times_dx1x1y1y1_plus_one, &x1y1_plus_y1x1);

        let mut should_be_y3 = mul_mod(&dx1x1y1y1, y3, &MODULUS_Q);
        let ghost k = limbs_val(should_be_y3@);
        add_reduced(&mut should_be_y3, &y1y1);
        should_be_y3 = mul_mod(&should_be_y3, &ONE, &MODULUS_Q);
        let ghost k2 = limbs_val(should_be_y3@);
        add_reduced(&mut should_be_y3, &x1x1);
        should_be_y3 = mul_mod(&should_be_y3, &ONE, &MODULUS_Q);

        proof {
            let c = limbs_val(x1y1@);
            assert(limbs_val(x1y1_plus_y1x1@) == (c + c) % q());
            lemma_add_check_terms(
                self.xv(),
                self.yv(),
                self.xv(),
                self.yv(),
                hint.xv(),
                hint.yv(),
                limbs_val(x1x1@),
                limbs_val(y1y1@),
                c,
                c,
                p,
                limbs_val(dx1x1y1y1@),
                limbs_val(x1y1_plus_y1x1@),
                limbs_val(x3_times_dx1x1y1y1_plus_one@),
                k,
                k2,
                limbs_val(should_be_y3@),
            );
        }

        if !first_equation_is_equal {
            return Err(EvaluationError::WrongHint);
        }

        // y3 = x1 * x1 + y1 * y1 + d * x1 * y1 * x1 * y1 * y3
        let second_equation_is_equal = limbs_equal(&should_be_y3, y3);

        if !second_equation_is_equal {
            return Err(EvaluationError::WrongHint);
        }

        Ok(())
    }
}

/// Cancelling a factor that has an inverse modulo `m`.
proof fn lemma_cancel(a: int, x: int, xb: int, i: int, m: int)
    requires
        m > 0,
        (x * a) % m == (xb * a) % m,
        (a * i) % m == 1,
    ensures
        x % m == xb % m,
{
    lemma_mul_congr(x * a, i, xb * a, i, m);
    assert(x * a * i == x * (a * i)) by (nonlinear_arith);
    assert(xb * a * i == xb * (a * i)) by (nonlinear_arith);
    lemma_mod_mod(a * i, m);
    vstd::arithmetic::div_mod::lemma_small_mod(1, m as nat);
    lemma_mul_congr(x, a * i, x, 1, m);
    lemma_mul_congr(xb, a * i, xb, 1, m);
}

/// `y = (n + t y) mod m` means `y (1 - t) = n` modulo `m`.
proof fn lemma_solved_y(y: int, n: int, t: int, m: int)
    requires
        m > 0,
        y == (n + t * y) % m,
    ensures
        (y * (1 - t)) % m == n % m,
{
    lemma_mod_mod(n + t * y, m);
    lemma_add_congr(y, -t * y, n + t * y, -t * y, m);
    assert(y * (1 - t) == y + -t * y) by (nonlinear_arith);
    assert(n + t * y + -t * y == n) by (nonlinear_arith);
}

/// A hint that the addition check accepts is unique: when `1 + t` and
/// `1 - t` have inverses modulo `q`, two accepted hints for the same two
/// points have the same `x` modulo `q` and the same `y`.
pub proof fn law_add_hint_unique(
    x1: nat,
    y1: nat,
    x2: nat,
    y2: nat,
    x3: nat,
    y3: nat,
    x3b: nat,
    y3b: nat,
    ix: int,
    iy: int,
)
    requires
        add_hint_holds(x1, y1, x2, y2, x3, y3),
        add_hint_holds(x1, y1, x2, y2, x3b, y3b),
        ((1 + coeff_d() * (x1 * x2) * (y1 * y2)) * ix) % (q() as int) == 1,
        ((1 - coeff_d() * (x1 * x2) * (y1 * y2)) * iy) % (q() as int) == 1,
    ensures
        x3 % q() == x3b % q(),
        y3 == y3b,
{
    let m = q() as int;
    let t: int = (coeff_d() * (x1 * x2) * (y1 * y2)) as int;
    let n: int = (x1 * x2 + y1 * y2) as int;
    lemma_constants();
    lemma_cancel(1 + t, x3 as int, x3b as int, ix, m);
    // y3 = n + t y3, so y3 (1 - t) = n, and the same for y3b
    lemma_solved_y(y3 as int, n, t, m);
    lemma_solved_y(y3b as int, n, t, m);
    lemma_cancel(1 - t, y3 as int, y3b as int, iy, m);
    vstd::arithmetic::div_mod::lemma_small_mod(y3, q());
    vstd::arithmetic::div_mod::lemma_small_mod(y3b, q());
}

/// Doubling a point is adding it to itself: the doubling check accepts a
/// hint exactly when the addition check of the point with itself does.
pub proof fn law_double_is_self_add(x1: nat, y1: nat, x3: nat, y3: nat)
    ensures
        dbl_hint_holds(x1, y1, x3, y3) == add_hint_holds(x1, y1, x1, y1, x3, y3),
{
}

} // verus!
