//! Arithmetic modulo the ed25519 base-field prime on eight-limb numbers.
use vstd::prelude::*;
use crate::limbs::{
    lemma_limbs8_val, lemma_radix_pow8, radix_pow,
    lemma_limbs_val_bound, lemma_limbs_val_take_all, lemma_limbs_val_top_nonzero,
    lemma_limbs_val_zero_tail, lemma_radix_pow_mono, lemma_radix_pow_pos, limbs_val,
};

verus! {

/// The limbs of the prime `q()`.
pub const MODULUS_Q: [u32; 8] = [
    0xffffffedu32,
    0xffffffffu32,
    0xffffffffu32,
    0xffffffffu32,
    0xffffffffu32,
    0xffffffffu32,
    0xffffffffu32,
    0x7fffffffu32,
];

/// The limbs of `q() - 1`.
pub const MODULUS_Q_MINUS_ONE: [u32; 8] = [
    0xffffffecu32,
    0xffffffffu32,
    0xffffffffu32,
    0xffffffffu32,
    0xffffffffu32,
    0xffffffffu32,
    0xffffffffu32,
    0x7fffffffu32,
];

/// The limbs of the order of the ed25519 prime-order subgroup.
pub const MODULUS_N: [u32; 8] = [
    0x5cf5d3edu32,
    0x5812631au32,
    0xa2f79cd6u32,
    0x14def9deu32,
    0u32,
    0u32,
    0u32,
    0x10000000u32,
];

/// The limbs of the curve coefficient `coeff_d()`.
pub const COEFF_D: [u32; 8] = [
    0x135978a3u32,
    0x75eb4dcau32,
    0x4141d8abu32,
    0x00700a4du32,
    0x7779e898u32,
    0x8cc74079u32,
    0x2b6ffe73u32,
    0x52036ceeu32,
];

/// The limbs of one.
pub const ONE: [u32; 8] = [1u32, 0u32, 0u32, 0u32, 0u32, 0u32, 0u32, 0u32];

/// The limbs of two.
pub const TWO: [u32; 8] = [2u32, 0u32, 0u32, 0u32, 0u32, 0u32, 0u32, 0u32];

/// The prime `2^255 - 19`.
pub open spec fn q() -> nat {
    0x7fff_ffff_ffff_ffff_ffff_ffff_ffff_ffff_ffff_ffff_ffff_ffff_ffff_ffff_ffff_ffednat
}

/// The curve coefficient `d = -121665 / 121666` of ed25519, reduced modulo `q()`.
pub open spec fn coeff_d() -> nat {
    0x52036cee_2b6ffe73_8cc74079_7779e898_00700a4d_4141d8ab_75eb4dca_135978a3nat
}

/// The product of two limb values modulo `q()`.
pub open spec fn fmul(a: nat, b: nat) -> nat {
    (a * b) % q()
}

/// The sum of two limb values modulo `q()`.
pub open spec fn fadd(a: nat, b: nat) -> nat {
    (a + b) % q()
}

/// Calls num_bigint: builds `BigUint`s from the limbs (`BigUint::from_slice`,
/// least significant digit first), computes `a * b % n`, and returns its
/// `to_u32_digits()`. The contract claims that the digits stand for
/// `a * b mod n` and carry no zero digit on top (num_bigint keeps its digits
/// normalized). `%` by zero panics in num_bigint, hence the `requires`.
#[verifier::external_body]
fn biguint_mul_mod_digits(a: &[u32; 8], b: &[u32; 8], n: &[u32; 8]) -> (res: Vec<u32>)
    requires
        limbs_val(n@) > 0,
    ensures
        limbs_val(res@) == (limbs_val(a@) * limbs_val(b@)) % limbs_val(n@),
        res@.len() == 0 || res@.last() != 0,
{
    let a = num_bigint::BigUint::from_slice(a);
    let b = num_bigint::BigUint::from_slice(b);
    let n = num_bigint::BigUint::from_slice(n);
    (a * b % n).to_u32_digits()
}

/// The eight limbs of a number given by its digits, least significant
/// first, with no zero digit on top.
pub(crate) fn limbs_from_digits(digits: Vec<u32>) -> (res: [u32; 8])
    requires
        limbs_val(digits@) < radix_pow(8),
        digits@.len() == 0 || digits@.last() != 0,
    ensures
        limbs_val(res@) == limbs_val(digits@),
{
    proof {
        lemma_radix_pow_pos(8);
        if digits@.len() > 8 {
            lemma_limbs_val_top_nonzero(digits@);
            lemma_radix_pow_mono(8, (digits@.len() - 1) as nat);
        }
    }
    let mut res = [0u32; 8];
    for i in 0..digits.len()
        invariant
            digits@.len() <= 8,
            res@.take(i as int) == digits@.take(i as int),
            forall|k: int| i <= k < 8 ==> res@[k] == 0,
    {
        res[i] = digits[i];
        assert(res@.take(i + 1) =~= digits@.take(i + 1));
    }
    proof {
        lemma_limbs_val_zero_tail(res@, digits@.len() as int);
        lemma_limbs_val_take_all(digits@);
    }
    res
}

/// `a * b mod n` on eight-limb numbers.
pub fn mul_mod(a: &[u32; 8], b: &[u32; 8], n: &[u32; 8]) -> (res: [u32; 8])
    requires
        limbs_val(n@) > 0,
    ensures
        limbs_val(res@) == (limbs_val(a@) * limbs_val(b@)) % limbs_val(n@),
{
    let res_digits = biguint_mul_mod_digits(a, b, n);
    proof {
        lemma_limbs_val_bound(n@);
    }
    limbs_from_digits(res_digits)
}

/// The values of the constant limb arrays.
pub proof fn lemma_constants()
    ensures
        limbs_val(MODULUS_Q@) == q(),
        limbs_val(MODULUS_Q_MINUS_ONE@) == q() - 1,
        limbs_val(COEFF_D@) == coeff_d(),
        limbs_val(ONE@) == 1,
        limbs_val(TWO@) == 2,
        coeff_d() < q(),
        2 * q() + 1 < radix_pow(8),
        q() > 2,
{
    lemma_limbs8_val(MODULUS_Q);
    lemma_limbs8_val(MODULUS_Q_MINUS_ONE);
    lemma_limbs8_val(COEFF_D);
    lemma_limbs8_val(ONE);
    lemma_limbs8_val(TWO);
    lemma_radix_pow8();
}

/// Congruence modulo `m` is kept by products.
pub proof fn lemma_mul_congr(a: int, b: int, a2: int, b2: int, m: int)
    requires
        m > 0,
        a % m == a2 % m,
        b % m == b2 % m,
    ensures
        (a * b) % m == (a2 * b2) % m,
{
    vstd::arithmetic::div_mod::lemma_mul_mod_noop(a, b, m);
    vstd::arithmetic::div_mod::lemma_mul_mod_noop(a2, b2, m);
}

/// Congruence modulo `m` is kept by sums.
pub proof fn lemma_add_congr(a: int, b: int, a2: int, b2: int, m: int)
    requires
        m > 0,
        a % m == a2 % m,
        b % m == b2 % m,
    ensures
        (a + b) % m == (a2 + b2) % m,
{
    vstd::arithmetic::div_mod::lemma_add_mod_noop(a, b, m);
    vstd::arithmetic::div_mod::lemma_add_mod_noop(a2, b2, m);
}

/// A reduced value is congruent to what it was reduced from.
pub proof fn lemma_mod_mod(a: int, m: int)
    requires
        m > 0,
    ensures
        (a % m) % m == a % m,
{
    vstd::arithmetic::div_mod::lemma_mod_twice(a, m);
}

} // verus!
