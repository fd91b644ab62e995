use ed255190::field::{mul_mod, MODULUS_Q, MODULUS_Q_MINUS_ONE, ONE, TWO};
use ed255190::limbs::{add, add32_and_overflow, carry32_and_overflow, overflow};

#[test]
fn add32_carries_out() {
    assert_eq!(add32_and_overflow(0xffffffff, 0xffffffff, 0xffffffff), (2, 0xfffffffd));
    assert_eq!(add32_and_overflow(1, 2, 3), (0, 6));
    assert_eq!(add32_and_overflow(0xffffffff, 1, 0), (1, 0));
}

#[test]
fn carry32_carries_out() {
    assert_eq!(carry32_and_overflow(0xffffffff, 1), (1, 0));
    assert_eq!(carry32_and_overflow(5, 3), (0, 8));
    assert_eq!(carry32_and_overflow(0xffffffff, 0xffffffff), (1, 0xfffffffe));
}

#[test]
fn add_full_width_wraps_with_carry() {
    let mut accm = [0xffffffffu32; 8];
    let carry = add::<8, 8>(&mut accm, &[1u32, 0, 0, 0, 0, 0, 0, 0]);
    assert_eq!(carry, 1);
    assert_eq!(accm, [0u32; 8]);
}

#[test]
fn add_short_number_propagates_carry() {
    let mut accm = [0xffffffffu32, 0xffffffff, 7, 0, 0, 0, 0, 0];
    let carry = add::<8, 1>(&mut accm, &[1u32]);
    assert_eq!(carry, 0);
    assert_eq!(accm, [0u32, 0, 8, 0, 0, 0, 0, 0]);
}

#[test]
fn add_mixed_widths() {
    let mut accm = [3u32, 4, 5, 6];
    let carry = add::<4, 2>(&mut accm, &[0xffffffffu32, 0xffffffff]);
    assert_eq!(carry, 0);
    assert_eq!(accm, [2u32, 4, 6, 6]);
}

#[test]
fn overflow_adds_constant_modulo_2_256() {
    let mut accm = [0u32; 8];
    overflow(&mut accm);
    assert_eq!(accm, [0x3d1u32, 1, 0, 0, 0, 0, 0, 0]);

    let mut accm = [0xffffffffu32; 8];
    overflow(&mut accm);
    assert_eq!(accm, [0x3d0u32, 1, 0, 0, 0, 0, 0, 0]);
}

#[test]
fn mul_mod_small_modulus() {
    let five = [5u32, 0, 0, 0, 0, 0, 0, 0];
    let six = [6u32, 0, 0, 0, 0, 0, 0, 0];
    let seven = [7u32, 0, 0, 0, 0, 0, 0, 0];
    assert_eq!(mul_mod(&five, &six, &seven), [2u32, 0, 0, 0, 0, 0, 0, 0]);
}

#[test]
fn mul_mod_by_q() {
    // (q - 1)^2 = 1 modulo q
    assert_eq!(mul_mod(&MODULUS_Q_MINUS_ONE, &MODULUS_Q_MINUS_ONE, &MODULUS_Q), ONE);
    // q reduces to zero
    assert_eq!(mul_mod(&MODULUS_Q, &ONE, &MODULUS_Q), [0u32; 8]);
    // 2 * 2^224 is not reduced below q
    let big = [0u32, 0, 0, 0, 0, 0, 0, 1];
    assert_eq!(mul_mod(&big, &TWO, &MODULUS_Q), [0u32, 0, 0, 0, 0, 0, 0, 2]);
    // 2^255 = 19 modulo q
    let half = [0u32, 0, 0, 0, 0, 0, 0, 0x40000000];
    assert_eq!(mul_mod(&half, &TWO, &MODULUS_Q), [19u32, 0, 0, 0, 0, 0, 0, 0]);
}
