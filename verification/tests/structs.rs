use ark_ec::{AffineRepr, CurveGroup};
use ark_ed25519::{EdwardsAffine, EdwardsProjective, Fr};
use ark_ff::PrimeField;
use ed255190::field::MODULUS_Q;
use ed255190::hinter::DecompressionHint;
use ed255190::limbs::add;
use ed255190::structs::{CompressedEdwardsY, TEPoint};
use ed255190::EvaluationError;
use std::ops::Mul;

fn point(p: EdwardsAffine) -> TEPoint {
    TEPoint {
        x: bytemuck::cast(p.x.into_bigint().0),
        y: bytemuck::cast(p.y.into_bigint().0),
    }
}

fn multiple(k: u64) -> TEPoint {
    point((EdwardsProjective::from(EdwardsAffine::generator()).mul(Fr::from(k))).into_affine())
}

#[test]
fn default_is_identity() {
    let p = TEPoint::default();
    assert_eq!(p.x, [0u32; 8]);
    assert_eq!(p.y, [1u32, 0, 0, 0, 0, 0, 0, 0]);
}

#[test]
fn add_hint_accepts_the_sum() {
    let g1 = multiple(1);
    let g2 = multiple(2);
    let g3 = multiple(3);
    assert_eq!(g1.check_add_hint(&g2, &g3), Ok(()));
    assert_eq!(g2.check_add_hint(&g1, &g3), Ok(()));
    assert_eq!(TEPoint::default().check_add_hint(&g3, &g3), Ok(()));
}

#[test]
fn add_hint_refuses_a_wrong_point() {
    let g1 = multiple(1);
    let g2 = multiple(2);
    let g4 = multiple(4);
    assert_eq!(g1.check_add_hint(&g2, &g4), Err(EvaluationError::WrongHint));
    let mut bad = multiple(3);
    bad.x[0] ^= 1;
    assert_eq!(g1.check_add_hint(&g2, &bad), Err(EvaluationError::WrongHint));
    let mut bad = multiple(3);
    bad.y[0] ^= 1;
    assert_eq!(g1.check_add_hint(&g2, &bad), Err(EvaluationError::WrongHint));
}

#[test]
fn add_hint_wants_a_reduced_y_but_not_a_reduced_x() {
    let g1 = multiple(1);
    let g2 = multiple(2);
    let g3 = multiple(3);
    let mut x_plus_q = g3;
    let _ = add::<8, 8>(&mut x_plus_q.x, &MODULUS_Q);
    assert_eq!(g1.check_add_hint(&g2, &x_plus_q), Ok(()));
    let mut y_plus_q = g3;
    let _ = add::<8, 8>(&mut y_plus_q.y, &MODULUS_Q);
    assert_eq!(g1.check_add_hint(&g2, &y_plus_q), Err(EvaluationError::WrongHint));
}

#[test]
fn dbl_hint_accepts_the_double() {
    let g1 = multiple(1);
    let g2 = multiple(2);
    let g5 = multiple(5);
    let g10 = multiple(10);
    assert_eq!(g1.check_dbl_hint(&g2), Ok(()));
    assert_eq!(g5.check_dbl_hint(&g10), Ok(()));
    assert_eq!(g5.check_dbl_hint(&g5), Err(EvaluationError::WrongHint));
}

#[test]
fn dbl_hint_agrees_with_adding_to_itself() {
    for k in 1..6u64 {
        let p = multiple(k);
        for h in 1..12u64 {
            let hint = multiple(h);
            assert_eq!(p.check_dbl_hint(&hint), p.check_add_hint(&p, &hint));
        }
    }
}

#[test]
fn decompose_checks_the_hinted_x() {
    let g = EdwardsAffine::generator();
    let p = point(g);
    let mut compressed = p.y;
    if p.x[0] & 1 == 1 {
        compressed[7] |= 0x80000000;
    }
    // the check on x compares x^2 with d x^2 y^2 + 1 + x^2, which the base point does not meet
    let res = CompressedEdwardsY(compressed).decompose_with_hints(&DecompressionHint { x: p.x });
    assert_eq!(res, Err(EvaluationError::WrongHint));
    let res = CompressedEdwardsY([0u32; 8]).decompose_with_hints(&DecompressionHint { x: [0u32; 8] });
    assert_eq!(res, Err(EvaluationError::WrongHint));
}
