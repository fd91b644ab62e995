use ark_ec::{AffineRepr, CurveGroup};
use ark_ec::twisted_edwards::TECurveConfig;
use ark_ed25519::{EdwardsAffine, EdwardsConfig, EdwardsProjective, Fq, Fr};
use ark_ff::{Field, PrimeField, Zero};
use ed255190::eddsa::AffineEdwardsPoint;
use std::ops::Mul;

fn multiple(k: u64) -> AffineEdwardsPoint {
    let p = (EdwardsProjective::from(EdwardsAffine::generator()).mul(Fr::from(k))).into_affine();
    AffineEdwardsPoint {
        x: bytemuck::cast(p.x.into_bigint().0),
        y: bytemuck::cast(p.y.into_bigint().0),
    }
}

#[test]
fn affine_add_matches_the_group_law() {
    let s = multiple(2).add(&multiple(3));
    let e = multiple(5);
    assert_eq!(s.x, e.x);
    assert_eq!(s.y, e.y);
}

#[test]
fn affine_double_matches_the_group_law() {
    let s = multiple(7).double();
    let e = multiple(14);
    assert_eq!(s.x, e.x);
    assert_eq!(s.y, e.y);
}

#[test]
fn affine_identity_is_neutral() {
    let s = AffineEdwardsPoint::default().add(&multiple(9));
    let e = multiple(9);
    assert_eq!(s.x, e.x);
    assert_eq!(s.y, e.y);
}

#[test]
fn affine_identity_is_neutral_on_the_right() {
    let s = multiple(11).add(&AffineEdwardsPoint::default());
    let e = multiple(11);
    assert_eq!(s.x, e.x);
    assert_eq!(s.y, e.y);
}

#[test]
fn try_add_gives_the_sum_on_the_curve() {
    let s = multiple(4).try_add(&multiple(5)).unwrap();
    let e = multiple(9);
    assert_eq!(s.x, e.x);
    assert_eq!(s.y, e.y);
}

#[test]
fn try_add_refuses_a_vanishing_denominator() {
    // with x1 = y1 = x2 = 1 and y2 = -1/d, 1 + d x1 x2 y1 y2 is zero
    let one = Fq::from(1u64);
    let y2 = -EdwardsConfig::COEFF_D.inverse().unwrap();
    assert!((one + EdwardsConfig::COEFF_D * y2).is_zero());
    let p = AffineEdwardsPoint {
        x: bytemuck::cast(one.into_bigint().0),
        y: bytemuck::cast(one.into_bigint().0),
    };
    let r = AffineEdwardsPoint {
        x: bytemuck::cast(one.into_bigint().0),
        y: bytemuck::cast(y2.into_bigint().0),
    };
    assert!(p.try_add(&r).is_none());
}
