use ark_ec::{AffineRepr, CurveGroup};
use ark_ed25519::{EdwardsAffine, Fq, Fr};
use ark_ff::{BigInteger, PrimeField};
use ed255190::table_generation::TableGeneration;
use std::ops::Mul;

#[test]
fn check_consistency() {
    let hint = TableGeneration::new();

    for i in 0..15 {
        let r_bigint = Fr::from((i + 1) as u8).into_bigint();

        let r = Fr::from_le_bytes_mod_order(&r_bigint.to_bytes_le());
        let point_r = EdwardsAffine::generator().mul(&r).into_affine();

        let x = point_r.x;
        let y = point_r.y;

        let x_reconstructed =
            Fq::from_le_bytes_mod_order(&bytemuck::cast_slice::<u32, u8>(&hint.g_series[i].0));
        let y_reconstructed =
            Fq::from_le_bytes_mod_order(&bytemuck::cast_slice::<u32, u8>(&hint.g_series[i].1));

        assert_eq!(x, x_reconstructed);
        assert_eq!(y, y_reconstructed);
    }
}
