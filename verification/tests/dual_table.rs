use ark_ec::{AffineRepr, CurveGroup};
use ark_ed25519::{EdwardsAffine, EdwardsProjective, Fr};
use ark_ff::{BigInteger, PrimeField, UniformRand};
use ed255190::dual_table_evaluator::{DualTableEvaluator, LongTable};
use ed255190::evaluator::Evaluator;
use ed255190::hinter::ComputeHintStore;
use ed255190::host_hinter::HintBuilder;
use ed255190::eddsa::AffineEdwardsPoint;
use ed255190::structs::TEPoint;
use ed255190::table_generation::TableGeneration;
use ed255190::EvaluationError;
use rand::thread_rng;
use std::ops::Mul;

fn limbs(p: EdwardsAffine) -> ([u32; 8], [u32; 8]) {
    (bytemuck::cast(p.x.into_bigint().0), bytemuck::cast(p.y.into_bigint().0))
}

fn long_table(base: EdwardsAffine) -> LongTable {
    let mut table = [[([0u32; 8], [0u32; 8]); 15]; 64];
    let mut cur = EdwardsProjective::from(base);
    for p in 0..64 {
        let mut acc = cur;
        for k in 0..15 {
            table[p][k] = limbs(acc.into_affine());
            acc += cur;
        }
        cur = cur.mul(Fr::from(16u64));
    }
    table
}

fn flatten(hints: Vec<[u32; 8]>) -> Vec<u32> {
    let mut words = Vec::new();
    for entry in hints {
        for i in 0..8 {
            words.push(entry[i]);
        }
    }
    words
}

#[test]
fn dual_table_evaluation_matches_the_group_law() {
    let mut prng = thread_rng();
    let g = EdwardsAffine::generator();
    let g2 = EdwardsAffine::rand(&mut prng);
    let g_long = long_table(g);
    let g2_long = long_table(g2);

    for _ in 0..3 {
        let s1_fe = Fr::rand(&mut prng);
        let s2_fe = Fr::rand(&mut prng);
        let s1: [u32; 8] = bytemuck::cast(s1_fe.into_bigint().0);
        let s2: [u32; 8] = bytemuck::cast(s2_fe.into_bigint().0);

        let words = flatten(HintBuilder::build_g2_in_table(&s1, &s2, &g_long, &g2_long));
        let mut store = ComputeHintStore::new(&words);
        let res = DualTableEvaluator::new(&s1, &s2).evaluate(&g_long, &g2_long, &mut store);
        let sum = res.unwrap();

        let expected = (g.mul(&s1_fe) + g2.mul(&s2_fe)).into_affine();
        let (ex, ey) = limbs(expected);
        assert_eq!(sum[0..8], ex);
        assert_eq!(sum[8..16], ey);
        assert_eq!(expected.x.into_bigint().to_bytes_le().len(), 32);
    }
}

#[test]
fn dual_table_evaluation_refuses_a_tampered_hint() {
    let mut prng = thread_rng();
    let g = EdwardsAffine::generator();
    let g2 = EdwardsAffine::rand(&mut prng);
    let g_long = long_table(g);
    let g2_long = long_table(g2);
    let s1 = [0x12345678u32, 0, 0, 0, 0, 0, 0, 0];
    let s2 = [0x9abcdef0u32, 0, 0, 0, 0, 0, 0, 0];

    let mut words = flatten(HintBuilder::build_g2_in_table(&s1, &s2, &g_long, &g2_long));
    words[20] ^= 4;
    let mut store = ComputeHintStore::new(&words);
    let res = DualTableEvaluator::new(&s1, &s2).evaluate(&g_long, &g2_long, &mut store);
    assert_eq!(res, Err(EvaluationError::WrongHint));
}

#[test]
fn dual_table_evaluation_of_zero_scalars_is_identity() {
    let g_long = long_table(EdwardsAffine::generator());
    let s = [0u32; 8];
    let words: Vec<u32> = Vec::new();
    let mut store = ComputeHintStore::new(&words);
    let res = DualTableEvaluator::new(&s, &s).evaluate(&g_long, &g_long, &mut store);
    let mut identity = [0u32; 16];
    identity[8] = 1;
    assert_eq!(res, Ok(identity));
}

#[test]
fn windowed_evaluation_refuses_a_tampered_hint() {
    let mut prng = thread_rng();
    let g_table = TableGeneration::new().g_series;
    let g2_ge = EdwardsAffine::rand(&mut prng);
    let (g2x, g2y) = limbs(g2_ge);
    let s1 = [7u32, 0, 0, 0, 0, 0, 0, 0x10000000];
    let s2 = [0u32, 0, 0, 0, 0, 0, 0, 3];

    let hints = HintBuilder::build_unknown_g2(&s1, &s2, &AffineEdwardsPoint { x: g2x, y: g2y }, &g_table);
    // the table of g2 takes the first 28 hints
    let mut words = flatten(hints.clone());
    words[8 * 30 + 3] ^= 1;
    let mut store = ComputeHintStore::new(&words);
    let eval = Evaluator::new(&s1, &s2, &TEPoint { x: g2x, y: g2y });
    assert_eq!(eval.evaluate(&g_table, &mut store), Err(EvaluationError::WrongHint));

    let words = flatten(hints);
    let mut store = ComputeHintStore::new(&words);
    let expected = (EdwardsAffine::generator().mul(&Fr::from_le_bytes_mod_order(&bytemuck::cast_slice::<u32, u8>(&s1)))
        + g2_ge.mul(&Fr::from_le_bytes_mod_order(&bytemuck::cast_slice::<u32, u8>(&s2))))
    .into_affine();
    let (ex, ey) = limbs(expected);
    let sum = eval.evaluate(&g_table, &mut store).unwrap();
    assert_eq!(sum[0..8], ex);
    assert_eq!(sum[8..16], ey);
}

#[test]
fn checked_builders_agree_with_the_builders() {
    let mut prng = thread_rng();
    let g = EdwardsAffine::generator();
    let g2 = EdwardsAffine::rand(&mut prng);
    let g_long = long_table(g);
    let g2_long = long_table(g2);
    let s1: [u32; 8] = bytemuck::cast(Fr::rand(&mut prng).into_bigint().0);
    let s2: [u32; 8] = bytemuck::cast(Fr::rand(&mut prng).into_bigint().0);
    let built = HintBuilder::build_g2_in_table(&s1, &s2, &g_long, &g2_long);
    let tried = HintBuilder::try_build_g2_in_table(&s1, &s2, &g_long, &g2_long).unwrap();
    assert_eq!(built, tried);

    let table = TableGeneration::new();
    let (gx, gy) = limbs(g2);
    let p2 = AffineEdwardsPoint { x: gx, y: gy };
    let built = HintBuilder::build_unknown_g2(&s1, &s2, &p2, &table.g_series);
    let tried = HintBuilder::try_build_unknown_g2(&s1, &s2, &p2, &table.g_series).unwrap();
    assert_eq!(built, tried);
}
