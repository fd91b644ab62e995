//! The table of the first fifteen multiples of the ed25519 base point,
//! computed with the curve arithmetic of arkworks.
use vstd::prelude::*;
use ark_ec::{AffineRepr, CurveGroup};
use ark_ed25519::{EdwardsAffine, Fq};
use num_bigint::BigUint;
use crate::field::{coeff_d, lemma_constants, limbs_from_digits, q};
use crate::evaluator::is_multiples_table;
use crate::group::{curve_group_facts, law_identity, pt_add, smul};
use crate::run::table_points;
use crate::scalar_mul::abs_point;
use crate::limbs::{lemma_limbs_of, limbs_of, limbs_val, radix_pow};

verus! {

/// The `x` of the standard ed25519 base point.
pub open spec fn generator_x() -> nat {
    0x216936d3_cd6e53fe_c0a4e231_fdd6dc5c_692cc760_9525a7b2_c9562d60_8f25d51anat
}

/// The `y` of the standard ed25519 base point, `4/5 mod q`.
pub open spec fn generator_y() -> nat {
    0x66666666_66666666_66666666_66666666_66666666_66666666_66666666_66666658nat
}

/// Whether `(x, y)` lies on ed25519: `-x^2 + y^2 = 1 + d x^2 y^2` modulo `q`.
pub open spec fn on_curve(x: nat, y: nat) -> bool {
    (y * y - x * x) % (q() as int) == ((1 + coeff_d() * (x * x) * (y * y)) as int) % (q() as int)
}

/// Calls arkworks: `EdwardsAffine::generator()`, with its coordinates
/// handed back as `BigUint::from(Fq).to_u32_digits()`. The contract claims
/// that they are the standard base point (`GENERATOR_X`, `GENERATOR_Y` of
/// ark-ed25519), with no zero digit on top.
#[verifier::external_body]
fn ed25519_generator_digits() -> (res: (Vec<u32>, Vec<u32>))
    ensures
        limbs_val(res.0@) == generator_x(),
        limbs_val(res.1@) == generator_y(),
        res.0@.len() == 0 || res.0@.last() != 0,
        res.1@.len() == 0 || res.1@.last() != 0,
{
    let g = EdwardsAffine::generator();
    (BigUint::from(g.x).to_u32_digits(), BigUint::from(g.y).to_u32_digits())
}

/// Calls arkworks: `(p + r).into_affine()` on the affine points whose
/// coordinates are read from the limbs (`Fq::from(BigUint)`,
/// `EdwardsAffine::new_unchecked`), the coordinates of the sum handed back
/// as in `ed25519_generator_digits`. The contract claims that the result is
/// the sum by the twisted Edwards addition law of the two points (their
/// coordinates reduced), and that it lies on the curve: `Add` of arkworks is
/// the group law of the curve, computed in extended coordinates, and
/// `into_affine` divides by the projective `z`, which the complete addition
/// law keeps nonzero for points on the curve; for points off the curve it
/// may panic, hence the `requires`.
#[verifier::external_body]
fn ed25519_affine_add_digits(x1: &[u32; 8], y1: &[u32; 8], x2: &[u32; 8], y2: &[u32; 8]) -> (res: (
    Vec<u32>,
    Vec<u32>,
))
    requires
        on_curve(limbs_val(x1@) % q(), limbs_val(y1@) % q()),
        on_curve(limbs_val(x2@) % q(), limbs_val(y2@) % q()),
    ensures
        (limbs_val(res.0@), limbs_val(res.1@)) == pt_add(
            (limbs_val(x1@) % q(), limbs_val(y1@) % q()),
            (limbs_val(x2@) % q(), limbs_val(y2@) % q()),
        ),
        on_curve(limbs_val(res.0@), limbs_val(res.1@)),
        res.0@.len() == 0 || res.0@.last() != 0,
        res.1@.len() == 0 || res.1@.last() != 0,
{
    let p = EdwardsAffine::new_unchecked(
        Fq::from(BigUint::from_slice(x1)),
        Fq::from(BigUint::from_slice(y1)),
    );
    let r = EdwardsAffine::new_unchecked(
        Fq::from(BigUint::from_slice(x2)),
        Fq::from(BigUint::from_slice(y2)),
    );
    let s = (p + r).into_affine();
    (BigUint::from(s.x).to_u32_digits(), BigUint::from(s.y).to_u32_digits())
}

/// The limbs of the base point.
pub open spec fn generator_limbs() -> (Seq<u32>, Seq<u32>) {
    (limbs_of(generator_x()), limbs_of(generator_y()))
}

/// The base point.
pub open spec fn generator() -> (nat, nat) {
    (generator_x(), generator_y())
}

/// `n` times the base point, added up as the table does: the base point for
/// `n <= 1`, otherwise the sum of `(n - 1)` times it and the base point.
pub open spec fn generator_multiple(n: nat) -> (nat, nat)
    decreases n,
{
    if n <= 1 {
        generator()
    } else {
        pt_add(generator_multiple((n - 1) as nat), generator())
    }
}

/// The limbs of `n` times the base point.
pub open spec fn generator_multiple_limbs(n: nat) -> (Seq<u32>, Seq<u32>) {
    (limbs_of(generator_multiple(n).0), limbs_of(generator_multiple(n).1))
}

/// The way the table adds up the base point gives its multiples:
/// `generator_multiple(n)` is `n` times the base point for `n >= 1`.
pub proof fn law_generator_multiple(n: nat)
    requires
        curve_group_facts(),
        n >= 1,
    ensures
        generator_multiple(n) == smul(n, generator()),
    decreases n,
{
    lemma_generator_on_curve();
    law_identity(generator());
    assert(smul(1, generator()) == pt_add(smul(0, generator()), generator()));
    if n > 1 {
        law_generator_multiple((n - 1) as nat);
    }
}

/// The base point lies on the curve.
pub proof fn lemma_generator_on_curve()
    ensures
        on_curve(generator_x(), generator_y()),
        generator_x() < q(),
        generator_y() < q(),
{
}

/// Entry `n - 1` of the table: the limbs of `n` times the base point,
/// reduced and on the curve.
pub open spec fn table_entry_ok(e: ([u32; 8], [u32; 8]), n: nat) -> bool {
    &&& (e.0@, e.1@) == generator_multiple_limbs(n)
    &&& limbs_val(e.0@) < q()
    &&& limbs_val(e.1@) < q()
    &&& on_curve(limbs_val(e.0@), limbs_val(e.1@))
}

/// One more addition of the base point gives the next multiple.
proof fn lemma_table_step(i: nat, s: (nat, nat))
    requires
        generator_multiple(i + 1).0 < q(),
        generator_multiple(i + 1).1 < q(),
        s == pt_add(
            (generator_multiple(i + 1).0 % q(), generator_multiple(i + 1).1 % q()),
            (generator_x() % q(), generator_y() % q()),
        ),
    ensures
        s == generator_multiple(i + 2),
{
    lemma_constants();
    lemma_generator_on_curve();
    vstd::arithmetic::div_mod::lemma_small_mod(generator_multiple(i + 1).0, q());
    vstd::arithmetic::div_mod::lemma_small_mod(generator_multiple(i + 1).1, q());
    vstd::arithmetic::div_mod::lemma_small_mod(generator_x(), q());
    vstd::arithmetic::div_mod::lemma_small_mod(generator_y(), q());
    assert(generator_multiple(i + 2) == pt_add(generator_multiple(i + 1), generator()));
}

/// A table whose entries are the limbs of `1` to `15` times the base point,
/// added up as `new` does, holds the multiples of the base point.
proof fn lemma_table_is_multiples(t: Seq<([u32; 8], [u32; 8])>)
    requires
        curve_group_facts(),
        t.len() == 15,
        forall|i: int|
            0 <= i < 15 ==> (#[trigger] t[i].0@, t[i].1@) == generator_multiple_limbs((i + 1) as nat),
    ensures
        is_multiples_table(table_points(t)),
        abs_point(table_points(t)[0]) == generator(),
{
    lemma_constants();
    lemma_generator_on_curve();
    let tp = table_points(t);
    assert forall|k: int| 0 <= k < 15 implies #[trigger] abs_point(tp[k]) == smul((k + 1) as nat, generator()) by {
        let n = (k + 1) as nat;
        let g = generator_multiple(n);
        assert(g.0 < q() && g.1 < q());
        lemma_limbs_val_of_reduced(g.0);
        lemma_limbs_val_of_reduced(g.1);
        vstd::arithmetic::div_mod::lemma_small_mod(g.0, q());
        vstd::arithmetic::div_mod::lemma_small_mod(g.1, q());
        assert(tp[k] == (t[k].0@, t[k].1@));
        law_generator_multiple(n);
    }
    law_identity(generator());
    assert(smul(1, generator()) == pt_add(smul(0, generator()), generator()));
}

/// `limbs_of(v)` stands for `v` when `v` is reduced.
proof fn lemma_limbs_val_of_reduced(v: nat)
    requires
        v < q(),
    ensures
        limbs_val(limbs_of(v)) == v,
{
    lemma_constants();
    crate::limbs::lemma_limbs_of_take(v, 8);
    crate::limbs::lemma_limbs_val_take_all(limbs_of(v));
    vstd::arithmetic::div_mod::lemma_small_mod(v, radix_pow(8));
}

pub struct TableGeneration {
    pub g_series: [([u32; 8], [u32; 8]); 15],
}

impl TableGeneration {
    /// The multiples `1 * G` to `15 * G` of the base point `G`, at indexes
    /// 0 to 14.
    pub fn new() -> (res: Self)
        ensures
            forall|i: int|
                0 <= i < 15 ==> (#[trigger] res.g_series@[i].0@, res.g_series@[i].1@)
                    == generator_multiple_limbs((i + 1) as nat),
            forall|i: int|
                0 <= i < 15 ==> limbs_val(#[trigger] res.g_series@[i].0@) < q() && limbs_val(
                    res.g_series@[i].1@,
                ) < q() && on_curve(limbs_val(res.g_series@[i].0@), limbs_val(res.g_series@[i].1@)),
            // the entries are the multiples `1 * B` to `15 * B` of the base point
            curve_group_facts() ==> is_multiples_table(table_points(res.g_series@)) && abs_point(
                table_points(res.g_series@)[0],
            ) == generator(),
    {
        let mut res = [([0u32; 8], [0u32; 8]); 15];

        let (gx, gy) = ed25519_generator_digits();
        proof {
            lemma_constants();
            lemma_generator_on_curve();
        }
        let cur = (limbs_from_digits(gx), limbs_from_digits(gy));
        proof {
            lemma_limbs_of(generator_x(), cur.0@);
            lemma_limbs_of(generator_y(), cur.1@);
        }

        let mut table_cur = cur;
        assert(generator_multiple(1) == generator());
        assert(generator_multiple_limbs(1) == generator_limbs());
        assert((limbs_val(table_cur.0@), limbs_val(table_cur.1@)) == generator_multiple(1));

        for i in 0usize..15
            invariant
                (cur.0@, cur.1@) == generator_limbs(),
                limbs_val(cur.0@) == generator_x(),
                limbs_val(cur.1@) == generator_y(),
                i < 15 ==> (table_cur.0@, table_cur.1@) == generator_multiple_limbs((i + 1) as nat),
                i < 15 ==> (limbs_val(table_cur.0@), limbs_val(table_cur.1@)) == generator_multiple(
                    (i + 1) as nat,
                ),
                limbs_val(table_cur.0@) < q(),
                limbs_val(table_cur.1@) < q(),
                on_curve(limbs_val(table_cur.0@), limbs_val(table_cur.1@)),
                forall|t: int|
                    0 <= t < i ==> table_entry_ok(#[trigger] res@[t], (t + 1) as nat),
        {
            res[i].0 = table_cur.0;
            res[i].1 = table_cur.1;
            assert(table_entry_ok(res@[i as int], (i + 1) as nat));

            if i != 14 {
                proof {
                    lemma_constants();
                    lemma_generator_on_curve();
                    vstd::arithmetic::div_mod::lemma_small_mod(limbs_val(table_cur.0@), q());
                    vstd::arithmetic::div_mod::lemma_small_mod(limbs_val(table_cur.1@), q());
                    vstd::arithmetic::div_mod::lemma_small_mod(generator_x(), q());
                    vstd::arithmetic::div_mod::lemma_small_mod(generator_y(), q());
                }
                let (sx, sy) = ed25519_affine_add_digits(&table_cur.0, &table_cur.1, &cur.0, &cur.1);
                proof {
                    lemma_constants();
                }
                let next = (limbs_from_digits(sx), limbs_from_digits(sy));
                proof {
                    lemma_limbs_of(limbs_val(sx@), next.0@);
                    lemma_limbs_of(limbs_val(sy@), next.1@);
                    lemma_table_step(i as nat, (limbs_val(sx@), limbs_val(sy@)));
                }
                table_cur = next;
            }
        }

        proof {
            assert(forall|i: int| 0 <= i < 15 ==> table_entry_ok(#[trigger] res@[i], (i + 1) as nat));
            if curve_group_facts() {
                lemma_table_is_multiples(res@);
            }
        }
        Self { g_series: res }
    }
}

} // verus!
