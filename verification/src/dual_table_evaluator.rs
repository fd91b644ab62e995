//! Double scalar multiplication `s1 * G + s2 * G2` with one precomputed
//! table per four-bit digit position for each base, checked step by step
//! against hints.
use vstd::prelude::*;
use crate::hinter::ComputeHintStreamer;
use crate::field::q;
use crate::group::{
    combo, curve_group_facts, identity_pt, is_point, law_identity, lemma_combo_add_first,
    lemma_combo_add_second, lemma_smul_point, smul,
};
use crate::limbs::limbs_val;
use crate::run::{
    checked_step, hints_last_from, identity_limbs, lemma_windows_index, nibble, point_limbs,
    run_from, run_len_from, table_points, windows,
};
use crate::scalar_mul::{
    abs_fold, abs_point, lemma_abs_fold_concat, lemma_combo_zero, lemma_fold_short,
    lemma_identity_limbs, lemma_nibble_bound, lemma_run_sound, lemma_scalar_digits,
    lemma_windows_all, nib_sum, pow16, steps_on_curve,
};
use crate::structs::TEPoint;
use crate::EvaluationError;

verus! {

/// For each of the 64 digit positions `p`, the multiples `k * 16^p * B`
/// (`k` from 1 to 15) of a base point `B`, at index `k - 1`.
pub type LongTable = [[([u32; 8], [u32; 8]); 15]; 64];

/// The points of a long table, position by position.
pub open spec fn long_table_points(t: LongTable) -> Seq<Seq<(Seq<u32>, Seq<u32>)>> {
    Seq::new(64, |p: int| table_points(t[p]@))
}

/// The steps of digit position `p`: add the table entry for the digit of
/// `s1`, then the one for the digit of `s2`, skipping zero digits.
pub open spec fn dual_window(
    s1: Seq<u32>,
    s2: Seq<u32>,
    gl: Seq<Seq<(Seq<u32>, Seq<u32>)>>,
    g2l: Seq<Seq<(Seq<u32>, Seq<u32>)>>,
    p: int,
) -> Seq<Option<(Seq<u32>, Seq<u32>)>> {
    let k1 = nibble(s1, p) as int;
    let k2 = nibble(s2, p) as int;
    (if k1 != 0 {
        seq![Some(gl[p][k1 - 1])]
    } else {
        Seq::empty()
    }) + (if k2 != 0 {
        seq![Some(g2l[p][k2 - 1])]
    } else {
        Seq::empty()
    })
}

/// All steps of the dual-table evaluation, digit position 0 first.
pub open spec fn dual_steps(
    s1: Seq<u32>,
    s2: Seq<u32>,
    gl: Seq<Seq<(Seq<u32>, Seq<u32>)>>,
    g2l: Seq<Seq<(Seq<u32>, Seq<u32>)>>,
) -> Seq<Option<(Seq<u32>, Seq<u32>)>> {
    windows(|p: int| dual_window(s1, s2, gl, g2l, p), 64)
}

pub struct DualTableEvaluator {
    pub s1: [u32; 8],
    pub s2: [u32; 8],
}

impl DualTableEvaluator {
    /// The steps that `evaluate` checks for these scalars and tables.
    pub open spec fn steps(&self, g_long_table: LongTable, g2_long_table: LongTable) -> Seq<
        Option<(Seq<u32>, Seq<u32>)>,
    > {
        dual_steps(
            self.s1@,
            self.s2@,
            long_table_points(g_long_table),
            long_table_points(g2_long_table),
        )
    }

    /// `s1 * B + s2 * G2` with `B`, `G2` the points whose multiples the two
    /// long tables hold (their first entries).
    pub open spec fn expected_point(&self, g_long_table: LongTable, g2_long_table: LongTable) -> (
        nat,
        nat,
    ) {
        combo(
            limbs_val(self.s1@),
            abs_point(long_table_points(g_long_table)[0][0]),
            limbs_val(self.s2@),
            abs_point(long_table_points(g2_long_table)[0][0]),
        )
    }

    pub fn new(s1: &[u32; 8], s2: &[u32; 8]) -> (res: Self)
        ensures
            res.s1 == *s1,
            res.s2 == *s2,
    {
        // Warning: format checking over s1 and s2 and g2 are not implemented yet.
        Self { s1: *s1, s2: *s2 }
    }

    /// Runs the steps from the identity, taking two hints (`x`, then `y`)
    /// per step; returns the limbs of `x` then `y` of the final sum, or
    /// `WrongHint` at the first refused hint. Whatever the hints, a result
    /// that is returned is `s1 * B + s2 * G2` (its `x` modulo `q`, its `y`
    /// reduced) when the long tables hold the multiples of `B` and `G2`.
    pub fn evaluate(
        &self,
        g_long_table: &LongTable,
        g2_long_table: &LongTable,
        compute_hint: &mut impl ComputeHintStreamer,
    ) -> (res: Result<[u32; 16], EvaluationError>)
        requires
            hints_last_from(
                identity_limbs(),
                self.steps(*g_long_table, *g2_long_table),
                old(compute_hint).pending(),
                0,
            ),
        ensures
            ({
                let steps = self.steps(*g_long_table, *g2_long_table);
                let h = old(compute_hint).pending();
                let out = run_from(identity_limbs(), steps, h, 0);
                &&& res is Ok <==> out is Some
                &&& res matches Ok(r) ==> r@ == out.unwrap().0 + out.unwrap().1
                &&& res matches Err(e) ==> e == EvaluationError::WrongHint
                &&& final(compute_hint).pending() == h.skip(
                    (2 * run_len_from(identity_limbs(), steps, h, 0)) as int,
                )
            }),
            // whatever the hints, an accepted result is `s1 * B + s2 * G2`
            curve_group_facts() && is_long_multiples_table(long_table_points(*g_long_table))
                && is_long_multiples_table(long_table_points(*g2_long_table)) ==> (res matches Ok(
                r,
            ) ==> limbs_val(r@.subrange(0, 8)) % q() == self.expected_point(
                *g_long_table,
                *g2_long_table,
            ).0 && limbs_val(r@.subrange(8, 16)) == self.expected_point(
                *g_long_table,
                *g2_long_table,
            ).1),
    {
        let ghost gl = long_table_points(*g_long_table);
        let ghost g2l = long_table_points(*g2_long_table);
        let ghost w = |p: int| dual_window(self.s1@, self.s2@, gl, g2l, p);
        let ghost steps = self.steps(*g_long_table, *g2_long_table);
        let ghost h0 = compute_hint.pending();
        let ghost mut k: nat = 0;
        assert(steps == windows(w, 64));
        let mut sum = TEPoint::default();
        assert(point_limbs(sum.x, sum.y) == identity_limbs());
        assert(h0.skip(0) =~= h0);
        for i in 0usize..8
            invariant
                steps == windows(w, 64),
                steps == self.steps(*g_long_table, *g2_long_table),
                h0 == old(compute_hint).pending(),
                w == (|p: int| dual_window(self.s1@, self.s2@, gl, g2l, p)),
                gl == long_table_points(*g_long_table),
                g2l == long_table_points(*g2_long_table),
                k == windows(w, (8 * i) as nat).len(),
                run_from(identity_limbs(), steps, h0, 0) == run_from(
                    point_limbs(sum.x, sum.y),
                    steps,
                    h0,
                    k,
                ),
                run_len_from(identity_limbs(), steps, h0, 0) == k + run_len_from(
                    point_limbs(sum.x, sum.y),
                    steps,
                    h0,
                    k,
                ),
                hints_last_from(point_limbs(sum.x, sum.y), steps, h0, k),
                compute_hint.pending() == h0.skip((2 * k) as int),
                h0.len() >= 2 * k,
        {
            for j in 0usize..8
                invariant
                    0 <= i < 8,
                    steps == windows(w, 64),
                steps == self.steps(*g_long_table, *g2_long_table),
                h0 == old(compute_hint).pending(),
                    w == (|p: int| dual_window(self.s1@, self.s2@, gl, g2l, p)),
                    gl == long_table_points(*g_long_table),
                    g2l == long_table_points(*g2_long_table),
                    k == windows(w, (8 * i + j) as nat).len(),
                    run_from(identity_limbs(), steps, h0, 0) == run_from(
                        point_limbs(sum.x, sum.y),
                        steps,
                        h0,
                        k,
                    ),
                    run_len_from(identity_limbs(), steps, h0, 0) == k + run_len_from(
                        point_limbs(sum.x, sum.y),
                        steps,
                        h0,
                        k,
                    ),
                    hints_last_from(point_limbs(sum.x, sum.y), steps, h0, k),
                    compute_hint.pending() == h0.skip((2 * k) as int),
                    h0.len() >= 2 * k,
            {
                let ghost p = 8 * i + j;
                let ghost k_start = k;
                let s1_word = self.s1[i];
                let s2_word = self.s2[i];
                let bits_k1 = ((s1_word >> ((j * 4) as u32)) & 0xF) as usize;
                let bits_k2 = ((s2_word >> ((j * 4) as u32)) & 0xF) as usize;
                proof {
                    assert(p / 8 == i && p % 8 == j);
                    assert(bits_k1 == nibble(self.s1@, p));
                    assert(bits_k2 == nibble(self.s2@, p));
                    assert((s1_word >> ((j * 4) as u32)) & 0xF <= 15) by (bit_vector);
                    assert((s2_word >> ((j * 4) as u32)) & 0xF <= 15) by (bit_vector);
                }

                if bits_k1 != 0 {
                    let point = g_long_table[i * 8 + j][bits_k1 - 1];
                    let rhs = TEPoint { x: point.0, y: point.1 };
                    proof {
                        lemma_windows_index(w, p as nat, 0, 64);
                    }
                    let r = checked_step(
                        &mut sum,
                        Some(&rhs),
                        compute_hint,
                        Ghost(steps),
                        Ghost(h0),
                        Ghost(k),
                    );
                    if r.is_err() {
                        return Err(EvaluationError::WrongHint);
                    }
                    proof {
                        k = k + 1;
                    }
                }

                if bits_k2 != 0 {
                    let point = g2_long_table[i * 8 + j][bits_k2 - 1];
                    let rhs = TEPoint { x: point.0, y: point.1 };
                    proof {
                        lemma_windows_index(w, p as nat, (k - k_start) as int, 64);
                    }
                    let r = checked_step(
                        &mut sum,
                        Some(&rhs),
                        compute_hint,
                        Ghost(steps),
                        Ghost(h0),
                        Ghost(k),
                    );
                    if r.is_err() {
                        return Err(EvaluationError::WrongHint);
                    }
                    proof {
                        k = k + 1;
                    }
                }
                assert(windows(w, (p + 1) as nat) == windows(w, p as nat) + w(p));
            }
        }

        let mut res = [0u32; 16];
        for i in 0usize..8
            invariant
                forall|t: int| 0 <= t < i ==> res@[t] == sum.x@[t] && res@[t + 8] == sum.y@[t],
        {
            res[i] = sum.x[i];
            res[i + 8] = sum.y[i];
        }
        assert(res@ =~= sum.x@ + sum.y@);
        proof {
            let gl = long_table_points(*g_long_table);
            let g2l = long_table_points(*g2_long_table);
            if curve_group_facts() && is_long_multiples_table(gl) && is_long_multiples_table(g2l) {
                lemma_dual_sound(self.s1@, self.s2@, gl, g2l, old(compute_hint).pending());
                assert(res@.subrange(0, 8) =~= sum.x@);
                assert(res@.subrange(8, 16) =~= sum.y@);
            }
        }
        Ok(res)
    }
}

/// Whether a long table holds, at position `p` and index `k - 1`, the
/// multiple `k * 16^p * B` of a point `B` of the curve (then `B` is its
/// first entry).
pub open spec fn is_long_multiples_table(t: Seq<Seq<(Seq<u32>, Seq<u32>)>>) -> bool {
    &&& t.len() == 64
    &&& forall|p: int| 0 <= p < 64 ==> (#[trigger] t[p]).len() == 15
    &&& is_point(abs_point(t[0][0]))
    &&& forall|p: int, k: int|
        0 <= p < 64 && 0 <= k < 15 ==> #[trigger] abs_point(t[p][k]) == smul(
            ((k + 1) * pow16(p as nat)) as nat,
            abs_point(t[0][0]),
        )
}

/// Digit position `p` moves `a B + b G` to
/// `(a + k1 16^p) B + (b + k2 16^p) G`, where `k1`, `k2` are the digits.
proof fn lemma_dual_window(
    s1: Seq<u32>,
    s2: Seq<u32>,
    gl: Seq<Seq<(Seq<u32>, Seq<u32>)>>,
    g2l: Seq<Seq<(Seq<u32>, Seq<u32>)>>,
    p: int,
    a: nat,
    b: nat,
)
    requires
        curve_group_facts(),
        is_long_multiples_table(gl),
        is_long_multiples_table(g2l),
        0 <= p < 64,
    ensures
        abs_fold(
            combo(a, abs_point(gl[0][0]), b, abs_point(g2l[0][0])),
            dual_window(s1, s2, gl, g2l, p),
            0,
        ) == combo(
            a + (nibble(s1, p) as nat) * pow16(p as nat),
            abs_point(gl[0][0]),
            b + (nibble(s2, p) as nat) * pow16(p as nat),
            abs_point(g2l[0][0]),
        ),
{
    let bp = abs_point(gl[0][0]);
    let gp = abs_point(g2l[0][0]);
    let k1 = nibble(s1, p) as int;
    let k2 = nibble(s2, p) as int;
    let e = pow16(p as nat);
    lemma_nibble_bound(s1, p);
    lemma_nibble_bound(s2, p);
    let a1: Seq<Option<(Seq<u32>, Seq<u32>)>> = if k1 != 0 {
        seq![Some(gl[p][k1 - 1])]
    } else {
        Seq::empty()
    };
    let a2: Seq<Option<(Seq<u32>, Seq<u32>)>> = if k2 != 0 {
        seq![Some(g2l[p][k2 - 1])]
    } else {
        Seq::empty()
    };
    assert(dual_window(s1, s2, gl, g2l, p) == a1 + a2);
    let c0 = combo(a, bp, b, gp);
    lemma_abs_fold_concat(c0, a1, a2, 0);
    let c1 = combo((a + k1 * e) as nat, bp, b, gp);
    assert(k1 * e >= 0) by (nonlinear_arith)
        requires
            k1 >= 0,
    ;
    assert(k2 * e >= 0) by (nonlinear_arith)
        requires
            k2 >= 0,
    ;
    if k1 != 0 {
        assert(abs_point(gl[p][k1 - 1]) == smul((k1 * e) as nat, bp));
        lemma_combo_add_first(a, bp, b, gp, (k1 * e) as nat);
        lemma_fold_short(c0, Some(gl[p][k1 - 1]));
    } else {
        lemma_fold_short(c0, None);
    }
    assert(abs_fold(c0, a1, 0) == c1);
    let c2 = combo((a + k1 * e) as nat, bp, (b + k2 * e) as nat, gp);
    if k2 != 0 {
        assert(abs_point(g2l[p][k2 - 1]) == smul((k2 * e) as nat, gp));
        lemma_combo_add_second((a + k1 * e) as nat, bp, b, gp, (k2 * e) as nat);
        lemma_fold_short(c1, Some(g2l[p][k2 - 1]));
    } else {
        lemma_fold_short(c1, None);
    }
    assert(abs_fold(c1, a2, 0) == c2);
}

/// The first `n` digit positions, from the identity, reach `a B + b G`
/// with `a`, `b` the value of the `n` lowest digits of the scalars.
proof fn lemma_dual_prefix(
    s1: Seq<u32>,
    s2: Seq<u32>,
    gl: Seq<Seq<(Seq<u32>, Seq<u32>)>>,
    g2l: Seq<Seq<(Seq<u32>, Seq<u32>)>>,
    w: spec_fn(int) -> Seq<Option<(Seq<u32>, Seq<u32>)>>,
    n: nat,
)
    requires
        curve_group_facts(),
        is_long_multiples_table(gl),
        is_long_multiples_table(g2l),
        w == (|p: int| dual_window(s1, s2, gl, g2l, p)),
        n <= 64,
    ensures
        abs_fold(identity_pt(), windows(w, n), 0) == combo(
            nib_sum(s1, n),
            abs_point(gl[0][0]),
            nib_sum(s2, n),
            abs_point(g2l[0][0]),
        ),
    decreases n,
{
    let bp = abs_point(gl[0][0]);
    let gp = abs_point(g2l[0][0]);
    if n == 0 {
        lemma_combo_zero(bp, gp);
        lemma_fold_short(identity_pt(), None);
        assert(windows(w, 0) =~= Seq::empty());
    } else {
        let m = (n - 1) as nat;
        lemma_dual_prefix(s1, s2, gl, g2l, w, m);
        assert(windows(w, n) == windows(w, m) + w(m as int));
        lemma_abs_fold_concat(identity_pt(), windows(w, m), w(m as int), 0);
        lemma_dual_window(s1, s2, gl, g2l, m as int, nib_sum(s1, m), nib_sum(s2, m));
    }
}

/// A property of every long-table entry holds of every step.
pub proof fn lemma_dual_steps_all(
    s1: Seq<u32>,
    s2: Seq<u32>,
    gl: Seq<Seq<(Seq<u32>, Seq<u32>)>>,
    g2l: Seq<Seq<(Seq<u32>, Seq<u32>)>>,
    pred: spec_fn(Option<(Seq<u32>, Seq<u32>)>) -> bool,
)
    requires
        forall|p: int, k: int| 0 <= p < 64 && 0 <= k < 15 ==> #[trigger] pred(Some(gl[p][k])),
        forall|p: int, k: int| 0 <= p < 64 && 0 <= k < 15 ==> #[trigger] pred(Some(g2l[p][k])),
    ensures
        forall|i: int|
            0 <= i < dual_steps(s1, s2, gl, g2l).len() ==> pred(
                #[trigger] dual_steps(s1, s2, gl, g2l)[i],
            ),
{
    let w = |p: int| dual_window(s1, s2, gl, g2l, p);
    assert forall|p: int, j: int| 0 <= p < 64 && 0 <= j < w(p).len() implies pred(
        #[trigger] w(p)[j],
    ) by {
        let k1 = nibble(s1, p) as int;
        let k2 = nibble(s2, p) as int;
        lemma_nibble_bound(s1, p);
        lemma_nibble_bound(s2, p);
        let a1: Seq<Option<(Seq<u32>, Seq<u32>)>> = if k1 != 0 {
            seq![Some(gl[p][k1 - 1])]
        } else {
            Seq::empty()
        };
        let a2: Seq<Option<(Seq<u32>, Seq<u32>)>> = if k2 != 0 {
            seq![Some(g2l[p][k2 - 1])]
        } else {
            Seq::empty()
        };
        assert(w(p) == a1 + a2);
        if j < a1.len() {
            assert(w(p)[j] == a1[j]);
        } else {
            assert(w(p)[j] == a2[j - a1.len()]);
        }
    }
    lemma_windows_all(w, pred, 64);
}

/// Every point that the digit positions add is a point of the curve.
proof fn lemma_dual_steps_on_curve(
    s1: Seq<u32>,
    s2: Seq<u32>,
    gl: Seq<Seq<(Seq<u32>, Seq<u32>)>>,
    g2l: Seq<Seq<(Seq<u32>, Seq<u32>)>>,
)
    requires
        curve_group_facts(),
        is_long_multiples_table(gl),
        is_long_multiples_table(g2l),
    ensures
        steps_on_curve(dual_steps(s1, s2, gl, g2l)),
{
    let pred = |st: Option<(Seq<u32>, Seq<u32>)>| st matches Some(pt) ==> is_point(abs_point(pt));
    assert forall|p: int, k: int| 0 <= p < 64 && 0 <= k < 15 implies #[trigger] pred(Some(gl[p][k])) by {
        let e = pow16(p as nat);
        assert((k + 1) * e >= 0) by (nonlinear_arith)
            requires
                k >= 0,
        ;
        lemma_smul_point(((k + 1) * e) as nat, abs_point(gl[0][0]));
    }
    assert forall|p: int, k: int| 0 <= p < 64 && 0 <= k < 15 implies #[trigger] pred(Some(g2l[p][k])) by {
        let e = pow16(p as nat);
        assert((k + 1) * e >= 0) by (nonlinear_arith)
            requires
                k >= 0,
        ;
        lemma_smul_point(((k + 1) * e) as nat, abs_point(g2l[0][0]));
    }
    lemma_dual_steps_all(s1, s2, gl, g2l, pred);
}

/// An accepted run of the digit positions ends at `s1 B + s2 G`, where `B`
/// and `G` are the points whose multiples the two long tables hold; its
/// `y` is reduced.
pub proof fn lemma_dual_sound(
    s1: Seq<u32>,
    s2: Seq<u32>,
    gl: Seq<Seq<(Seq<u32>, Seq<u32>)>>,
    g2l: Seq<Seq<(Seq<u32>, Seq<u32>)>>,
    h: Seq<Seq<u32>>,
)
    requires
        curve_group_facts(),
        s1.len() == 8,
        s2.len() == 8,
        is_long_multiples_table(gl),
        is_long_multiples_table(g2l),
        run_from(identity_limbs(), dual_steps(s1, s2, gl, g2l), h, 0) is Some,
    ensures
        abs_point(run_from(identity_limbs(), dual_steps(s1, s2, gl, g2l), h, 0).unwrap()) == combo(
            limbs_val(s1),
            abs_point(gl[0][0]),
            limbs_val(s2),
            abs_point(g2l[0][0]),
        ),
        limbs_val(run_from(identity_limbs(), dual_steps(s1, s2, gl, g2l), h, 0).unwrap().1) < q(),
        dual_steps(s1, s2, gl, g2l).len() == 0 ==> combo(
            limbs_val(s1),
            abs_point(gl[0][0]),
            limbs_val(s2),
            abs_point(g2l[0][0]),
        ) == identity_pt(),
{
    let w = |p: int| dual_window(s1, s2, gl, g2l, p);
    let steps = dual_steps(s1, s2, gl, g2l);
    assert(steps == windows(w, 64));
    lemma_dual_steps_on_curve(s1, s2, gl, g2l);
    lemma_identity_limbs();
    law_identity(abs_point(gl[0][0]));
    lemma_run_sound(identity_limbs(), steps, h, 0);
    lemma_dual_prefix(s1, s2, gl, g2l, w, 64);
    lemma_scalar_digits(s1);
    lemma_scalar_digits(s2);
    if steps.len() == 0 {
        lemma_fold_short(identity_pt(), None);
        assert(steps =~= Seq::empty());
    }
}

} // verus!
