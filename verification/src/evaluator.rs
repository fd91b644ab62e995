//! Double scalar multiplication `s1 * G + s2 * G2` by four-bit windows,
//! most significant first, with a fixed table for `G` and a table for `G2`
//! that is itself built from hints; every step is checked against a hint.
use vstd::prelude::*;
use crate::hinter::ComputeHintStreamer;
use crate::field::q;
use crate::group::{
    combo, curve_group_facts, identity_pt, is_point, law_identity, lemma_combo_add_first,
    lemma_combo_add_second, lemma_combo_double, lemma_facts_sum,
    lemma_hint_is_sum, lemma_smul_point, pt_add, smul,
};
use crate::limbs::limbs_val;
use crate::run::{
    checked_step, hint_at, hints_last_from, identity_limbs, lemma_windows_segment, nibble,
    point_limbs, run_from, run_len_from, run_segment, segment, step_holds, table_points, windows,
};
use crate::scalar_mul::{
    abs_fold, abs_point, lemma_abs_fold_concat, lemma_combo_zero, lemma_fold_short, lemma_identity_limbs,
    lemma_nibble_bound, lemma_run_sound, lemma_scalar_digits, lemma_windows_all, steps_on_curve,
    top,
};
use crate::structs::TEPoint;
use crate::EvaluationError;

verus! {

/// The multiples `k * B` (`k` from 1 to 15) of a base point `B`, at index `k - 1`.
pub type PointTable = [([u32; 8], [u32; 8]); 15];

/// The fourteen steps that build the table of `g2`: each adds `g2` to the
/// previous multiple, starting from `g2` itself.
pub open spec fn table_steps(g2: (Seq<u32>, Seq<u32>)) -> Seq<Option<(Seq<u32>, Seq<u32>)>> {
    Seq::new(14, |i: int| Some(g2))
}

/// The table of `g2` built from the hints: `g2`, then the hints of the
/// fourteen table steps.
pub open spec fn table_from_hints(g2: (Seq<u32>, Seq<u32>), h: Seq<Seq<u32>>) -> Seq<
    (Seq<u32>, Seq<u32>),
> {
    Seq::new(15, |i: int| if i == 0 { g2 } else { hint_at(h, i - 1) })
}

/// The steps of window `p` (window 0 holds the most significant digits):
/// four doublings unless it is the first window, then the addition of the
/// table entry for the digit of `s1`, then the one for the digit of `s2`,
/// skipping zero digits.
pub open spec fn eval_window(
    s1: Seq<u32>,
    s2: Seq<u32>,
    gt: Seq<(Seq<u32>, Seq<u32>)>,
    g2t: Seq<(Seq<u32>, Seq<u32>)>,
    p: int,
) -> Seq<Option<(Seq<u32>, Seq<u32>)>> {
    let k1 = nibble(s1, 63 - p) as int;
    let k2 = nibble(s2, 63 - p) as int;
    (if p != 0 {
        seq![None, None, None, None]
    } else {
        Seq::empty()
    }) + (if k1 != 0 {
        seq![Some(gt[k1 - 1])]
    } else {
        Seq::empty()
    }) + (if k2 != 0 {
        seq![Some(g2t[k2 - 1])]
    } else {
        Seq::empty()
    })
}

/// All steps of the windowed evaluation.
pub open spec fn eval_steps(
    s1: Seq<u32>,
    s2: Seq<u32>,
    gt: Seq<(Seq<u32>, Seq<u32>)>,
    g2t: Seq<(Seq<u32>, Seq<u32>)>,
) -> Seq<Option<(Seq<u32>, Seq<u32>)>> {
    windows(|p: int| eval_window(s1, s2, gt, g2t, p), 64)
}

pub struct Evaluator {
    pub s1: [u32; 8],
    pub s2: [u32; 8],
    pub g2: TEPoint,
}

impl Evaluator {
    /// The limbs of `g2`.
    pub open spec fn g2_limbs(&self) -> (Seq<u32>, Seq<u32>) {
        point_limbs(self.g2.x, self.g2.y)
    }

    /// The steps of the second phase, once the table of `g2` has been built
    /// from the hints `h`.
    pub open spec fn main_steps(&self, g_table: PointTable, h: Seq<Seq<u32>>) -> Seq<
        Option<(Seq<u32>, Seq<u32>)>,
    > {
        eval_steps(
            self.s1@,
            self.s2@,
            table_points(g_table@),
            table_from_hints(self.g2_limbs(), h),
        )
    }

    /// What `evaluate` computes from the hints `h`: `None` when a hint is
    /// refused in either phase, otherwise the final sum.
    pub open spec fn outcome(&self, g_table: PointTable, h: Seq<Seq<u32>>) -> Option<
        (Seq<u32>, Seq<u32>),
    > {
        match run_from(self.g2_limbs(), table_steps(self.g2_limbs()), h, 0) {
            None => None,
            Some(_) => run_from(identity_limbs(), self.main_steps(g_table, h), h.skip(28), 0),
        }
    }

    /// `s1 * B + s2 * g2` with `B` the point whose multiples `g_table`
    /// holds (its first entry).
    pub open spec fn expected_point(&self, g_table: PointTable) -> (nat, nat) {
        combo(
            limbs_val(self.s1@),
            abs_point(table_points(g_table@)[0]),
            limbs_val(self.s2@),
            abs_point(self.g2_limbs()),
        )
    }

    /// How many hints `evaluate` takes from `h`.
    pub open spec fn hints_taken(&self, g_table: PointTable, h: Seq<Seq<u32>>) -> nat {
        let first = run_len_from(self.g2_limbs(), table_steps(self.g2_limbs()), h, 0);
        2 * first + match run_from(self.g2_limbs(), table_steps(self.g2_limbs()), h, 0) {
            None => 0,
            Some(_) => 2 * run_len_from(
                identity_limbs(),
                self.main_steps(g_table, h),
                h.skip(28),
                0,
            ),
        }
    }

    /// Whether `h` holds every hint that `evaluate` takes.
    pub open spec fn hints_suffice(&self, g_table: PointTable, h: Seq<Seq<u32>>) -> bool {
        &&& hints_last_from(self.g2_limbs(), table_steps(self.g2_limbs()), h, 0)
        &&& run_from(self.g2_limbs(), table_steps(self.g2_limbs()), h, 0) is Some ==> hints_last_from(
            identity_limbs(),
            self.main_steps(g_table, h),
            h.skip(28),
            0,
        )
    }

    pub fn new(s1: &[u32; 8], s2: &[u32; 8], g2: &TEPoint) -> (res: Self)
        ensures
            res.s1 == *s1,
            res.s2 == *s2,
            res.g2 == *g2,
    {
        // Warning: format checking over s1 and s2 and g2 are not implemented yet.
        Self { s1: *s1, s2: *s2, g2: g2.clone() }
    }

    /// Builds the table of `g2`: each of the fourteen multiples after `g2`
    /// is taken from the hints and checked as the sum of the previous one and
    /// `g2`.
    fn build_g2_table<S: ComputeHintStreamer>(
        &self,
        compute_hint: &mut S,
        Ghost(h0): Ghost<Seq<Seq<u32>>>,
    ) -> (res: Result<PointTable, EvaluationError>)
        requires
            old(compute_hint).pending() == h0,
            hints_last_from(self.g2_limbs(), table_steps(self.g2_limbs()), h0, 0),
        ensures
            res is Ok <==> run_from(self.g2_limbs(), table_steps(self.g2_limbs()), h0, 0) is Some,
            res matches Ok(t) ==> table_points(t@) == table_from_hints(self.g2_limbs(), h0),
            res is Ok ==> run_len_from(self.g2_limbs(), table_steps(self.g2_limbs()), h0, 0) == 14,
            h0.len() >= 2 * run_len_from(self.g2_limbs(), table_steps(self.g2_limbs()), h0, 0),
            final(compute_hint).pending() == h0.skip(
                (2 * run_len_from(self.g2_limbs(), table_steps(self.g2_limbs()), h0, 0)) as int,
            ),
            res matches Err(e) ==> e == EvaluationError::WrongHint,
    {
        let ghost g2l = self.g2_limbs();
        let ghost tsteps = table_steps(g2l);
        let ghost mut k: nat = 0;
        assert(h0.skip(0) =~= h0);

        let mut table_g2 = [([0u32; 8], [0u32; 8]); 15];

        table_g2[0].0 = self.g2.x;
        table_g2[0].1 = self.g2.y;

        let mut cur = self.g2.clone();

        for i in 1usize..15
            invariant
                g2l == self.g2_limbs(),
                tsteps == table_steps(g2l),
                k == i - 1,
                run_from(g2l, tsteps, h0, 0) == run_from(point_limbs(cur.x, cur.y), tsteps, h0, k),
                run_len_from(g2l, tsteps, h0, 0) == k + run_len_from(
                    point_limbs(cur.x, cur.y),
                    tsteps,
                    h0,
                    k,
                ),
                hints_last_from(point_limbs(cur.x, cur.y), tsteps, h0, k),
                compute_hint.pending() == h0.skip((2 * k) as int),
                h0.len() >= 2 * k,
                table_g2@[0].0 == self.g2.x && table_g2@[0].1 == self.g2.y,
                forall|t: int|
                    1 <= t < i ==> point_limbs(#[trigger] table_g2@[t].0, table_g2@[t].1)
                        == hint_at(h0, t - 1),
        {
            let r = checked_step(
                &mut cur,
                Some(&self.g2),
                compute_hint,
                Ghost(tsteps),
                Ghost(h0),
                Ghost(k),
            );
            if r.is_err() {
                return Err(EvaluationError::WrongHint);
            }
            table_g2[i].0 = cur.x;
            table_g2[i].1 = cur.y;
            proof {
                k = k + 1;
            }
        }
        assert(table_points(table_g2@) =~= table_from_hints(g2l, h0));
        Ok(table_g2)
    }

    /// First builds the table of `g2` (each multiple checked as a sum with
    /// `g2`), then runs the windows from the identity; takes two hints (`x`,
    /// then `y`) per step and returns the limbs of `x` then `y` of the final
    /// sum, or `WrongHint` at the first refused hint. Whatever the hints,
    /// a result that is returned is `s1 * B + s2 * g2` (its `x` modulo `q`,
    /// its `y` reduced) when `g_table` holds the multiples of `B`.
    pub fn evaluate(&self, g_table: &PointTable, compute_hint: &mut impl ComputeHintStreamer) -> (res:
        Result<[u32; 16], EvaluationError>)
        requires
            self.hints_suffice(*g_table, old(compute_hint).pending()),
        ensures
            ({
                let h = old(compute_hint).pending();
                let out = self.outcome(*g_table, h);
                &&& res is Ok <==> out is Some
                &&& res matches Ok(r) ==> r@ == out.unwrap().0 + out.unwrap().1
                &&& res matches Err(e) ==> e == EvaluationError::WrongHint
                &&& final(compute_hint).pending() == h.skip(self.hints_taken(*g_table, h) as int)
            }),
            // whatever the hints, an accepted result is `s1 * B + s2 * g2`
            curve_group_facts() && is_multiples_table(table_points(g_table@)) && is_point(
                abs_point(self.g2_limbs()),
            ) ==> (res matches Ok(r) ==> limbs_val(r@.subrange(0, 8)) % q()
                == self.expected_point(*g_table).0 && limbs_val(r@.subrange(8, 16))
                == self.expected_point(*g_table).1),
    {
        let ghost h0 = compute_hint.pending();
        let ghost g2l = self.g2_limbs();

        // Step 1: build a table for g2

        let table_g2 = match self.build_g2_table(compute_hint, Ghost(h0)) {
            Ok(t) => t,
            Err(e) => {
                return Err(e);
            },
        };
        let ghost h1 = compute_hint.pending();
        assert(h1 == h0.skip(28));

        // Step 2: start the addition

        let ghost gt = table_points(g_table@);
        let ghost g2t = table_from_hints(g2l, h0);
        let ghost w = |p: int| eval_window(self.s1@, self.s2@, gt, g2t, p);
        let ghost steps = self.main_steps(*g_table, h0);
        assert(steps == windows(w, 64));
        let ghost mut k: nat = 0;
        let mut sum = TEPoint::default();
        assert(point_limbs(sum.x, sum.y) == identity_limbs());
        assert(h1.skip(0) =~= h1);

        for i in 0usize..8
            invariant
                h0 == old(compute_hint).pending(),
                h1 == h0.skip(28),
                h0.len() >= 28,
                g2l == self.g2_limbs(),
                run_from(g2l, table_steps(g2l), h0, 0) is Some,
                run_len_from(g2l, table_steps(g2l), h0, 0) == 14,
                gt == table_points(g_table@),
                g2t == table_from_hints(g2l, h0),
                table_points(table_g2@) == g2t,
                steps == windows(w, 64),
                steps == self.main_steps(*g_table, h0),
                w == (|p: int| eval_window(self.s1@, self.s2@, gt, g2t, p)),
                k == windows(w, (8 * i) as nat).len(),
                run_from(identity_limbs(), steps, h1, 0) == run_from(
                    point_limbs(sum.x, sum.y),
                    steps,
                    h1,
                    k,
                ),
                run_len_from(identity_limbs(), steps, h1, 0) == k + run_len_from(
                    point_limbs(sum.x, sum.y),
                    steps,
                    h1,
                    k,
                ),
                hints_last_from(point_limbs(sum.x, sum.y), steps, h1, k),
                compute_hint.pending() == h1.skip((2 * k) as int),
                h1.len() >= 2 * k,
        {
            for j in 0usize..8
                invariant
                    0 <= i < 8,
                    h0 == old(compute_hint).pending(),
                    h1 == h0.skip(28),
                    h0.len() >= 28,
                    g2l == self.g2_limbs(),
                    run_from(g2l, table_steps(g2l), h0, 0) is Some,
                    run_len_from(g2l, table_steps(g2l), h0, 0) == 14,
                    gt == table_points(g_table@),
                    g2t == table_from_hints(g2l, h0),
                    table_points(table_g2@) == g2t,
                    steps == windows(w, 64),
                    steps == self.main_steps(*g_table, h0),
                    w == (|p: int| eval_window(self.s1@, self.s2@, gt, g2t, p)),
                    k == windows(w, (8 * i + j) as nat).len(),
                    run_from(identity_limbs(), steps, h1, 0) == run_from(
                        point_limbs(sum.x, sum.y),
                        steps,
                        h1,
                        k,
                    ),
                    run_len_from(identity_limbs(), steps, h1, 0) == k + run_len_from(
                        point_limbs(sum.x, sum.y),
                        steps,
                        h1,
                        k,
                    ),
                    hints_last_from(point_limbs(sum.x, sum.y), steps, h1, k),
                    compute_hint.pending() == h1.skip((2 * k) as int),
                    h1.len() >= 2 * k,
            {
                let ghost p = 8 * i + j;
                let doublings: usize = if !(i == 0 && j == 0) { 4 } else { 0 };

                let s1_word = self.s1[7 - i];
                let s2_word = self.s2[7 - i];
                let bits_k1 = ((s1_word >> (((7 - j) * 4) as u32)) & 0xF) as usize;
                let bits_k2 = ((s2_word >> (((7 - j) * 4) as u32)) & 0xF) as usize;
                proof {
                    assert((63 - p) / 8 == 7 - i && (63 - p) % 8 == 7 - j);
                    assert(bits_k1 == nibble(self.s1@, 63 - p));
                    assert(bits_k2 == nibble(self.s2@, 63 - p));
                    assert((s1_word >> (((7 - j) * 4) as u32)) & 0xF <= 15) by (bit_vector);
                    assert((s2_word >> (((7 - j) * 4) as u32)) & 0xF <= 15) by (bit_vector);
                }

                let rhs1 = if bits_k1 != 0 {
                    let point = g_table[bits_k1 - 1];
                    Some(TEPoint { x: point.0, y: point.1 })
                } else {
                    None
                };
                let rhs2 = if bits_k2 != 0 {
                    let point = table_g2[bits_k2 - 1];
                    Some(TEPoint { x: point.0, y: point.1 })
                } else {
                    None
                };
                let add1 = match &rhs1 {
                    Some(pt) => Some(pt),
                    None => None,
                };
                let add2 = match &rhs2 {
                    Some(pt) => Some(pt),
                    None => None,
                };
                proof {
                    lemma_windows_segment(w, p as nat, 64);
                    assert(w(p as int) =~= segment(doublings as nat, add1, add2));
                }
                let ghost before = point_limbs(sum.x, sum.y);
                let r = run_segment(
                    &mut sum,
                    doublings,
                    add1,
                    add2,
                    compute_hint,
                    Ghost(steps),
                    Ghost(h1),
                    Ghost(k),
                );
                if r.is_err() {
                    proof {
                        let x = 2 * (k + run_len_from(before, steps, h1, k));
                        assert(h0.skip(28).skip(x as int) =~= h0.skip((28 + x) as int));
                    }
                    return Err(EvaluationError::WrongHint);
                }
                proof {
                    k = k + segment(doublings as nat, add1, add2).len();
                }
            }
        }

        let mut res = [0u32; 16];
        for i in 0..8
            invariant
                forall|t: int| 0 <= t < i ==> res@[t] == sum.x@[t] && res@[t + 8] == sum.y@[t],
        {
            res[i] = sum.x[i];
            res[i + 8] = sum.y[i];
        }
        assert(res@ =~= sum.x@ + sum.y@);
        proof {
            if curve_group_facts() && is_multiples_table(gt) && is_point(abs_point(g2l)) {
                lemma_g2_table_multiples(g2l, h0);
                lemma_eval_sound(self.s1@, self.s2@, gt, g2t, h1);
                assert(res@.subrange(0, 8) =~= sum.x@);
                assert(res@.subrange(8, 16) =~= sum.y@);
            }
        }
        Ok(res)
    }
}

/// Whether a table holds the multiples `1 * B` to `15 * B` (at index
/// `k - 1` for `k * B`) of a point `B` of the curve, which is then its first
/// entry.
pub open spec fn is_multiples_table(t: Seq<(Seq<u32>, Seq<u32>)>) -> bool {
    &&& t.len() == 15
    &&& is_point(abs_point(t[0]))
    &&& forall|k: int| 0 <= k < 15 ==> #[trigger] abs_point(t[k]) == smul((k + 1) as nat, abs_point(t[0]))
}

/// The entries of the table built from accepted hints are the multiples
/// of `g2`, from the `k`-th on.
proof fn lemma_g2_table(g2l: (Seq<u32>, Seq<u32>), h: Seq<Seq<u32>>, k: nat)
    requires
        curve_group_facts(),
        is_point(abs_point(g2l)),
        k < 15,
        run_from(table_from_hints(g2l, h)[k as int], table_steps(g2l), h, k) is Some,
        abs_point(table_from_hints(g2l, h)[k as int]) == smul(k + 1, abs_point(g2l)),
    ensures
        forall|j: int|
            k <= j < 15 ==> #[trigger] abs_point(table_from_hints(g2l, h)[j]) == smul(
                (j + 1) as nat,
                abs_point(g2l),
            ),
    decreases 15 - k,
{
    if k < 14 {
        let g = abs_point(g2l);
        let t = table_from_hints(g2l, h);
        let cur = t[k as int];
        let hint = hint_at(h, k as int);
        assert(table_steps(g2l)[k as int] == Some(g2l));
        assert(step_holds(cur, Some(g2l), hint));
        lemma_smul_point(k + 1, g);
        lemma_hint_is_sum(
            limbs_val(cur.0),
            limbs_val(cur.1),
            limbs_val(g2l.0),
            limbs_val(g2l.1),
            limbs_val(hint.0),
            limbs_val(hint.1),
            smul(k + 1, g),
            g,
        );
        lemma_facts_sum(smul(k + 1, g), g);
        vstd::arithmetic::div_mod::lemma_small_mod(limbs_val(hint.1), q());
        assert(t[(k + 1) as int] == hint);
        assert(smul(k + 2, g) == pt_add(smul(k + 1, g), g));
        lemma_g2_table(g2l, h, k + 1);
    }
}

/// The table of `g2` built from accepted hints holds its multiples.
pub proof fn lemma_g2_table_multiples(g2l: (Seq<u32>, Seq<u32>), h: Seq<Seq<u32>>)
    requires
        curve_group_facts(),
        is_point(abs_point(g2l)),
        run_from(g2l, table_steps(g2l), h, 0) is Some,
    ensures
        is_multiples_table(table_from_hints(g2l, h)),
        abs_point(table_from_hints(g2l, h)[0]) == abs_point(g2l),
{
    let g = abs_point(g2l);
    law_identity(g);
    assert(smul(1, g) == pt_add(smul(0, g), g));
    lemma_g2_table(g2l, h, 0);
}

/// Four doublings multiply both coefficients by sixteen.
proof fn lemma_fold_doublings(a: nat, bp: (nat, nat), b: nat, gp: (nat, nat))
    requires
        curve_group_facts(),
        is_point(bp),
        is_point(gp),
    ensures
        abs_fold(combo(a, bp, b, gp), seq![None, None, None, None], 0) == combo(16 * a, bp, 16 * b, gp),
{
    let d: Seq<Option<(Seq<u32>, Seq<u32>)>> = seq![None, None, None, None];
    lemma_combo_double(a, bp, b, gp);
    lemma_combo_double(2 * a, bp, 2 * b, gp);
    lemma_combo_double(4 * a, bp, 4 * b, gp);
    lemma_combo_double(8 * a, bp, 8 * b, gp);
    let c1 = combo(2 * a, bp, 2 * b, gp);
    let c2 = combo(4 * a, bp, 4 * b, gp);
    let c3 = combo(8 * a, bp, 8 * b, gp);
    let c4 = combo(16 * a, bp, 16 * b, gp);
    assert(abs_fold(c4, d, 4) == c4);
    assert(abs_fold(c3, d, 3) == c4);
    assert(abs_fold(c2, d, 2) == c4);
    assert(abs_fold(c1, d, 1) == c4);
}

/// One window moves `a B + b G` to `(16 a + k1) B + (16 b + k2) G`, where
/// `k1`, `k2` are the digits of the window.
proof fn lemma_eval_window(
    s1: Seq<u32>,
    s2: Seq<u32>,
    gt: Seq<(Seq<u32>, Seq<u32>)>,
    g2t: Seq<(Seq<u32>, Seq<u32>)>,
    p: int,
    a: nat,
    b: nat,
)
    requires
        curve_group_facts(),
        is_multiples_table(gt),
        is_multiples_table(g2t),
        p == 0 ==> a == 0 && b == 0,
    ensures
        abs_fold(
            combo(a, abs_point(gt[0]), b, abs_point(g2t[0])),
            eval_window(s1, s2, gt, g2t, p),
            0,
        ) == combo(
            (16 * a + nibble(s1, 63 - p)) as nat,
            abs_point(gt[0]),
            (16 * b + nibble(s2, 63 - p)) as nat,
            abs_point(g2t[0]),
        ),
{
    let bp = abs_point(gt[0]);
    let gp = abs_point(g2t[0]);
    let k1 = nibble(s1, 63 - p) as int;
    let k2 = nibble(s2, 63 - p) as int;
    lemma_nibble_bound(s1, 63 - p);
    lemma_nibble_bound(s2, 63 - p);
    let d: Seq<Option<(Seq<u32>, Seq<u32>)>> = if p != 0 {
        seq![None, None, None, None]
    } else {
        Seq::empty()
    };
    let a1: Seq<Option<(Seq<u32>, Seq<u32>)>> = if k1 != 0 {
        seq![Some(gt[k1 - 1])]
    } else {
        Seq::empty()
    };
    let a2: Seq<Option<(Seq<u32>, Seq<u32>)>> = if k2 != 0 {
        seq![Some(g2t[k2 - 1])]
    } else {
        Seq::empty()
    };
    assert(eval_window(s1, s2, gt, g2t, p) == d + a1 + a2);
    let c0 = combo(a, bp, b, gp);
    lemma_abs_fold_concat(c0, d + a1, a2, 0);
    lemma_abs_fold_concat(c0, d, a1, 0);
    let c4 = combo(16 * a, bp, 16 * b, gp);
    if p != 0 {
        lemma_fold_doublings(a, bp, b, gp);
    } else {
        lemma_fold_short(c0, None);
    }
    assert(abs_fold(c0, d, 0) == c4);
    let c5 = combo((16 * a + k1) as nat, bp, 16 * b, gp);
    if k1 != 0 {
        lemma_combo_add_first(16 * a, bp, 16 * b, gp, k1 as nat);
        lemma_fold_short(c4, Some(gt[k1 - 1]));
    } else {
        lemma_fold_short(c4, None);
    }
    assert(abs_fold(c4, a1, 0) == c5);
    let c6 = combo((16 * a + k1) as nat, bp, (16 * b + k2) as nat, gp);
    if k2 != 0 {
        lemma_combo_add_second((16 * a + k1) as nat, bp, 16 * b, gp, k2 as nat);
        lemma_fold_short(c5, Some(g2t[k2 - 1]));
    } else {
        lemma_fold_short(c5, None);
    }
    assert(abs_fold(c5, a2, 0) == c6);
}

/// The first `n` windows, from the identity, reach `a B + b G` with `a`,
/// `b` the `n` leading digits of the scalars.
proof fn lemma_eval_prefix(
    s1: Seq<u32>,
    s2: Seq<u32>,
    gt: Seq<(Seq<u32>, Seq<u32>)>,
    g2t: Seq<(Seq<u32>, Seq<u32>)>,
    w: spec_fn(int) -> Seq<Option<(Seq<u32>, Seq<u32>)>>,
    n: nat,
)
    requires
        curve_group_facts(),
        is_multiples_table(gt),
        is_multiples_table(g2t),
        w == (|p: int| eval_window(s1, s2, gt, g2t, p)),
    ensures
        abs_fold(identity_pt(), windows(w, n), 0) == combo(
            top(s1, n),
            abs_point(gt[0]),
            top(s2, n),
            abs_point(g2t[0]),
        ),
    decreases n,
{
    let bp = abs_point(gt[0]);
    let gp = abs_point(g2t[0]);
    if n == 0 {
        lemma_combo_zero(bp, gp);
        lemma_fold_short(identity_pt(), None);
        assert(windows(w, 0) =~= Seq::empty());
    } else {
        let m = (n - 1) as nat;
        lemma_eval_prefix(s1, s2, gt, g2t, w, m);
        assert(windows(w, n) == windows(w, m) + w(m as int));
        lemma_abs_fold_concat(identity_pt(), windows(w, m), w(m as int), 0);
        lemma_eval_window(s1, s2, gt, g2t, m as int, top(s1, m), top(s2, m));
        assert(top(s1, n) == 16 * top(s1, m) + nibble(s1, 63 - m));
        assert(top(s2, n) == 16 * top(s2, m) + nibble(s2, 63 - m));
    }
}

/// A property of every table entry (and of doubling) holds of every step
/// of the windows.
pub proof fn lemma_eval_steps_all(
    s1: Seq<u32>,
    s2: Seq<u32>,
    gt: Seq<(Seq<u32>, Seq<u32>)>,
    g2t: Seq<(Seq<u32>, Seq<u32>)>,
    pred: spec_fn(Option<(Seq<u32>, Seq<u32>)>) -> bool,
)
    requires
        pred(None),
        forall|k: int| 0 <= k < 15 ==> #[trigger] pred(Some(gt[k])),
        forall|k: int| 0 <= k < 15 ==> #[trigger] pred(Some(g2t[k])),
    ensures
        forall|i: int|
            0 <= i < eval_steps(s1, s2, gt, g2t).len() ==> pred(
                #[trigger] eval_steps(s1, s2, gt, g2t)[i],
            ),
{
    let w = |p: int| eval_window(s1, s2, gt, g2t, p);
    assert forall|p: int, j: int| 0 <= p < 64 && 0 <= j < w(p).len() implies pred(
        #[trigger] w(p)[j],
    ) by {
        let k1 = nibble(s1, 63 - p) as int;
        let k2 = nibble(s2, 63 - p) as int;
        lemma_nibble_bound(s1, 63 - p);
        lemma_nibble_bound(s2, 63 - p);
        let d: Seq<Option<(Seq<u32>, Seq<u32>)>> = if p != 0 {
            seq![None, None, None, None]
        } else {
            Seq::empty()
        };
        let a1: Seq<Option<(Seq<u32>, Seq<u32>)>> = if k1 != 0 {
            seq![Some(gt[k1 - 1])]
        } else {
            Seq::empty()
        };
        let a2: Seq<Option<(Seq<u32>, Seq<u32>)>> = if k2 != 0 {
            seq![Some(g2t[k2 - 1])]
        } else {
            Seq::empty()
        };
        assert(w(p) == d + a1 + a2);
        if j < d.len() {
            assert(w(p)[j] == d[j]);
        } else if j < d.len() + a1.len() {
            assert(w(p)[j] == a1[j - d.len()]);
        } else {
            assert(w(p)[j] == a2[j - d.len() - a1.len()]);
        }
    }
    lemma_windows_all(w, pred, 64);
}

/// Every point that the windows add is a point of the curve.
proof fn lemma_eval_steps_on_curve(
    s1: Seq<u32>,
    s2: Seq<u32>,
    gt: Seq<(Seq<u32>, Seq<u32>)>,
    g2t: Seq<(Seq<u32>, Seq<u32>)>,
)
    requires
        curve_group_facts(),
        is_multiples_table(gt),
        is_multiples_table(g2t),
    ensures
        steps_on_curve(eval_steps(s1, s2, gt, g2t)),
{
    let pred = |st: Option<(Seq<u32>, Seq<u32>)>| st matches Some(pt) ==> is_point(abs_point(pt));
    assert forall|k: int| 0 <= k < 15 implies #[trigger] pred(Some(gt[k])) by {
        lemma_smul_point((k + 1) as nat, abs_point(gt[0]));
    }
    assert forall|k: int| 0 <= k < 15 implies #[trigger] pred(Some(g2t[k])) by {
        lemma_smul_point((k + 1) as nat, abs_point(g2t[0]));
    }
    lemma_eval_steps_all(s1, s2, gt, g2t, pred);
}

/// An accepted run of the windows ends at `s1 B + s2 G`, where `B` and `G`
/// are the points whose multiples the two tables hold; its `y` is reduced.
pub proof fn lemma_eval_sound(
    s1: Seq<u32>,
    s2: Seq<u32>,
    gt: Seq<(Seq<u32>, Seq<u32>)>,
    g2t: Seq<(Seq<u32>, Seq<u32>)>,
    h: Seq<Seq<u32>>,
)
    requires
        curve_group_facts(),
        s1.len() == 8,
        s2.len() == 8,
        is_multiples_table(gt),
        is_multiples_table(g2t),
        run_from(identity_limbs(), eval_steps(s1, s2, gt, g2t), h, 0) is Some,
    ensures
        abs_point(run_from(identity_limbs(), eval_steps(s1, s2, gt, g2t), h, 0).unwrap()) == combo(
            limbs_val(s1),
            abs_point(gt[0]),
            limbs_val(s2),
            abs_point(g2t[0]),
        ),
        limbs_val(run_from(identity_limbs(), eval_steps(s1, s2, gt, g2t), h, 0).unwrap().1) < q(),
{
    let w = |p: int| eval_window(s1, s2, gt, g2t, p);
    let steps = eval_steps(s1, s2, gt, g2t);
    assert(steps == windows(w, 64));
    lemma_eval_steps_on_curve(s1, s2, gt, g2t);
    lemma_identity_limbs();
    law_identity(abs_point(gt[0]));
    lemma_run_sound(identity_limbs(), steps, h, 0);
    lemma_eval_prefix(s1, s2, gt, g2t, w, 64);
    lemma_scalar_digits(s1);
    lemma_scalar_digits(s2);
    lemma_windows_segment(w, 63, 64);
}

} // verus!
