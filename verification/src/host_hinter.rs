//! The prover's side: computes, with the field of arkworks, the hints that
//! the evaluators check.
use vstd::prelude::*;
use crate::eddsa::{edwards_sum_defined, edwards_sum_x, edwards_sum_y, AffineEdwardsPoint};
use crate::field::{lemma_constants, q};
use crate::group::{curve_group_facts, identity_pt, is_point, lemma_facts_sum, lemma_identity_is_point, pt_add};
use crate::limbs::{limbs_of, limbs_val};
use crate::scalar_mul::{abs_point, lemma_identity_limbs};
use crate::dual_table_evaluator::{
    dual_steps, dual_window, is_long_multiples_table, lemma_dual_sound, lemma_dual_steps_all,
    long_table_points, DualTableEvaluator,
    LongTable,
};
use crate::evaluator::{
    eval_steps, eval_window, is_multiples_table, lemma_eval_sound, lemma_eval_steps_all,
    lemma_g2_table_multiples,
    table_from_hints, table_steps, Evaluator, PointTable,
};
use crate::run::{
    hint_at, hints_last_from, identity_limbs, lemma_run_stream_prefix, lemma_windows_segment,
    nibble, run_from, run_len_from, step_holds, table_points, windows,
};
use crate::structs::{law_double_is_self_add, TEPoint};

verus! {

/// The sum after one step computed by the prover: `Some(p)` adds `p`, `None`
/// doubles.
pub open spec fn host_next(sum: (Seq<u32>, Seq<u32>), step: Option<(Seq<u32>, Seq<u32>)>) -> (
    Seq<u32>,
    Seq<u32>,
) {
    let x1 = limbs_val(sum.0);
    let y1 = limbs_val(sum.1);
    let p = match step {
        Some(p) => p,
        None => sum,
    };
    let x2 = limbs_val(p.0);
    let y2 = limbs_val(p.1);
    (limbs_of(edwards_sum_x(x1, y1, x2, y2)), limbs_of(edwards_sum_y(x1, y1, x2, y2)))
}

/// Whether the prover's step has nonzero denominators.
pub open spec fn host_defined(sum: (Seq<u32>, Seq<u32>), step: Option<(Seq<u32>, Seq<u32>)>) -> bool {
    let p = match step {
        Some(p) => p,
        None => sum,
    };
    edwards_sum_defined(limbs_val(sum.0), limbs_val(sum.1), limbs_val(p.0), limbs_val(p.1))
}

/// The hints the prover emits for the steps from index `k` on: `x`, then
/// `y` of each new sum.
pub open spec fn host_hints_from(
    sum: (Seq<u32>, Seq<u32>),
    steps: Seq<Option<(Seq<u32>, Seq<u32>)>>,
    k: nat,
) -> Seq<Seq<u32>>
    decreases steps.len() - k,
{
    if k >= steps.len() {
        Seq::empty()
    } else {
        let n = host_next(sum, steps[k as int]);
        seq![n.0, n.1] + host_hints_from(n, steps, k + 1)
    }
}

/// The prover's sum after the steps from index `k` on.
pub open spec fn host_final_from(
    sum: (Seq<u32>, Seq<u32>),
    steps: Seq<Option<(Seq<u32>, Seq<u32>)>>,
    k: nat,
) -> (Seq<u32>, Seq<u32>)
    decreases steps.len() - k,
{
    if k >= steps.len() {
        sum
    } else {
        host_final_from(host_next(sum, steps[k as int]), steps, k + 1)
    }
}

/// Whether every step of the prover from index `k` on has nonzero
/// denominators.
pub open spec fn host_defined_from(
    sum: (Seq<u32>, Seq<u32>),
    steps: Seq<Option<(Seq<u32>, Seq<u32>)>>,
    k: nat,
) -> bool
    decreases steps.len() - k,
{
    k >= steps.len() || (host_defined(sum, steps[k as int]) && host_defined_from(
        host_next(sum, steps[k as int]),
        steps,
        k + 1,
    ))
}

/// The hints as a stream of limb sequences.
pub open spec fn hint_stream(hints: Seq<[u32; 8]>) -> Seq<Seq<u32>> {
    Seq::new(hints.len(), |i: int| hints[i]@)
}

/// The number of hints the prover emits from index `k` on.
pub proof fn lemma_host_hints_len(
    sum: (Seq<u32>, Seq<u32>),
    steps: Seq<Option<(Seq<u32>, Seq<u32>)>>,
    k: nat,
)
    requires
        k <= steps.len(),
    ensures
        host_hints_from(sum, steps, k).len() == 2 * (steps.len() - k),
    decreases steps.len() - k,
{
    if k < steps.len() {
        lemma_host_hints_len(host_next(sum, steps[k as int]), steps, k + 1);
    }
}


/// The last two hints of the prover are its final sum, whose coordinates
/// are reduced.
pub proof fn lemma_host_last(
    sum: (Seq<u32>, Seq<u32>),
    steps: Seq<Option<(Seq<u32>, Seq<u32>)>>,
    k: nat,
)
    requires
        k < steps.len(),
    ensures
        ({
            let hs = host_hints_from(sum, steps, k);
            let r = host_final_from(sum, steps, k);
            &&& hs.len() >= 2
            &&& hs[hs.len() - 2] == r.0
            &&& hs[hs.len() - 1] == r.1
            &&& limbs_val(r.0) < q()
            &&& limbs_val(r.1) < q()
            &&& r.0 == limbs_of(limbs_val(r.0))
            &&& r.1 == limbs_of(limbs_val(r.1))
        }),
    decreases steps.len() - k,
{
    let n = host_next(sum, steps[k as int]);
    let tail = host_hints_from(n, steps, k + 1);
    let hs = host_hints_from(sum, steps, k);
    assert(hs == seq![n.0, n.1] + tail);
    if k + 1 < steps.len() {
        lemma_host_last(n, steps, k + 1);
        assert(hs[hs.len() - 2] == tail[tail.len() - 2]);
        assert(hs[hs.len() - 1] == tail[tail.len() - 1]);
    } else {
        assert(tail =~= Seq::<Seq<u32>>::empty());
        let x1 = limbs_val(sum.0);
        let y1 = limbs_val(sum.1);
        let p = match steps[k as int] {
            Some(p) => p,
            None => sum,
        };
        let ex = edwards_sum_x(x1, y1, limbs_val(p.0), limbs_val(p.1));
        let ey = edwards_sum_y(x1, y1, limbs_val(p.0), limbs_val(p.1));
        lemma_constants();
        lemma_limbs_val_of(ex);
        lemma_limbs_val_of(ey);
    }
}

/// `limbs_of(v)` stands for `v` when `v` is reduced.
proof fn lemma_limbs_val_of(v: nat)
    requires
        v < q(),
    ensures
        limbs_val(limbs_of(v)) == v,
{
    lemma_constants();
    crate::limbs::lemma_limbs_of_take(v, 8);
    crate::limbs::lemma_limbs_val_take_all(limbs_of(v));
    vstd::arithmetic::div_mod::lemma_small_mod(v, crate::limbs::radix_pow(8));
}

/// A pair of limb sequences that stands for a reduced point of the curve.
pub open spec fn limbs_point(p: (Seq<u32>, Seq<u32>)) -> bool {
    is_point((limbs_val(p.0), limbs_val(p.1)))
}

/// A step of the prover from a reduced point, adding a reduced point or
/// doubling, has nonzero denominators and gives a reduced point.
proof fn lemma_host_step_point(sum: (Seq<u32>, Seq<u32>), step: Option<(Seq<u32>, Seq<u32>)>)
    requires
        curve_group_facts(),
        limbs_point(sum),
        step matches Some(p) ==> limbs_point(p),
    ensures
        host_defined(sum, step),
        limbs_point(host_next(sum, step)),
{
    let p = match step {
        Some(p) => p,
        None => sum,
    };
    let a = (limbs_val(sum.0), limbs_val(sum.1));
    let b = (limbs_val(p.0), limbs_val(p.1));
    lemma_facts_sum(a, b);
    let r = pt_add(a, b);
    assert(edwards_sum_x(a.0, a.1, b.0, b.1) == r.0);
    assert(edwards_sum_y(a.0, a.1, b.0, b.1) == r.1);
    lemma_limbs_val_of(r.0);
    lemma_limbs_val_of(r.1);
}

/// From a reduced point, with reduced points to add, every step of the
/// prover has nonzero denominators and every hint it emits is a reduced
/// point.
pub proof fn lemma_host_run_points(
    sum: (Seq<u32>, Seq<u32>),
    steps: Seq<Option<(Seq<u32>, Seq<u32>)>>,
    k: nat,
)
    requires
        curve_group_facts(),
        limbs_point(sum),
        k <= steps.len(),
        forall|j: int| k <= j < steps.len() ==> (#[trigger] steps[j] matches Some(p) ==> limbs_point(p)),
    ensures
        host_defined_from(sum, steps, k),
        forall|i: int|
            0 <= i < steps.len() - k ==> limbs_point(#[trigger] hint_at(host_hints_from(sum, steps, k), i)),
    decreases steps.len() - k,
{
    if k < steps.len() {
        let n = host_next(sum, steps[k as int]);
        lemma_host_step_point(sum, steps[k as int]);
        lemma_host_run_points(n, steps, k + 1);
        lemma_host_hints_len(n, steps, k + 1);
        let hs = host_hints_from(sum, steps, k);
        let tail = host_hints_from(n, steps, k + 1);
        assert(hs == seq![n.0, n.1] + tail);
        assert forall|i: int| 0 <= i < steps.len() - k implies limbs_point(#[trigger] hint_at(hs, i)) by {
            if i == 0 {
                assert(hint_at(hs, 0) == n);
            } else {
                assert(hint_at(hs, i) == hint_at(tail, i - 1));
            }
        }
    }
}

/// No denominator of the prover's computation for `Evaluator::evaluate`
/// vanishes when `g2` and the entries of the table are reduced points of
/// the curve.
pub proof fn law_unknown_g2_defined(
    s1: [u32; 8],
    s2: [u32; 8],
    g2: (Seq<u32>, Seq<u32>),
    g_table: PointTable,
)
    requires
        curve_group_facts(),
        limbs_point(g2),
        forall|k: int| 0 <= k < 15 ==> limbs_point(#[trigger] table_points(g_table@)[k]),
    ensures
        unknown_g2_defined(s1, s2, g2, g_table),
{
    let tsteps = table_steps(g2);
    lemma_host_run_points(g2, tsteps, 0);
    let hp1 = g2_table_hints(g2);
    let gt = table_points(g_table@);
    let g2t = table_from_hints(g2, hp1);
    let pred = |st: Option<(Seq<u32>, Seq<u32>)>| st matches Some(p) ==> limbs_point(p);
    assert forall|k: int| 0 <= k < 15 implies #[trigger] pred(Some(gt[k])) by {}
    assert forall|k: int| 0 <= k < 15 implies #[trigger] pred(Some(g2t[k])) by {
        if k > 0 {
            assert(g2t[k] == hint_at(hp1, k - 1));
        }
    }
    lemma_eval_steps_all(s1@, s2@, gt, g2t, pred);
    let steps = unknown_g2_main_steps(s1, s2, g2, g_table);
    lemma_identity_limbs();
    lemma_identity_is_point();
    assert forall|j: int| 0 <= j < steps.len() implies (#[trigger] steps[j] matches Some(p) ==> limbs_point(p)) by {
        assert(pred(steps[j]));
    }
    lemma_host_run_points(identity_limbs(), steps, 0);
}

/// No denominator of the prover's computation for
/// `DualTableEvaluator::evaluate` vanishes when the entries of both long
/// tables are reduced points of the curve.
pub proof fn law_g2_in_table_defined(
    s1: [u32; 8],
    s2: [u32; 8],
    g_long_table: LongTable,
    g2_long_table: LongTable,
)
    requires
        curve_group_facts(),
        forall|p: int, k: int|
            0 <= p < 64 && 0 <= k < 15 ==> limbs_point(#[trigger] long_table_points(g_long_table)[p][k]),
        forall|p: int, k: int|
            0 <= p < 64 && 0 <= k < 15 ==> limbs_point(#[trigger] long_table_points(g2_long_table)[p][k]),
    ensures
        host_defined_from(
            identity_limbs(),
            (DualTableEvaluator { s1: s1, s2: s2 }).steps(g_long_table, g2_long_table),
            0,
        ),
{
    let gl = long_table_points(g_long_table);
    let g2l = long_table_points(g2_long_table);
    let pred = |st: Option<(Seq<u32>, Seq<u32>)>| st matches Some(p) ==> limbs_point(p);
    assert forall|p: int, k: int| 0 <= p < 64 && 0 <= k < 15 implies #[trigger] pred(Some(gl[p][k])) by {}
    assert forall|p: int, k: int| 0 <= p < 64 && 0 <= k < 15 implies #[trigger] pred(Some(g2l[p][k])) by {}
    lemma_dual_steps_all(s1@, s2@, gl, g2l, pred);
    let steps = dual_steps(s1@, s2@, gl, g2l);
    lemma_identity_limbs();
    lemma_identity_is_point();
    assert forall|j: int| 0 <= j < steps.len() implies (#[trigger] steps[j] matches Some(p) ==> limbs_point(p)) by {
        assert(pred(steps[j]));
    }
    lemma_host_run_points(identity_limbs(), steps, 0);
}

/// The step that adds `rhs`, or doubles when there is none.
pub open spec fn host_step_of(rhs: Option<&AffineEdwardsPoint>) -> Option<(Seq<u32>, Seq<u32>)> {
    match rhs {
        Some(p) => Some((p.x@, p.y@)),
        None => None,
    }
}

/// What the prover keeps while it walks the steps of one phase: `hp` is
/// everything the phase emits, from `start`; `k` steps are done, the sum
/// is `cur`, and `emitted` holds what came before the phase and the hints
/// of the `k` steps.
pub open spec fn host_progress(
    start: (Seq<u32>, Seq<u32>),
    steps: Seq<Option<(Seq<u32>, Seq<u32>)>>,
    hp: Seq<Seq<u32>>,
    prefix: Seq<Seq<u32>>,
    k: nat,
    cur: (Seq<u32>, Seq<u32>),
    emitted: Seq<Seq<u32>>,
) -> bool {
    &&& hp == host_hints_from(start, steps, 0)
    &&& hp.len() == 2 * steps.len()
    &&& k <= steps.len()
    &&& hp.skip((2 * k) as int) == host_hints_from(cur, steps, k)
    &&& host_final_from(start, steps, 0) == host_final_from(cur, steps, k)
    &&& host_defined_from(start, steps, 0) == host_defined_from(cur, steps, k)
    &&& run_from(start, steps, hp, 0) == run_from(cur, steps, hp, k)
    &&& run_len_from(start, steps, hp, 0) == k + run_len_from(cur, steps, hp, k)
    &&& hints_last_from(start, steps, hp, 0) == hints_last_from(cur, steps, hp, k)
    &&& emitted == prefix + hp.take((2 * k) as int)
}

/// One step of the prover's walk keeps its progress.
proof fn lemma_host_progress_step(
    start: (Seq<u32>, Seq<u32>),
    steps: Seq<Option<(Seq<u32>, Seq<u32>)>>,
    hp: Seq<Seq<u32>>,
    prefix: Seq<Seq<u32>>,
    k: nat,
    cur: (Seq<u32>, Seq<u32>),
    emitted: Seq<Seq<u32>>,
)
    requires
        k < steps.len(),
        host_progress(start, steps, hp, prefix, k, cur, emitted),
        host_defined(cur, steps[k as int]),
        step_holds(cur, steps[k as int], host_next(cur, steps[k as int])),
    ensures
        ({
            let n = host_next(cur, steps[k as int]);
            &&& hint_at(hp, k as int) == n
            &&& host_progress(start, steps, hp, prefix, k + 1, n, emitted.push(n.0).push(n.1))
        }),
{
    let n = host_next(cur, steps[k as int]);
    let tail = host_hints_from(n, steps, k + 1);
    assert(hp.skip((2 * k) as int) == seq![n.0, n.1] + tail);
    assert(hp[(2 * k) as int] == n.0 && hp[(2 * k + 1) as int] == n.1) by {
        assert(hp.skip((2 * k) as int)[0] == hp[(2 * k) as int]);
        assert(hp.skip((2 * k) as int)[1] == hp[(2 * k + 1) as int]);
    }
    assert(hint_at(hp, k as int) == n);
    assert(hp.skip((2 * (k + 1)) as int) =~= hp.skip((2 * k) as int).skip(2));
    assert((seq![n.0, n.1] + tail).skip(2) =~= tail);
    assert(emitted.push(n.0).push(n.1) =~= prefix + hp.take((2 * (k + 1)) as int));
}

/// Computes the next sum of the prover's walk and emits it as two hints;
/// `false`, with nothing emitted, when a denominator of the step vanishes.
pub(crate) fn host_checked_step(
    sum: &mut AffineEdwardsPoint,
    rhs: Option<&AffineEdwardsPoint>,
    hints: &mut Vec<[u32; 8]>,
    Ghost(start): Ghost<(Seq<u32>, Seq<u32>)>,
    Ghost(steps): Ghost<Seq<Option<(Seq<u32>, Seq<u32>)>>>,
    Ghost(hp): Ghost<Seq<Seq<u32>>>,
    Ghost(prefix): Ghost<Seq<Seq<u32>>>,
    Ghost(k): Ghost<nat>,
) -> (ok: bool)
    requires
        k < steps.len(),
        steps[k as int] == host_step_of(rhs),
        host_progress(
            start,
            steps,
            hp,
            prefix,
            k,
            (old(sum).x@, old(sum).y@),
            hint_stream(old(hints)@),
        ),
    ensures
        ok ==> host_progress(
            start,
            steps,
            hp,
            prefix,
            k + 1,
            (final(sum).x@, final(sum).y@),
            hint_stream(final(hints)@),
        ),
        ok ==> hint_at(hp, k as int) == (final(sum).x@, final(sum).y@),
        !ok ==> !host_defined_from(start, steps, 0),
{
    let ghost cur = (sum.x@, sum.y@);
    let ghost emitted = hint_stream(hints@);
    let ghost n = host_next(cur, steps[k as int]);
    let next = match rhs {
        Some(p) => sum.try_add(p),
        None => sum.try_add(sum),
    };
    let next = match next {
        Some(v) => v,
        None => {
            return false;
        },
    };
    proof {
        assert((next.x@, next.y@) == n);
        if rhs is None {
            law_double_is_self_add(sum.xv(), sum.yv(), next.xv(), next.yv());
        }
        assert(step_holds(cur, steps[k as int], n));
        lemma_host_progress_step(start, steps, hp, prefix, k, cur, emitted);
    }
    hints.push(next.x);
    hints.push(next.y);
    *sum = next;
    proof {
        assert(hint_stream(hints@) =~= emitted.push(n.0).push(n.1));
    }
    true
}


/// The steps of one window of the prover: `doublings` doublings, then the
/// addition of `add1` and of `add2` where they are present.
pub open spec fn host_segment(
    doublings: nat,
    add1: Option<&AffineEdwardsPoint>,
    add2: Option<&AffineEdwardsPoint>,
) -> Seq<Option<(Seq<u32>, Seq<u32>)>> {
    Seq::new(doublings, |i: int| None) + (match add1 {
        Some(p) => seq![host_step_of(Some(p))],
        None => Seq::empty(),
    }) + (match add2 {
        Some(p) => seq![host_step_of(Some(p))],
        None => Seq::empty(),
    })
}

/// Walks the steps of one window, which stand at index `k` of `steps`;
/// `false` when a denominator of a step vanishes.
pub(crate) fn host_run_segment(
    sum: &mut AffineEdwardsPoint,
    doublings: usize,
    add1: Option<&AffineEdwardsPoint>,
    add2: Option<&AffineEdwardsPoint>,
    hints: &mut Vec<[u32; 8]>,
    Ghost(start): Ghost<(Seq<u32>, Seq<u32>)>,
    Ghost(steps): Ghost<Seq<Option<(Seq<u32>, Seq<u32>)>>>,
    Ghost(hp): Ghost<Seq<Seq<u32>>>,
    Ghost(prefix): Ghost<Seq<Seq<u32>>>,
    Ghost(k): Ghost<nat>,
) -> (ok: bool)
    requires
        k + host_segment(doublings as nat, add1, add2).len() <= steps.len(),
        steps.subrange(k as int, (k + host_segment(doublings as nat, add1, add2).len()) as int)
            == host_segment(doublings as nat, add1, add2),
        host_progress(
            start,
            steps,
            hp,
            prefix,
            k,
            (old(sum).x@, old(sum).y@),
            hint_stream(old(hints)@),
        ),
    ensures
        ok ==> host_progress(
            start,
            steps,
            hp,
            prefix,
            k + host_segment(doublings as nat, add1, add2).len(),
            (final(sum).x@, final(sum).y@),
            hint_stream(final(hints)@),
        ),
        !ok ==> !host_defined_from(start, steps, 0),
{
    let ghost seg = host_segment(doublings as nat, add1, add2);
    let ghost mut done: nat = 0;
    for t in 0..doublings
        invariant
            seg == host_segment(doublings as nat, add1, add2),
            k + seg.len() <= steps.len(),
            steps.subrange(k as int, (k + seg.len()) as int) == seg,
            done == t,
            host_progress(
                start,
                steps,
                hp,
                prefix,
                k + done,
                (sum.x@, sum.y@),
                hint_stream(hints@),
            ),
    {
        assert(steps[(k + t) as int] == seg[t as int]);
        let ok = host_checked_step(
            sum,
            None,
            hints,
            Ghost(start),
            Ghost(steps),
            Ghost(hp),
            Ghost(prefix),
            Ghost((k + done) as nat),
        );
        if !ok {
            return false;
        }
        proof {
            done = done + 1;
        }
    }
    if let Some(rhs) = add1 {
        assert(steps[(k + done) as int] == seg[done as int]);
        let ok = host_checked_step(
            sum,
            Some(rhs),
            hints,
            Ghost(start),
            Ghost(steps),
            Ghost(hp),
            Ghost(prefix),
            Ghost((k + done) as nat),
        );
        if !ok {
            return false;
        }
        proof {
            done = done + 1;
        }
    }
    if let Some(rhs) = add2 {
        assert(steps[(k + done) as int] == seg[done as int]);
        let ok = host_checked_step(
            sum,
            Some(rhs),
            hints,
            Ghost(start),
            Ghost(steps),
            Ghost(hp),
            Ghost(prefix),
            Ghost((k + done) as nat),
        );
        if !ok {
            return false;
        }
        proof {
            done = done + 1;
        }
    }
    true
}


/// The hints the prover emits while it builds the table of `g2`.
pub open spec fn g2_table_hints(g2: (Seq<u32>, Seq<u32>)) -> Seq<Seq<u32>> {
    host_hints_from(g2, table_steps(g2), 0)
}

/// The steps of the windowed evaluation once the table of `g2` is built.
pub open spec fn unknown_g2_main_steps(
    s1: [u32; 8],
    s2: [u32; 8],
    g2: (Seq<u32>, Seq<u32>),
    g_table: PointTable,
) -> Seq<Option<(Seq<u32>, Seq<u32>)>> {
    eval_steps(s1@, s2@, table_points(g_table@), table_from_hints(g2, g2_table_hints(g2)))
}

/// Everything the prover emits for `s1 * G + s2 * G2`.
pub open spec fn unknown_g2_hints(
    s1: [u32; 8],
    s2: [u32; 8],
    g2: (Seq<u32>, Seq<u32>),
    g_table: PointTable,
) -> Seq<Seq<u32>> {
    g2_table_hints(g2) + host_hints_from(
        identity_limbs(),
        unknown_g2_main_steps(s1, s2, g2, g_table),
        0,
    )
}

/// Whether no denominator of the prover's computation vanishes.
pub open spec fn unknown_g2_defined(
    s1: [u32; 8],
    s2: [u32; 8],
    g2: (Seq<u32>, Seq<u32>),
    g_table: PointTable,
) -> bool {
    &&& host_defined_from(g2, table_steps(g2), 0)
    &&& host_defined_from(identity_limbs(), unknown_g2_main_steps(s1, s2, g2, g_table), 0)
}

/// The prover's final sum.
pub open spec fn unknown_g2_result(
    s1: [u32; 8],
    s2: [u32; 8],
    g2: (Seq<u32>, Seq<u32>),
    g_table: PointTable,
) -> (Seq<u32>, Seq<u32>) {
    host_final_from(identity_limbs(), unknown_g2_main_steps(s1, s2, g2, g_table), 0)
}

/// What the hints for `Evaluator::evaluate` are: everything the prover
/// emits; the evaluator with the same scalars, `g2` and table accepts them
/// all and returns the prover's final sum; and the last two hints are
/// `s1 * B + s2 * g2`, `B` the point whose multiples `g_table` holds.
pub open spec fn unknown_g2_built(
    s1: [u32; 8],
    s2: [u32; 8],
    g2: AffineEdwardsPoint,
    g_table: PointTable,
    hints: Seq<[u32; 8]>,
) -> bool {
    let ev = (Evaluator { s1: s1, s2: s2, g2: (TEPoint { x: g2.x, y: g2.y }) });
    let h = hint_stream(hints);
    &&& h == unknown_g2_hints(s1, s2, (g2.x@, g2.y@), g_table)
    &&& ev.hints_suffice(g_table, h)
    &&& ev.outcome(g_table, h) == Some(unknown_g2_result(s1, s2, (g2.x@, g2.y@), g_table))
    &&& ev.hints_taken(g_table, h) == h.len()
    &&& curve_group_facts() && is_multiples_table(table_points(g_table@)) && is_point(
        abs_point((g2.x@, g2.y@)),
    ) ==> ({
        let pt = ev.expected_point(g_table);
        &&& hints.len() >= 2
        &&& hints[hints.len() - 2]@ == limbs_of(pt.0)
        &&& hints[hints.len() - 1]@ == limbs_of(pt.1)
    })
}

/// What the hints for `DualTableEvaluator::evaluate` are: everything the
/// prover emits; the evaluator accepts them all and ends at the prover's
/// final sum; and the last two hints, if any, are `s1 * B + s2 * G2`, `B`
/// and `G2` the points whose multiples the long tables hold.
pub open spec fn g2_in_table_built(
    s1: [u32; 8],
    s2: [u32; 8],
    g_long_table: LongTable,
    g2_long_table: LongTable,
    hints: Seq<[u32; 8]>,
) -> bool {
    let ev = DualTableEvaluator { s1: s1, s2: s2 };
    let steps = ev.steps(g_long_table, g2_long_table);
    let h = hint_stream(hints);
    &&& h == host_hints_from(identity_limbs(), steps, 0)
    &&& hints_last_from(identity_limbs(), steps, h, 0)
    &&& run_from(identity_limbs(), steps, h, 0) == Some(host_final_from(identity_limbs(), steps, 0))
    &&& 2 * run_len_from(identity_limbs(), steps, h, 0) == h.len()
    &&& curve_group_facts() && is_long_multiples_table(long_table_points(g_long_table))
        && is_long_multiples_table(long_table_points(g2_long_table)) ==> ({
        let pt = ev.expected_point(g_long_table, g2_long_table);
        &&& hints.len() >= 2 ==> hints[hints.len() - 2]@ == limbs_of(pt.0) && hints[hints.len() - 1]@
            == limbs_of(pt.1)
        &&& hints.len() == 0 ==> pt == identity_pt()
    })
}

/// Computes the hints that the evaluators check.
pub struct HintBuilder {}

impl HintBuilder {
    /// The hints for `Evaluator::evaluate`, as `build_unknown_g2` computes
    /// them, or `None` where a denominator of the prover's computation
    /// vanishes (where `build_unknown_g2` cannot be called).
    pub fn try_build_unknown_g2(
        s1: &[u32; 8],
        s2: &[u32; 8],
        g2: &AffineEdwardsPoint,
        g_table: &PointTable,
    ) -> (res: Option<Vec<[u32; 8]>>)
        ensures
            res is Some <==> unknown_g2_defined(*s1, *s2, (g2.x@, g2.y@), *g_table),
            res matches Some(hints) ==> unknown_g2_built(*s1, *s2, *g2, *g_table, hints@),
    {
        let ghost g2l = (g2.x@, g2.y@);
        let ghost tsteps = table_steps(g2l);
        let ghost hp1 = g2_table_hints(g2l);
        let mut hints = Vec::<[u32; 8]>::new();
        proof {
            lemma_host_hints_len(g2l, tsteps, 0);
            assert(hp1.skip(0) =~= hp1);
            assert(hint_stream(hints@) =~= Seq::<Seq<u32>>::empty() + hp1.take(0));
        }

        // Step 1: build a table for g2

        let mut table_g2 = [([0u32; 8], [0u32; 8]); 15];

        table_g2[0].0 = g2.x;
        table_g2[0].1 = g2.y;

        let mut cur = AffineEdwardsPoint { x: g2.x, y: g2.y };

        for i in 1usize..15
            invariant
                g2l == (g2.x@, g2.y@),
                tsteps == table_steps(g2l),
                hp1 == g2_table_hints(g2l),
                host_progress(
                    g2l,
                    tsteps,
                    hp1,
                    Seq::empty(),
                    (i - 1) as nat,
                    (cur.x@, cur.y@),
                    hint_stream(hints@),
                ),
                table_g2@[0].0 == g2.x && table_g2@[0].1 == g2.y,
                forall|t: int|
                    1 <= t < i ==> (#[trigger] table_g2@[t].0@, table_g2@[t].1@) == hint_at(
                        hp1,
                        t - 1,
                    ),
        {
            let ok = host_checked_step(
                &mut cur,
                Some(g2),
                &mut hints,
                Ghost(g2l),
                Ghost(tsteps),
                Ghost(hp1),
                Ghost(Seq::empty()),
                Ghost((i - 1) as nat),
            );
            if !ok {
                return None;
            }
            table_g2[i].0 = cur.x;
            table_g2[i].1 = cur.y;
        }
        proof {
            assert(table_points(table_g2@) =~= table_from_hints(g2l, hp1));
            assert(hint_stream(hints@) =~= hp1);
        }

        // Step 2: start the addition

        let ghost gt = table_points(g_table@);
        let ghost g2t = table_from_hints(g2l, hp1);
        let ghost w = |p: int| eval_window(s1@, s2@, gt, g2t, p);
        let ghost steps = unknown_g2_main_steps(*s1, *s2, g2l, *g_table);
        let ghost hp2 = host_hints_from(identity_limbs(), steps, 0);
        assert(steps == windows(w, 64));
        let ghost mut k: nat = 0;
        let mut sum = AffineEdwardsPoint::default();
        proof {
            lemma_host_hints_len(identity_limbs(), steps, 0);
            assert((sum.x@, sum.y@) == identity_limbs());
            assert(hp2.skip(0) =~= hp2);
            assert(hint_stream(hints@) =~= hp1 + hp2.take(0));
        }

        for i in 0usize..8
            invariant
                g2l == (g2.x@, g2.y@),
                hp1 == g2_table_hints(g2l),
                hp1.len() == 28,
                host_progress(g2l, table_steps(g2l), hp1, Seq::empty(), 14, (cur.x@, cur.y@), hp1),
                gt == table_points(g_table@),
                g2t == table_from_hints(g2l, hp1),
                table_points(table_g2@) == g2t,
                steps == windows(w, 64),
                steps == unknown_g2_main_steps(*s1, *s2, g2l, *g_table),
                hp2 == host_hints_from(identity_limbs(), steps, 0),
                w == (|p: int| eval_window(s1@, s2@, gt, g2t, p)),
                k == windows(w, (8 * i) as nat).len(),
                host_progress(
                    identity_limbs(),
                    steps,
                    hp2,
                    hp1,
                    k,
                    (sum.x@, sum.y@),
                    hint_stream(hints@),
                ),
        {
            for j in 0usize..8
                invariant
                    0 <= i < 8,
                    g2l == (g2.x@, g2.y@),
                    hp1 == g2_table_hints(g2l),
                    hp1.len() == 28,
                    host_progress(g2l, table_steps(g2l), hp1, Seq::empty(), 14, (cur.x@, cur.y@), hp1),
                    gt == table_points(g_table@),
                    g2t == table_from_hints(g2l, hp1),
                    table_points(table_g2@) == g2t,
                    steps == windows(w, 64),
                    steps == unknown_g2_main_steps(*s1, *s2, g2l, *g_table),
                    hp2 == host_hints_from(identity_limbs(), steps, 0),
                    w == (|p: int| eval_window(s1@, s2@, gt, g2t, p)),
                    k == windows(w, (8 * i + j) as nat).len(),
                    host_progress(
                        identity_limbs(),
                        steps,
                        hp2,
                        hp1,
                        k,
                        (sum.x@, sum.y@),
                        hint_stream(hints@),
                    ),
            {
                let ghost p = 8 * i + j;
                let doublings: usize = if !(i == 0 && j == 0) { 4 } else { 0 };

                let s1_word = s1[7 - i];
                let s2_word = s2[7 - i];
                let bits_k1 = ((s1_word >> (((7 - j) * 4) as u32)) & 0xF) as usize;
                let bits_k2 = ((s2_word >> (((7 - j) * 4) as u32)) & 0xF) as usize;
                proof {
                    assert((63 - p) / 8 == 7 - i && (63 - p) % 8 == 7 - j);
                    assert(bits_k1 == nibble(s1@, 63 - p));
                    assert(bits_k2 == nibble(s2@, 63 - p));
                    assert((s1_word >> (((7 - j) * 4) as u32)) & 0xF <= 15) by (bit_vector);
                    assert((s2_word >> (((7 - j) * 4) as u32)) & 0xF <= 15) by (bit_vector);
                }

                let rhs1 = if bits_k1 != 0 {
                    let point = g_table[bits_k1 - 1];
                    Some(AffineEdwardsPoint { x: point.0, y: point.1 })
                } else {
                    None
                };
                let rhs2 = if bits_k2 != 0 {
                    let point = table_g2[bits_k2 - 1];
                    Some(AffineEdwardsPoint { x: point.0, y: point.1 })
                } else {
                    None
                };
                let add1 = match &rhs1 {
                    Some(pt) => Some(pt),
                    None => None,
                };
                let add2 = match &rhs2 {
                    Some(pt) => Some(pt),
                    None => None,
                };
                proof {
                    lemma_windows_segment(w, p as nat, 64);
                    assert(w(p as int) =~= host_segment(doublings as nat, add1, add2));
                }
                let ok = host_run_segment(
                    &mut sum,
                    doublings,
                    add1,
                    add2,
                    &mut hints,
                    Ghost(identity_limbs()),
                    Ghost(steps),
                    Ghost(hp2),
                    Ghost(hp1),
                    Ghost(k),
                );
                if !ok {
                    return None;
                }
                proof {
                    k = k + host_segment(doublings as nat, add1, add2).len();
                }
            }
        }
        proof {
            let h = hint_stream(hints@);
            assert(h =~= hp1 + hp2);
            let ev = (Evaluator { s1: *s1, s2: *s2, g2: (TEPoint { x: g2.x, y: g2.y }) });
            assert(ev.g2_limbs() == g2l);
            assert(table_from_hints(g2l, h) =~= table_from_hints(g2l, hp1));
            assert(ev.main_steps(*g_table, h) == steps);
            lemma_run_stream_prefix(g2l, table_steps(g2l), hp1, h, 0);
            assert(h.skip(28) =~= hp2);
            if curve_group_facts() && is_multiples_table(gt) && is_point(abs_point(g2l)) {
                lemma_g2_table_multiples(g2l, h);
                lemma_eval_sound(s1@, s2@, gt, g2t, hp2);
                lemma_windows_segment(w, 63, 64);
                lemma_host_last(identity_limbs(), steps, 0);
                let r = host_final_from(identity_limbs(), steps, 0);
                let pt = ev.expected_point(*g_table);
                vstd::arithmetic::div_mod::lemma_small_mod(limbs_val(r.0), q());
                vstd::arithmetic::div_mod::lemma_small_mod(limbs_val(r.1), q());
                assert(limbs_val(r.0) == pt.0);
                assert(limbs_val(r.1) == pt.1);
                assert(h[h.len() - 2] == hp2[hp2.len() - 2]);
                assert(h[h.len() - 1] == hp2[hp2.len() - 1]);
            }
        }
        Some(hints)
    }

    /// The hints for `Evaluator::evaluate`: the fourteen multiples of `g2`
    /// after `g2`, then the sum after every step of the windows, each as
    /// `x` then `y`. The evaluator with the same scalars, `g2` and table
    /// accepts them all and returns the prover's final sum.
    pub fn build_unknown_g2(
        s1: &[u32; 8],
        s2: &[u32; 8],
        g2: &AffineEdwardsPoint,
        g_table: &PointTable,
    ) -> (hints: Vec<[u32; 8]>)
        requires
            unknown_g2_defined(*s1, *s2, (g2.x@, g2.y@), *g_table),
        ensures
            unknown_g2_built(*s1, *s2, *g2, *g_table, hints@),
    {
        match Self::try_build_unknown_g2(s1, s2, g2, g_table) {
            Some(hints) => hints,
            None => {
                proof {
                    assert(false);
                }
                Vec::new()
            },
        }
    }

    /// The hints for `DualTableEvaluator::evaluate`, as `build_g2_in_table`
    /// computes them, or `None` where a denominator of the prover's
    /// computation vanishes (where `build_g2_in_table` cannot be called).
    pub fn try_build_g2_in_table(
        s1: &[u32; 8],
        s2: &[u32; 8],
        g_long_table: &LongTable,
        g2_long_table: &LongTable,
    ) -> (res: Option<Vec<[u32; 8]>>)
        ensures
            res is Some <==> host_defined_from(
                identity_limbs(),
                (DualTableEvaluator { s1: *s1, s2: *s2 }).steps(*g_long_table, *g2_long_table),
                0,
            ),
            res matches Some(hints) ==> g2_in_table_built(
                *s1,
                *s2,
                *g_long_table,
                *g2_long_table,
                hints@,
            ),
    {
        let ghost gl = long_table_points(*g_long_table);
        let ghost g2l = long_table_points(*g2_long_table);
        let ghost w = |p: int| dual_window(s1@, s2@, gl, g2l, p);
        let ghost steps = (DualTableEvaluator { s1: *s1, s2: *s2 }).steps(
            *g_long_table,
            *g2_long_table,
        );
        let ghost hp = host_hints_from(identity_limbs(), steps, 0);
        assert(steps == windows(w, 64));
        let ghost mut k: nat = 0;
        let mut hints = Vec::<[u32; 8]>::new();
        let mut sum = AffineEdwardsPoint::default();
        proof {
            lemma_host_hints_len(identity_limbs(), steps, 0);
            assert((sum.x@, sum.y@) == identity_limbs());
            assert(hp.skip(0) =~= hp);
            assert(hint_stream(hints@) =~= Seq::<Seq<u32>>::empty() + hp.take(0));
        }

        for i in 0usize..8
            invariant
                gl == long_table_points(*g_long_table),
                g2l == long_table_points(*g2_long_table),
                steps == windows(w, 64),
                steps == (DualTableEvaluator { s1: *s1, s2: *s2 }).steps(*g_long_table, *g2_long_table),
                hp == host_hints_from(identity_limbs(), steps, 0),
                w == (|p: int| dual_window(s1@, s2@, gl, g2l, p)),
                k == windows(w, (8 * i) as nat).len(),
                host_progress(
                    identity_limbs(),
                    steps,
                    hp,
                    Seq::empty(),
                    k,
                    (sum.x@, sum.y@),
                    hint_stream(hints@),
                ),
        {
            for j in 0usize..8
                invariant
                    0 <= i < 8,
                    gl == long_table_points(*g_long_table),
                    g2l == long_table_points(*g2_long_table),
                    steps == windows(w, 64),
                    steps == (DualTableEvaluator { s1: *s1, s2: *s2 }).steps(
                        *g_long_table,
                        *g2_long_table,
                    ),
                    hp == host_hints_from(identity_limbs(), steps, 0),
                    w == (|p: int| dual_window(s1@, s2@, gl, g2l, p)),
                    k == windows(w, (8 * i + j) as nat).len(),
                    host_progress(
                        identity_limbs(),
                        steps,
                        hp,
                        Seq::empty(),
                        k,
                        (sum.x@, sum.y@),
                        hint_stream(hints@),
                    ),
            {
                let ghost p = 8 * i + j;
                let s1_word = s1[i];
                let s2_word = s2[i];
                let bits_k1 = ((s1_word >> ((j * 4) as u32)) & 0xF) as usize;
                let bits_k2 = ((s2_word >> ((j * 4) as u32)) & 0xF) as usize;
                proof {
                    assert(p / 8 == i && p % 8 == j);
                    assert(bits_k1 == nibble(s1@, p));
                    assert(bits_k2 == nibble(s2@, p));
                    assert((s1_word >> ((j * 4) as u32)) & 0xF <= 15) by (bit_vector);
                    assert((s2_word >> ((j * 4) as u32)) & 0xF <= 15) by (bit_vector);
                }

                let rhs1 = if bits_k1 != 0 {
                    let point = g_long_table[i * 8 + j][bits_k1 - 1];
                    Some(AffineEdwardsPoint { x: point.0, y: point.1 })
                } else {
                    None
                };
                let rhs2 = if bits_k2 != 0 {
                    let point = g2_long_table[i * 8 + j][bits_k2 - 1];
                    Some(AffineEdwardsPoint { x: point.0, y: point.1 })
                } else {
                    None
                };
                let add1 = match &rhs1 {
                    Some(pt) => Some(pt),
                    None => None,
                };
                let add2 = match &rhs2 {
                    Some(pt) => Some(pt),
                    None => None,
                };
                proof {
                    lemma_windows_segment(w, p as nat, 64);
                    assert(w(p as int) =~= host_segment(0, add1, add2));
                }
                let ok = host_run_segment(
                    &mut sum,
                    0,
                    add1,
                    add2,
                    &mut hints,
                    Ghost(identity_limbs()),
                    Ghost(steps),
                    Ghost(hp),
                    Ghost(Seq::empty()),
                    Ghost(k),
                );
                if !ok {
                    return None;
                }
                proof {
                    k = k + host_segment(0, add1, add2).len();
                }
            }
        }
        proof {
            let h = hint_stream(hints@);
            assert(h =~= hp);
            if curve_group_facts() && is_long_multiples_table(gl) && is_long_multiples_table(g2l) {
                lemma_dual_sound(s1@, s2@, gl, g2l, h);
                if steps.len() > 0 {
                    lemma_host_last(identity_limbs(), steps, 0);
                    let r = host_final_from(identity_limbs(), steps, 0);
                    vstd::arithmetic::div_mod::lemma_small_mod(limbs_val(r.0), q());
                    vstd::arithmetic::div_mod::lemma_small_mod(limbs_val(r.1), q());
                    assert(h[h.len() - 2] == hints@[hints@.len() - 2]@);
                    assert(h[h.len() - 1] == hints@[hints@.len() - 1]@);
                }
            }
        }
        Some(hints)
    }

    /// The hints for `DualTableEvaluator::evaluate`: the sum after every
    /// step, each as `x` then `y`. The evaluator with the same scalars and
    /// tables accepts them all and returns the prover's final sum.
    pub fn build_g2_in_table(
        s1: &[u32; 8],
        s2: &[u32; 8],
        g_long_table: &LongTable,
        g2_long_table: &LongTable,
    ) -> (hints: Vec<[u32; 8]>)
        requires
            host_defined_from(
                identity_limbs(),
                (DualTableEvaluator { s1: *s1, s2: *s2 }).steps(*g_long_table, *g2_long_table),
                0,
            ),
        ensures
            g2_in_table_built(*s1, *s2, *g_long_table, *g2_long_table, hints@),
    {
        match Self::try_build_g2_in_table(s1, s2, g_long_table, g2_long_table) {
            Some(hints) => hints,
            None => {
                proof {
                    assert(false);
                }
                Vec::new()
            },
        }
    }
}

} // verus!
