//! What a run of hint-checked steps computes: each step adds a point to the
//! running sum, or doubles it, and is checked against the next hint, which
//! becomes the new sum. A hint is a pair of limb sequences, taken from a
//! stream of limb sequences two at a time.
use vstd::prelude::*;
use crate::limbs::limbs_val;
use crate::hinter::ComputeHintStreamer;
use crate::structs::{add_hint_holds, dbl_hint_holds, TEPoint};
use crate::EvaluationError;

verus! {

/// Whether `hint` is accepted for one step from `sum`: `Some(p)` adds the
/// point `p`, `None` doubles.
pub open spec fn step_holds(
    sum: (Seq<u32>, Seq<u32>),
    step: Option<(Seq<u32>, Seq<u32>)>,
    hint: (Seq<u32>, Seq<u32>),
) -> bool {
    match step {
        Some(p) => add_hint_holds(
            limbs_val(sum.0),
            limbs_val(sum.1),
            limbs_val(p.0),
            limbs_val(p.1),
            limbs_val(hint.0),
            limbs_val(hint.1),
        ),
        None => dbl_hint_holds(
            limbs_val(sum.0),
            limbs_val(sum.1),
            limbs_val(hint.0),
            limbs_val(hint.1),
        ),
    }
}

/// The hint for step `k`: the limb sequences `2k` and `2k + 1` of the stream.
pub open spec fn hint_at(h: Seq<Seq<u32>>, k: int) -> (Seq<u32>, Seq<u32>) {
    (h[2 * k], h[2 * k + 1])
}

/// The outcome of the steps from index `k` on, from the running sum `sum`:
/// the final sum, or `None` when a hint is refused.
pub open spec fn run_from(
    sum: (Seq<u32>, Seq<u32>),
    steps: Seq<Option<(Seq<u32>, Seq<u32>)>>,
    h: Seq<Seq<u32>>,
    k: nat,
) -> Option<(Seq<u32>, Seq<u32>)>
    decreases steps.len() - k,
{
    if k >= steps.len() {
        Some(sum)
    } else if step_holds(sum, steps[k as int], hint_at(h, k as int)) {
        run_from(hint_at(h, k as int), steps, h, k + 1)
    } else {
        None
    }
}

/// How many steps from index `k` on take their hint: all of them, or up to
/// and with the first refused one.
pub open spec fn run_len_from(
    sum: (Seq<u32>, Seq<u32>),
    steps: Seq<Option<(Seq<u32>, Seq<u32>)>>,
    h: Seq<Seq<u32>>,
    k: nat,
) -> nat
    decreases steps.len() - k,
{
    if k >= steps.len() {
        0
    } else if step_holds(sum, steps[k as int], hint_at(h, k as int)) {
        1 + run_len_from(hint_at(h, k as int), steps, h, k + 1)
    } else {
        1
    }
}

/// Whether the stream holds a hint for every step from index `k` on that is
/// taken, that is, until the steps end or a hint is refused.
pub open spec fn hints_last_from(
    sum: (Seq<u32>, Seq<u32>),
    steps: Seq<Option<(Seq<u32>, Seq<u32>)>>,
    h: Seq<Seq<u32>>,
    k: nat,
) -> bool
    decreases steps.len() - k,
{
    k >= steps.len() || (h.len() >= 2 * k + 2 && (step_holds(sum, steps[k as int], hint_at(h, k as int))
        ==> hints_last_from(hint_at(h, k as int), steps, h, k + 1)))
}

/// The limbs of a point.
pub open spec fn point_limbs(x: [u32; 8], y: [u32; 8]) -> (Seq<u32>, Seq<u32>) {
    (x@, y@)
}

/// The identity `(0, 1)`.
pub open spec fn identity_limbs() -> (Seq<u32>, Seq<u32>) {
    (Seq::new(8, |i: int| 0u32), Seq::new(8, |i: int| if i == 0 { 1u32 } else { 0u32 }))
}

/// The four-bit digit `n` (counted from the least significant) of an
/// eight-limb scalar.
pub open spec fn nibble(s: Seq<u32>, n: int) -> u32 {
    (s[n / 8] >> ((4 * (n % 8)) as u32)) & 0xfu32
}

/// The points of a table.
pub open spec fn table_points(t: Seq<([u32; 8], [u32; 8])>) -> Seq<(Seq<u32>, Seq<u32>)> {
    Seq::new(t.len(), |i: int| (t[i].0@, t[i].1@))
}


/// The steps of windows `0..n` in order, window `p` contributing `w(p)`.
pub open spec fn windows(
    w: spec_fn(int) -> Seq<Option<(Seq<u32>, Seq<u32>)>>,
    n: nat,
) -> Seq<Option<(Seq<u32>, Seq<u32>)>>
    decreases n,
{
    if n == 0 {
        Seq::empty()
    } else {
        windows(w, (n - 1) as nat) + w(n - 1)
    }
}

/// The steps of the first `m` windows begin the steps of the first `n`.
pub proof fn lemma_windows_prefix(
    w: spec_fn(int) -> Seq<Option<(Seq<u32>, Seq<u32>)>>,
    m: nat,
    n: nat,
)
    requires
        m <= n,
    ensures
        windows(w, m).len() <= windows(w, n).len(),
        forall|i: int| 0 <= i < windows(w, m).len() ==> windows(w, n)[i] == windows(w, m)[i],
    decreases n,
{
    if m < n {
        lemma_windows_prefix(w, m, (n - 1) as nat);
    }
}

/// Step `o` of window `p` stands at index `windows(w, p).len() + o` of the
/// steps of the first `n` windows.
pub proof fn lemma_windows_index(
    w: spec_fn(int) -> Seq<Option<(Seq<u32>, Seq<u32>)>>,
    p: nat,
    o: int,
    n: nat,
)
    requires
        p < n,
        0 <= o < w(p as int).len(),
    ensures
        windows(w, p).len() + o < windows(w, n).len(),
        windows(w, n)[windows(w, p).len() + o] == w(p as int)[o],
{
    lemma_windows_prefix(w, p + 1, n);
    assert(windows(w, p + 1) == windows(w, p) + w(p as int));
}


/// The steps of window `p` stand, in order, right after those of the
/// windows before it.
pub proof fn lemma_windows_segment(
    w: spec_fn(int) -> Seq<Option<(Seq<u32>, Seq<u32>)>>,
    p: nat,
    n: nat,
)
    requires
        p < n,
    ensures
        windows(w, p).len() + w(p as int).len() <= windows(w, n).len(),
        windows(w, n).subrange(
            windows(w, p).len() as int,
            (windows(w, p).len() + w(p as int).len()) as int,
        ) == w(p as int),
        windows(w, p + 1).len() == windows(w, p).len() + w(p as int).len(),
{
    lemma_windows_prefix(w, p + 1, n);
    assert(windows(w, p + 1) == windows(w, p) + w(p as int));
    assert(windows(w, n).subrange(
        windows(w, p).len() as int,
        (windows(w, p).len() + w(p as int).len()) as int,
    ) =~= w(p as int));
}

/// A run reads the stream only up to the hints of its steps: on two
/// streams that agree there, it has the same outcome and length, and hints
/// that last on the shorter stream last on the longer one.
pub proof fn lemma_run_stream_prefix(
    sum: (Seq<u32>, Seq<u32>),
    steps: Seq<Option<(Seq<u32>, Seq<u32>)>>,
    h: Seq<Seq<u32>>,
    h2: Seq<Seq<u32>>,
    k: nat,
)
    requires
        h.len() >= 2 * steps.len(),
        h2.len() >= h.len(),
        forall|i: int| 0 <= i < h.len() ==> h2[i] == h[i],
    ensures
        run_from(sum, steps, h, k) == run_from(sum, steps, h2, k),
        run_len_from(sum, steps, h, k) == run_len_from(sum, steps, h2, k),
        hints_last_from(sum, steps, h, k) ==> hints_last_from(sum, steps, h2, k),
    decreases steps.len() - k,
{
    if k < steps.len() {
        assert(hint_at(h, k as int) == hint_at(h2, k as int));
        lemma_run_stream_prefix(hint_at(h, k as int), steps, h, h2, k + 1);
    }
}

/// The step that adds `rhs`, or doubles when there is none.
pub open spec fn step_of(rhs: Option<&TEPoint>) -> Option<(Seq<u32>, Seq<u32>)> {
    match rhs {
        Some(p) => Some(point_limbs(p.x, p.y)),
        None => None,
    }
}

/// Takes the next hint from the stream and checks it for step `k` of
/// `steps` from the running sum; when it is accepted it becomes the sum.
pub(crate) fn checked_step<S: ComputeHintStreamer>(
    sum: &mut TEPoint,
    rhs: Option<&TEPoint>,
    compute_hint: &mut S,
    Ghost(steps): Ghost<Seq<Option<(Seq<u32>, Seq<u32>)>>>,
    Ghost(h0): Ghost<Seq<Seq<u32>>>,
    Ghost(k): Ghost<nat>,
) -> (res: Result<(), EvaluationError>)
    requires
        k < steps.len(),
        steps[k as int] == step_of(rhs),
        hints_last_from(point_limbs(old(sum).x, old(sum).y), steps, h0, k),
        old(compute_hint).pending() == h0.skip((2 * k) as int),
        h0.len() >= 2 * k,
    ensures
        h0.len() >= 2 * k + 2,
        final(compute_hint).pending() == h0.skip((2 * k + 2) as int),
        run_from(point_limbs(old(sum).x, old(sum).y), steps, h0, k) == (if res is Ok {
            run_from(point_limbs(final(sum).x, final(sum).y), steps, h0, k + 1)
        } else {
            None
        }),
        run_len_from(point_limbs(old(sum).x, old(sum).y), steps, h0, k) == 1 + (if res is Ok {
            run_len_from(point_limbs(final(sum).x, final(sum).y), steps, h0, k + 1)
        } else {
            0
        }),
        res is Ok ==> hints_last_from(point_limbs(final(sum).x, final(sum).y), steps, h0, k + 1),
        res is Ok ==> point_limbs(final(sum).x, final(sum).y) == hint_at(h0, k as int),
        res matches Err(e) ==> e == EvaluationError::WrongHint,
{
    let ghost pend = compute_hint.pending();
    assert(pend.len() >= 2);
    let x3 = compute_hint.next();
    let y3 = compute_hint.next();
    let hint = TEPoint { x: x3, y: y3 };
    proof {
        assert(hint_at(h0, k as int) == point_limbs(x3, y3));
        assert(compute_hint.pending() =~= h0.skip((2 * k + 2) as int));
    }
    let r = match rhs {
        Some(p) => sum.check_add_hint(p, &hint),
        None => sum.check_dbl_hint(&hint),
    };
    match r {
        Ok(_) => {
            *sum = hint;
            Ok(())
        },
        Err(e) => Err(e),
    }
}


/// The steps of one window: `doublings` doublings, then the addition of
/// `add1` and of `add2` where they are present.
pub open spec fn segment(doublings: nat, add1: Option<&TEPoint>, add2: Option<&TEPoint>) -> Seq<
    Option<(Seq<u32>, Seq<u32>)>,
> {
    Seq::new(doublings, |i: int| None) + (match add1 {
        Some(p) => seq![step_of(Some(p))],
        None => Seq::empty(),
    }) + (match add2 {
        Some(p) => seq![step_of(Some(p))],
        None => Seq::empty(),
    })
}

/// Runs the steps of one window, which stand at index `k` of `steps`.
pub(crate) fn run_segment<S: ComputeHintStreamer>(
    sum: &mut TEPoint,
    doublings: usize,
    add1: Option<&TEPoint>,
    add2: Option<&TEPoint>,
    compute_hint: &mut S,
    Ghost(steps): Ghost<Seq<Option<(Seq<u32>, Seq<u32>)>>>,
    Ghost(h0): Ghost<Seq<Seq<u32>>>,
    Ghost(k): Ghost<nat>,
) -> (res: Result<(), EvaluationError>)
    requires
        k + segment(doublings as nat, add1, add2).len() <= steps.len(),
        steps.subrange(k as int, (k + segment(doublings as nat, add1, add2).len()) as int)
            == segment(doublings as nat, add1, add2),
        hints_last_from(point_limbs(old(sum).x, old(sum).y), steps, h0, k),
        old(compute_hint).pending() == h0.skip((2 * k) as int),
        h0.len() >= 2 * k,
    ensures
        ({
            let l = segment(doublings as nat, add1, add2).len();
            let before = point_limbs(old(sum).x, old(sum).y);
            let after = point_limbs(final(sum).x, final(sum).y);
            &&& res is Ok ==> {
                &&& run_from(before, steps, h0, k) == run_from(after, steps, h0, k + l)
                &&& run_len_from(before, steps, h0, k) == l + run_len_from(after, steps, h0, k + l)
                &&& hints_last_from(after, steps, h0, k + l)
                &&& final(compute_hint).pending() == h0.skip((2 * (k + l)) as int)
                &&& h0.len() >= 2 * (k + l)
            }
            &&& res is Err ==> {
                &&& run_from(before, steps, h0, k) is None
                &&& run_len_from(before, steps, h0, k) <= l
                &&& h0.len() >= 2 * (k + run_len_from(before, steps, h0, k))
                &&& final(compute_hint).pending() == h0.skip(
                    (2 * (k + run_len_from(before, steps, h0, k))) as int,
                )
            }
            &&& res matches Err(e) ==> e == EvaluationError::WrongHint
        }),
{
    let ghost seg = segment(doublings as nat, add1, add2);
    let ghost before = point_limbs(sum.x, sum.y);
    let ghost mut done: nat = 0;
    for t in 0..doublings
        invariant
            seg == segment(doublings as nat, add1, add2),
            before == point_limbs(old(sum).x, old(sum).y),
            k + seg.len() <= steps.len(),
            steps.subrange(k as int, (k + seg.len()) as int) == seg,
            done == t,
            run_from(before, steps, h0, k) == run_from(point_limbs(sum.x, sum.y), steps, h0, k + done),
            run_len_from(before, steps, h0, k) == done + run_len_from(
                point_limbs(sum.x, sum.y),
                steps,
                h0,
                k + done,
            ),
            hints_last_from(point_limbs(sum.x, sum.y), steps, h0, k + done),
            compute_hint.pending() == h0.skip((2 * (k + done)) as int),
            h0.len() >= 2 * (k + done),
    {
        assert(steps[(k + t) as int] == seg[t as int]);
        let r = checked_step(sum, None, compute_hint, Ghost(steps), Ghost(h0), Ghost((k + done) as nat));
        if r.is_err() {
            return Err(EvaluationError::WrongHint);
        }
        proof {
            done = done + 1;
        }
    }
    if let Some(rhs) = add1 {
        assert(steps[(k + done) as int] == seg[done as int]);
        let r = checked_step(sum, Some(rhs), compute_hint, Ghost(steps), Ghost(h0), Ghost((k + done) as nat));
        if r.is_err() {
            return Err(EvaluationError::WrongHint);
        }
        proof {
            done = done + 1;
        }
    }
    if let Some(rhs) = add2 {
        assert(steps[(k + done) as int] == seg[done as int]);
        let r = checked_step(sum, Some(rhs), compute_hint, Ghost(steps), Ghost(h0), Ghost((k + done) as nat));
        if r.is_err() {
            return Err(EvaluationError::WrongHint);
        }
        proof {
            done = done + 1;
        }
    }
    Ok(())
}

} // verus!
