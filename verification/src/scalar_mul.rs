//! What the evaluators compute: `s1 * B + s2 * G2`, given that their
//! tables hold the multiples of the base points they stand for.
use vstd::prelude::*;
use crate::field::{lemma_constants, q};
use crate::group::{
    combo, curve_group_facts, identity_pt, is_point, law_identity, lemma_facts_sum,
    lemma_hint_is_sum, pt_add,
};
use crate::limbs::{
    lemma_limbs_val_take_all, lemma_limbs_val_take_step, lemma_limbs_val_zero_tail, limbs_val,
    radix, radix_pow,
};
use crate::run::{hint_at, identity_limbs, nibble, run_from, step_holds, windows};
use crate::structs::law_double_is_self_add;

verus! {

/// The point that a pair of limb sequences stands for, coordinates reduced.
pub open spec fn abs_point(p: (Seq<u32>, Seq<u32>)) -> (nat, nat) {
    (limbs_val(p.0) % q(), limbs_val(p.1) % q())
}

/// The point after one step from `s`: `Some(p)` adds `p`, `None` doubles.
pub open spec fn abs_step(s: (nat, nat), step: Option<(Seq<u32>, Seq<u32>)>) -> (nat, nat) {
    match step {
        Some(p) => pt_add(s, abs_point(p)),
        None => pt_add(s, s),
    }
}

/// The point after the steps from index `k` on, from `s`.
pub open spec fn abs_fold(s: (nat, nat), steps: Seq<Option<(Seq<u32>, Seq<u32>)>>, k: nat) -> (
    nat,
    nat,
)
    decreases steps.len() - k,
{
    if k >= steps.len() {
        s
    } else {
        abs_fold(abs_step(s, steps[k as int]), steps, k + 1)
    }
}

/// Whether every point that a step adds is a point of the curve.
pub open spec fn steps_on_curve(steps: Seq<Option<(Seq<u32>, Seq<u32>)>>) -> bool {
    forall|j: int| 0 <= j < steps.len() ==> (#[trigger] steps[j] matches Some(p) ==> is_point(abs_point(p)))
}

/// Every hint that a run accepts is the point that the addition law gives,
/// so an accepted run ends at the point of the abstract fold; the `y` of
/// its last hint is reduced.
pub proof fn lemma_run_sound(
    sum: (Seq<u32>, Seq<u32>),
    steps: Seq<Option<(Seq<u32>, Seq<u32>)>>,
    h: Seq<Seq<u32>>,
    k: nat,
)
    requires
        curve_group_facts(),
        is_point(abs_point(sum)),
        steps_on_curve(steps),
        run_from(sum, steps, h, k) is Some,
    ensures
        abs_point(run_from(sum, steps, h, k).unwrap()) == abs_fold(abs_point(sum), steps, k),
        k < steps.len() ==> limbs_val(run_from(sum, steps, h, k).unwrap().1) < q(),
    decreases steps.len() - k,
{
    if k < steps.len() {
        let s = abs_point(sum);
        let hint = hint_at(h, k as int);
        let step = steps[k as int];
        assert(step_holds(sum, step, hint));
        lemma_constants();
        let r = match step {
            Some(p) => abs_point(p),
            None => s,
        };
        match step {
            Some(p) => {
                assert(is_point(abs_point(p)));
            },
            None => {
                law_double_is_self_add(
                    limbs_val(sum.0),
                    limbs_val(sum.1),
                    limbs_val(hint.0),
                    limbs_val(hint.1),
                );
            },
        }
        lemma_hint_is_sum(
            limbs_val(sum.0),
            limbs_val(sum.1),
            match step {
                Some(p) => limbs_val(p.0),
                None => limbs_val(sum.0),
            },
            match step {
                Some(p) => limbs_val(p.1),
                None => limbs_val(sum.1),
            },
            limbs_val(hint.0),
            limbs_val(hint.1),
            s,
            r,
        );
        lemma_facts_sum(s, r);
        vstd::arithmetic::div_mod::lemma_small_mod(limbs_val(hint.1), q());
        assert(abs_point(hint) == abs_step(s, step));
        lemma_run_sound(hint, steps, h, k + 1);
    }
}

/// Folding no step leaves the point; folding one step takes it.
pub proof fn lemma_fold_short(s: (nat, nat), x: Option<(Seq<u32>, Seq<u32>)>)
    ensures
        abs_fold(s, Seq::empty(), 0) == s,
        abs_fold(s, seq![x], 0) == abs_step(s, x),
{
    assert(abs_fold(abs_step(s, x), seq![x], 1) == abs_step(s, x));
}

/// Folding a concatenation from index `a.len() + j` is folding `b` from `j`.
proof fn lemma_abs_fold_shift(
    s: (nat, nat),
    a: Seq<Option<(Seq<u32>, Seq<u32>)>>,
    b: Seq<Option<(Seq<u32>, Seq<u32>)>>,
    j: nat,
)
    ensures
        abs_fold(s, a + b, a.len() + j) == abs_fold(s, b, j),
    decreases b.len() - j,
{
    if j < b.len() {
        assert((a + b)[(a.len() + j) as int] == b[j as int]);
        lemma_abs_fold_shift(abs_step(s, b[j as int]), a, b, j + 1);
    }
}

/// Folding a concatenation folds the first part, then the second.
pub proof fn lemma_abs_fold_concat(
    s: (nat, nat),
    a: Seq<Option<(Seq<u32>, Seq<u32>)>>,
    b: Seq<Option<(Seq<u32>, Seq<u32>)>>,
    k: nat,
)
    requires
        k <= a.len(),
    ensures
        abs_fold(s, a + b, k) == abs_fold(abs_fold(s, a, k), b, 0),
    decreases a.len() - k,
{
    if k < a.len() {
        assert((a + b)[k as int] == a[k as int]);
        lemma_abs_fold_concat(abs_step(s, a[k as int]), a, b, k + 1);
    } else {
        lemma_abs_fold_shift(s, a, b, 0);
    }
}

/// A four-bit digit is at most 15.
pub proof fn lemma_nibble_bound(s: Seq<u32>, n: int)
    ensures
        nibble(s, n) <= 15,
{
    let w = s[n / 8];
    let sh = (4 * (n % 8)) as u32;
    assert((w >> sh) & 0xfu32 <= 15) by (bit_vector);
}

/// Every step of the first `n` windows satisfies `pred` when every step of
/// every window does.
pub proof fn lemma_windows_all(
    w: spec_fn(int) -> Seq<Option<(Seq<u32>, Seq<u32>)>>,
    pred: spec_fn(Option<(Seq<u32>, Seq<u32>)>) -> bool,
    n: nat,
)
    requires
        forall|p: int, j: int| 0 <= p < n && 0 <= j < w(p).len() ==> pred(#[trigger] w(p)[j]),
    ensures
        forall|i: int| 0 <= i < windows(w, n).len() ==> pred(#[trigger] windows(w, n)[i]),
    decreases n,
{
    if n > 0 {
        lemma_windows_all(w, pred, (n - 1) as nat);
        let a = windows(w, (n - 1) as nat);
        let b = w(n - 1);
        assert(windows(w, n) == a + b);
        assert forall|i: int| 0 <= i < windows(w, n).len() implies pred(#[trigger] windows(w, n)[i]) by {
            if i >= a.len() {
                assert(windows(w, n)[i] == b[i - a.len()]);
            } else {
                assert(windows(w, n)[i] == a[i]);
            }
        }
    }
}

/// `16^n`.
pub open spec fn pow16(n: nat) -> nat
    decreases n,
{
    if n == 0 {
        1
    } else {
        16 * pow16((n - 1) as nat)
    }
}

proof fn lemma_pow16_add(a: nat, b: nat)
    ensures
        pow16(a + b) == pow16(a) * pow16(b),
    decreases b,
{
    if b > 0 {
        lemma_pow16_add(a, (b - 1) as nat);
        let x = pow16(a);
        let y = pow16((b - 1) as nat);
        assert(16 * (x * y) == x * (16 * y)) by (nonlinear_arith);
        assert(pow16(b) == 16 * y);
        assert((a + b - 1) as nat == a + (b - 1) as nat);
        assert(pow16((a + (b - 1)) as nat) == x * y);
        assert(pow16(a + b) == 16 * pow16((a + b - 1) as nat));
        assert(pow16(a + b) == x * pow16(b));
    } else {
        assert(pow16(0) == 1);
        assert(pow16(a) * 1 == pow16(a));
    }
}

proof fn lemma_pow16_radix(i: nat)
    ensures
        pow16(8 * i) == radix_pow(i),
    decreases i,
{
    if i > 0 {
        lemma_pow16_radix((i - 1) as nat);
        lemma_pow16_add(8, (8 * (i - 1)) as nat);
        assert(pow16(8) == radix()) by {
            reveal_with_fuel(pow16, 9);
        }
        assert(8 * i == 8 + 8 * (i - 1));
        assert(radix_pow(i) == radix() * radix_pow((i - 1) as nat));
        assert(pow16(8 * i) == pow16(8) * pow16((8 * (i - 1)) as nat));
    }
}

/// The digits `0..n` of a scalar, least significant first, weighed:
/// `sum of nibble(s, m) * 16^m for m < n`.
pub open spec fn nib_sum(s: Seq<u32>, n: nat) -> nat
    decreases n,
{
    if n == 0 {
        0
    } else {
        nib_sum(s, (n - 1) as nat) + (nibble(s, n - 1) as nat) * pow16((n - 1) as nat)
    }
}

/// The `p` most significant digits of a scalar, read as a number:
/// `top(s, p + 1) = 16 top(s, p) + nibble(s, 63 - p)`.
pub open spec fn top(s: Seq<u32>, p: nat) -> nat
    decreases p,
{
    if p == 0 {
        0
    } else {
        16 * top(s, (p - 1) as nat) + (nibble(s, 63 - (p - 1)) as nat)
    }
}

/// A limb is the sum of its eight digits.
proof fn lemma_limb_digits(w: u32)
    ensures
        w == ((w >> 0u32) & 0xf) + ((w >> 4u32) & 0xf) * 16 + ((w >> 8u32) & 0xf) * 0x100 + ((w >> 12u32) & 0xf)
            * 0x1000 + ((w >> 16u32) & 0xf) * 0x10000 + ((w >> 20u32) & 0xf) * 0x100000 + ((w
            >> 24u32) & 0xf) * 0x1000000 + ((w >> 28u32) & 0xf) * 0x10000000,
{
    assert(w == ((w >> 0u32) & 0xf) + ((w >> 4u32) & 0xf) * 16 + ((w >> 8u32) & 0xf) * 0x100 + ((w >> 12u32)
        & 0xf) * 0x1000 + ((w >> 16u32) & 0xf) * 0x10000 + ((w >> 20u32) & 0xf) * 0x100000 + ((w
        >> 24u32) & 0xf) * 0x1000000 + ((w >> 28u32) & 0xf) * 0x10000000) by (bit_vector);
}

/// One digit of limb `i`, weighed.
proof fn lemma_nib_sum_digit(s: Seq<u32>, i: nat, j: nat)
    requires
        i < s.len(),
        j < 8,
    ensures
        nib_sum(s, 8 * i + j + 1) == nib_sum(s, 8 * i + j) + ((s[i as int] >> ((4 * j) as u32))
            & 0xfu32) * (radix_pow(i) * pow16(j)),
{
    let b = 8 * i;
    assert((b + j) / 8 == i && (b + j) % 8 == j) by (nonlinear_arith)
        requires
            b == 8 * i,
            j < 8,
    ;
    lemma_pow16_add(b, j);
    lemma_pow16_radix(i);
    assert(nib_sum(s, b + j + 1) == nib_sum(s, b + j) + (nibble(s, (b + j) as int) as nat) * pow16(
        b + j,
    ));
}

/// `n (r c) = r (n c)`.
proof fn lemma_scale_term(n: int, r: int, c: int)
    ensures
        n * (r * c) == r * (n * c),
{
    assert(n * (r * c) == r * (n * c)) by (nonlinear_arith);
}

/// The digits of limb `i` add up to the limb times its weight.
proof fn lemma_nib_sum_limb(s: Seq<u32>, i: nat)
    requires
        i < s.len(),
    ensures
        nib_sum(s, 8 * i + 8) == nib_sum(s, 8 * i) + (s[i as int] as nat) * radix_pow(i),
{
    let w = s[i as int];
    let r = radix_pow(i) as int;
    lemma_limb_digits(w);
    let b = 8 * i;
    lemma_nib_sum_digit(s, i, 0);
    lemma_nib_sum_digit(s, i, 1);
    lemma_nib_sum_digit(s, i, 2);
    lemma_nib_sum_digit(s, i, 3);
    lemma_nib_sum_digit(s, i, 4);
    lemma_nib_sum_digit(s, i, 5);
    lemma_nib_sum_digit(s, i, 6);
    lemma_nib_sum_digit(s, i, 7);
    reveal_with_fuel(pow16, 8);
    let n0 = ((w >> 0u32) & 0xf) as int;
    let n1 = ((w >> 4u32) & 0xf) as int;
    let n2 = ((w >> 8u32) & 0xf) as int;
    let n3 = ((w >> 12u32) & 0xf) as int;
    let n4 = ((w >> 16u32) & 0xf) as int;
    let n5 = ((w >> 20u32) & 0xf) as int;
    let n6 = ((w >> 24u32) & 0xf) as int;
    let n7 = ((w >> 28u32) & 0xf) as int;
    lemma_scale_term(n0, r, 1);
    lemma_scale_term(n1, r, 16);
    lemma_scale_term(n2, r, 0x100);
    lemma_scale_term(n3, r, 0x1000);
    lemma_scale_term(n4, r, 0x10000);
    lemma_scale_term(n5, r, 0x100000);
    lemma_scale_term(n6, r, 0x1000000);
    lemma_scale_term(n7, r, 0x10000000);
    let t0 = n0 * 1;
    let t1 = n1 * 16;
    let t2 = n2 * 0x100;
    let t3 = n3 * 0x1000;
    let t4 = n4 * 0x10000;
    let t5 = n5 * 0x100000;
    let t6 = n6 * 0x1000000;
    let t7 = n7 * 0x10000000;
    assert(w as int == t0 + t1 + t2 + t3 + t4 + t5 + t6 + t7);
    vstd::arithmetic::mul::lemma_mul_is_distributive_add(r, t0 + t1 + t2 + t3 + t4 + t5 + t6, t7);
    vstd::arithmetic::mul::lemma_mul_is_distributive_add(r, t0 + t1 + t2 + t3 + t4 + t5, t6);
    vstd::arithmetic::mul::lemma_mul_is_distributive_add(r, t0 + t1 + t2 + t3 + t4, t5);
    vstd::arithmetic::mul::lemma_mul_is_distributive_add(r, t0 + t1 + t2 + t3, t4);
    vstd::arithmetic::mul::lemma_mul_is_distributive_add(r, t0 + t1 + t2, t3);
    vstd::arithmetic::mul::lemma_mul_is_distributive_add(r, t0 + t1, t2);
    vstd::arithmetic::mul::lemma_mul_is_distributive_add(r, t0, t1);
    vstd::arithmetic::mul::lemma_mul_is_commutative(r, w as int);
}

/// The digits of the first `i` limbs add up to their value.
proof fn lemma_nib_sum_take(s: Seq<u32>, i: nat)
    requires
        i <= s.len(),
    ensures
        nib_sum(s, 8 * i) == limbs_val(s.take(i as int)),
    decreases i,
{
    if i == 0 {
        assert(s.take(0) =~= Seq::<u32>::empty());
        assert(limbs_val(Seq::<u32>::empty()) == 0);
    } else {
        lemma_nib_sum_take(s, (i - 1) as nat);
        lemma_nib_sum_limb(s, (i - 1) as nat);
        lemma_limbs_val_take_step(s, i - 1);
        assert(8 * i == 8 * (i - 1) + 8);
    }
}

/// Reading the digits, most significant first, gives the value of the
/// scalar.
pub proof fn lemma_scalar_digits(s: Seq<u32>)
    requires
        s.len() == 8,
    ensures
        nib_sum(s, 64) == limbs_val(s),
        top(s, 64) == limbs_val(s),
{
    lemma_nib_sum_take(s, 8);
    lemma_limbs_val_take_all(s);
    lemma_top(s, 64);
    assert(pow16(0) == 1);
    assert(nib_sum(s, 0) == 0);
    assert(top(s, 64) * 1 == top(s, 64));
}

proof fn lemma_top(s: Seq<u32>, p: nat)
    requires
        p <= 64,
    ensures
        top(s, p) * pow16((64 - p) as nat) + nib_sum(s, (64 - p) as nat) == nib_sum(s, 64),
    decreases p,
{
    if p > 0 {
        lemma_top(s, (p - 1) as nat);
        let e = (64 - p) as nat;
        let t = top(s, (p - 1) as nat);
        let d = nibble(s, 63 - (p - 1)) as int;
        let pe = pow16(e);
        assert(63 - (p - 1) == e);
        assert((64 - (p - 1)) as nat == e + 1);
        assert(pow16(e + 1) == 16 * pe);
        assert(nib_sum(s, e + 1) == nib_sum(s, e) + d * pe);
        assert((16 * t + d) * pe == t * (16 * pe) + d * pe) by (nonlinear_arith);
        assert(top(s, p) == 16 * t + d);
        assert(t * pow16(e + 1) + nib_sum(s, e + 1) == nib_sum(s, 64));
        assert(top(s, p) * pe + nib_sum(s, e) == nib_sum(s, 64));
    } else {
        assert(top(s, 0) == 0);
        assert(0 * pow16(64) == 0);
    }
}

/// The identity's limbs stand for the identity.
pub proof fn lemma_identity_limbs()
    ensures
        abs_point(identity_limbs()) == identity_pt(),
        limbs_val(identity_limbs().0) == 0,
        limbs_val(identity_limbs().1) == 1,
{
    let (x, y) = identity_limbs();
    assert forall|k: int| 0 <= k < x.len() implies x[k] == 0 by {}
    lemma_limbs_val_zero_tail(x, 0);
    assert(x.take(0) =~= Seq::<u32>::empty());
    assert(limbs_val(Seq::<u32>::empty()) == 0);
    assert forall|k: int| 1 <= k < y.len() implies y[k] == 0 by {}
    assert(y[0] == 1);
    lemma_limbs_val_zero_tail(y, 1);
    lemma_limbs_val_take_step(y, 0);
    assert(y.take(0) =~= Seq::<u32>::empty());
    assert(radix_pow(0) == 1);
    lemma_limbs_val_take_step(x, 0);
    assert(x.take(1).take(0) =~= x.take(0));
    lemma_constants();
    assert(limbs_val(x) == 0);
    assert(limbs_val(y.take(0)) == 0);
    assert(limbs_val(y.take(1)) == 1);
    assert(limbs_val(y) == 1);
    vstd::arithmetic::div_mod::lemma_small_mod(1, q());
}

/// The combination of no multiples is the identity.
pub proof fn lemma_combo_zero(p: (nat, nat), r: (nat, nat))
    requires
        is_point(p),
        is_point(r),
    ensures
        combo(0, p, 0, r) == identity_pt(),
{
    law_identity(identity_pt());
}

} // verus!
