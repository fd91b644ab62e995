//! The points of ed25519 as a group, and scalar multiples of a point.
//!
//! The addition law is written over field values with an abstract
//! inverse. That it is commutative is proved here. That `q` is prime, and
//! that the law is complete, closed and associative on the curve, are
//! classical facts that Verus does not derive here: the laws that need them
//! take them as hypotheses, each named, together `curve_group_facts()`.
use vstd::prelude::*;
use crate::eddsa::{edwards_sum_defined, edwards_t, lemma_div_by_inverse};
use crate::field::{coeff_d, lemma_add_congr, lemma_constants, lemma_mod_mod, lemma_mul_congr, q};
use crate::limbs::{lemma_limbs_val_injective, lemma_limbs_val_parity, limbs_val};
use crate::hinter::DecompressionHint;
use crate::structs::{
    CompressedEdwardsY, add_hint_holds, compressed_y_limbs, decompression_accepts, decompression_holds,
    law_add_hint_unique,
};
use crate::table_generation::on_curve;

verus! {

/// A reduced point on the curve.
pub open spec fn is_point(p: (nat, nat)) -> bool {
    p.0 < q() && p.1 < q() && on_curve(p.0, p.1)
}

/// The identity `(0, 1)`.
pub open spec fn identity_pt() -> (nat, nat) {
    (0, 1)
}

/// Whether `a` has an inverse modulo `q`.
pub open spec fn has_inverse(a: nat) -> bool {
    exists|i: nat| i < q() && #[trigger] ((a * i) % q()) == 1
}

/// An inverse of `a` modulo `q`, where there is one.
pub open spec fn finv(a: nat) -> nat {
    choose|i: nat| i < q() && #[trigger] ((a * i) % q()) == 1
}

/// The sum of two points by the twisted Edwards addition law:
/// `((x1 y2 + x2 y1) / (1 + t), (y1 y2 + x1 x2) / (1 - t))` with
/// `t = d x1 x2 y1 y2`.
pub open spec fn pt_add(p: (nat, nat), r: (nat, nat)) -> (nat, nat) {
    let t = edwards_t(p.0, p.1, r.0, r.1);
    (
        ((p.0 * r.1 + r.0 * p.1) * finv((1 + t) % q())) % q(),
        ((p.1 * r.1 + p.0 * r.0) * finv(((1 - t) % (q() as int)) as nat)) % q(),
    )
}

/// `k` times the point `p`: `p` added `k` times to the identity.
pub open spec fn smul(k: nat, p: (nat, nat)) -> (nat, nat)
    decreases k,
{
    if k == 0 {
        identity_pt()
    } else {
        pt_add(smul((k - 1) as nat, p), p)
    }
}

/// `a * p + b * r`.
pub open spec fn combo(a: nat, p: (nat, nat), b: nat, r: (nat, nat)) -> (nat, nat) {
    pt_add(smul(a, p), smul(b, r))
}

/// Every nonzero residue modulo `q` has an inverse: `q` is prime.
#[verifier::opaque]
pub open spec fn q_is_prime() -> bool {
    forall|a: nat| 0 < a < q() ==> #[trigger] has_inverse(a)
}

/// The addition law is complete on the curve: its denominators `1 + t`
/// and `1 - t` never vanish for two points, since `d` is not a square.
#[verifier::opaque]
pub open spec fn addition_complete() -> bool {
    forall|p: (nat, nat), r: (nat, nat)|
        is_point(p) && is_point(r) ==> #[trigger] edwards_sum_defined(p.0, p.1, r.0, r.1)
}

/// The addition law keeps points on the curve.
#[verifier::opaque]
pub open spec fn addition_closed() -> bool {
    forall|p: (nat, nat), r: (nat, nat)|
        is_point(p) && is_point(r) ==> is_point(#[trigger] pt_add(p, r))
}

/// The addition law is associative on the curve.
#[verifier::opaque]
pub open spec fn addition_associative() -> bool {
    forall|p: (nat, nat), r: (nat, nat), s: (nat, nat)|
        is_point(p) && is_point(r) && is_point(s) ==> #[trigger] pt_add(pt_add(p, r), s) == pt_add(
            p,
            pt_add(r, s),
        )
}

/// The classical facts about ed25519 that the scalar-multiplication laws
/// rest on and that are not proved here: `q` is prime, and the addition
/// law is complete, closed and associative on the curve. (That it is
/// commutative is proved: `law_add_commutative`.)
pub open spec fn curve_group_facts() -> bool {
    &&& q_is_prime()
    &&& addition_complete()
    &&& addition_closed()
    &&& addition_associative()
}

/// The addition law is commutative, on any two pairs.
pub proof fn law_add_commutative(p: (nat, nat), r: (nat, nat))
    ensures
        pt_add(p, r) == pt_add(r, p),
{
    let (x1, y1, x2, y2) = (p.0, p.1, r.0, r.1);
    assert(coeff_d() * (x1 * x2) * (y1 * y2) == coeff_d() * (x2 * x1) * (y2 * y1)) by (nonlinear_arith);
    assert(edwards_t(x1, y1, x2, y2) == edwards_t(x2, y2, x1, y1));
    assert(x1 * y2 + x2 * y1 == x2 * y1 + x1 * y2);
    assert(y1 * y2 + x1 * x2 == y2 * y1 + x2 * x1) by (nonlinear_arith);
}

/// Under `q_is_prime()`, a nonzero residue has the inverse `finv(a)`.
pub proof fn lemma_facts_inverse(a: nat)
    requires
        q_is_prime(),
        0 < a < q(),
    ensures
        finv(a) < q(),
        (a * finv(a)) % q() == 1,
{
    reveal(q_is_prime);
    assert(has_inverse(a));
}

/// Under the facts, the sum of two points is defined, a point, and does
/// not depend on the order.
pub proof fn lemma_facts_sum(p: (nat, nat), r: (nat, nat))
    requires
        curve_group_facts(),
        is_point(p),
        is_point(r),
    ensures
        edwards_sum_defined(p.0, p.1, r.0, r.1),
        is_point(pt_add(p, r)),
        pt_add(p, r) == pt_add(r, p),
{
    reveal(addition_complete);
    reveal(addition_closed);
    assert(edwards_sum_defined(p.0, p.1, r.0, r.1));
    assert(is_point(pt_add(p, r)));
    law_add_commutative(p, r);
}

/// Under the facts, the sum of three points can be grouped either way.
pub proof fn lemma_facts_assoc(p: (nat, nat), r: (nat, nat), s: (nat, nat))
    requires
        curve_group_facts(),
        is_point(p),
        is_point(r),
        is_point(s),
    ensures
        pt_add(pt_add(p, r), s) == pt_add(p, pt_add(r, s)),
{
    reveal(addition_associative);
    assert(pt_add(pt_add(p, r), s) == pt_add(p, pt_add(r, s)));
}

/// A reduced inverse is the only one: it is `finv(a)`.
pub proof fn lemma_finv_unique(a: nat, i: nat)
    requires
        i < q(),
        (a * i) % q() == 1,
    ensures
        finv(a) == i,
{
    lemma_constants();
    let m = q() as int;
    assert(has_inverse(a));
    let j = finv(a);
    assert(j < q() && (a * j) % q() == 1);
    // i = i (a j) = (a i) j = j modulo q
    vstd::arithmetic::div_mod::lemma_small_mod(1, q());
    lemma_mul_congr(i as int, (a * j) as int, i as int, 1, m);
    lemma_mul_congr((a * i) as int, j as int, 1, j as int, m);
    assert(i * (a * j) == (a * i) * j) by (nonlinear_arith);
    vstd::arithmetic::div_mod::lemma_small_mod(i, q());
    vstd::arithmetic::div_mod::lemma_small_mod(j, q());
}

/// The only inverse of one below `q` is one.
proof fn lemma_finv_one()
    ensures
        finv(1) == 1,
{
    lemma_constants();
    vstd::arithmetic::div_mod::lemma_small_mod(1, q());
    assert((1 * 1nat) % q() == 1);
    let i = finv(1);
    assert(i < q() && (1 * i) % q() == 1);
    vstd::arithmetic::div_mod::lemma_small_mod(i, q());
}

/// `(0, 1)` is a point of the curve.
pub proof fn lemma_identity_is_point()
    ensures
        is_point(identity_pt()),
{
    lemma_constants();
    assert(coeff_d() * (0nat * 0nat) * (1nat * 1nat) == 0) by (nonlinear_arith);
    assert(1nat * 1nat - 0nat * 0nat == 1) by (nonlinear_arith);
    vstd::arithmetic::div_mod::lemma_small_mod(1, q());
    assert(on_curve(0, 1));
}

/// `(0, 1)` is a point and adding it changes nothing.
pub proof fn law_identity(p: (nat, nat))
    requires
        is_point(p),
    ensures
        is_point(identity_pt()),
        pt_add(p, identity_pt()) == p,
        pt_add(identity_pt(), p) == p,
{
    lemma_constants();
    lemma_finv_one();
    let d = coeff_d();
    let (x, y) = (p.0, p.1);
    assert(d * (x * 0) * (y * 1) == 0 && d * (0 * x) * (1 * y) == 0) by (nonlinear_arith);
    assert(edwards_t(p.0, p.1, 0, 1) == 0);
    assert(edwards_t(0, 1, p.0, p.1) == 0);
    vstd::arithmetic::div_mod::lemma_small_mod(1, q());
    vstd::arithmetic::div_mod::lemma_small_mod(p.0, q());
    vstd::arithmetic::div_mod::lemma_small_mod(p.1, q());
    assert(((1 - 0int) % (q() as int)) == 1);
    lemma_identity_is_point();
}

/// Multiples of a point are points.
pub proof fn lemma_smul_point(k: nat, p: (nat, nat))
    requires
        curve_group_facts(),
        is_point(p),
    ensures
        is_point(smul(k, p)),
    decreases k,
{
    law_identity(p);
    if k > 0 {
        lemma_smul_point((k - 1) as nat, p);
        lemma_facts_sum(smul((k - 1) as nat, p), p);
    }
}

/// `a p + b p = (a + b) p`.
pub proof fn lemma_smul_add(a: nat, b: nat, p: (nat, nat))
    requires
        curve_group_facts(),
        is_point(p),
    ensures
        pt_add(smul(a, p), smul(b, p)) == smul(a + b, p),
    decreases b,
{
    lemma_smul_point(a, p);
    if b == 0 {
        law_identity(smul(a, p));
    } else {
        let b1 = (b - 1) as nat;
        lemma_smul_add(a, b1, p);
        lemma_smul_point(b1, p);
        lemma_facts_assoc(smul(a, p), smul(b1, p), p);
        assert(smul(a + b, p) == pt_add(smul((a + b1) as nat, p), p));
    }
}

/// `(u + v) + w = (u + w) + v`.
proof fn lemma_swap_last(u: (nat, nat), v: (nat, nat), w: (nat, nat))
    requires
        curve_group_facts(),
        is_point(u),
        is_point(v),
        is_point(w),
    ensures
        pt_add(pt_add(u, v), w) == pt_add(pt_add(u, w), v),
{
    lemma_facts_assoc(u, v, w);
    lemma_facts_sum(v, w);
    lemma_facts_assoc(u, w, v);
}

/// Doubling `a p + b r` gives `2a p + 2b r`.
pub proof fn lemma_combo_double(a: nat, p: (nat, nat), b: nat, r: (nat, nat))
    requires
        curve_group_facts(),
        is_point(p),
        is_point(r),
    ensures
        pt_add(combo(a, p, b, r), combo(a, p, b, r)) == combo(2 * a, p, 2 * b, r),
{
    let u = smul(a, p);
    let v = smul(b, r);
    lemma_smul_point(a, p);
    lemma_smul_point(b, r);
    lemma_facts_sum(u, v);
    // (u + v) + (u + v) = ((u + v) + u) + v = ((u + u) + v) + v = (u + u) + (v + v)
    lemma_facts_assoc(pt_add(u, v), u, v);
    lemma_swap_last(u, v, u);
    lemma_facts_sum(u, u);
    lemma_facts_assoc(pt_add(u, u), v, v);
    lemma_smul_add(a, a, p);
    lemma_smul_add(b, b, r);
}

/// Adding `k p` to `a p + b r` gives `(a + k) p + b r`.
pub proof fn lemma_combo_add_first(a: nat, p: (nat, nat), b: nat, r: (nat, nat), k: nat)
    requires
        curve_group_facts(),
        is_point(p),
        is_point(r),
    ensures
        pt_add(combo(a, p, b, r), smul(k, p)) == combo(a + k, p, b, r),
{
    lemma_smul_point(a, p);
    lemma_smul_point(b, r);
    lemma_smul_point(k, p);
    lemma_swap_last(smul(a, p), smul(b, r), smul(k, p));
    lemma_smul_add(a, k, p);
}

/// Adding `k r` to `a p + b r` gives `a p + (b + k) r`.
pub proof fn lemma_combo_add_second(a: nat, p: (nat, nat), b: nat, r: (nat, nat), k: nat)
    requires
        curve_group_facts(),
        is_point(p),
        is_point(r),
    ensures
        pt_add(combo(a, p, b, r), smul(k, r)) == combo(a, p, b + k, r),
{
    lemma_smul_point(a, p);
    lemma_smul_point(b, r);
    lemma_smul_point(k, r);
    lemma_facts_assoc(smul(a, p), smul(b, r), smul(k, r));
    lemma_smul_add(b, k, r);
}

/// The addition check depends on the coordinates of the two summands and
/// on the `x` of the hint only modulo `q`.
proof fn lemma_add_hint_reduce(x1: nat, y1: nat, x2: nat, y2: nat, x3: nat, y3: nat)
    requires
        add_hint_holds(x1, y1, x2, y2, x3, y3),
    ensures
        add_hint_holds(x1 % q(), y1 % q(), x2 % q(), y2 % q(), x3 % q(), y3),
{
    let m = q() as int;
    lemma_constants();
    let (a1, b1, a2, b2, a3) = (x1 % q(), y1 % q(), x2 % q(), y2 % q(), x3 % q());
    lemma_mod_mod(x1 as int, m);
    lemma_mod_mod(y1 as int, m);
    lemma_mod_mod(x2 as int, m);
    lemma_mod_mod(y2 as int, m);
    lemma_mod_mod(x3 as int, m);
    let t: int = (coeff_d() * (x1 * x2) * (y1 * y2)) as int;
    let tr: int = (coeff_d() * (a1 * a2) * (b1 * b2)) as int;
    lemma_mul_congr(a1 as int, a2 as int, x1 as int, x2 as int, m);
    lemma_mul_congr(b1 as int, b2 as int, y1 as int, y2 as int, m);
    lemma_mul_congr(coeff_d() as int, (a1 * a2) as int, coeff_d() as int, (x1 * x2) as int, m);
    lemma_mul_congr(
        (coeff_d() * (a1 * a2)) as int,
        (b1 * b2) as int,
        (coeff_d() * (x1 * x2)) as int,
        (y1 * y2) as int,
        m,
    );
    assert(tr % m == t % m);
    lemma_add_congr(1, tr, 1, t, m);
    lemma_mul_congr(a3 as int, 1 + tr, x3 as int, 1 + t, m);
    lemma_mul_congr(a1 as int, b2 as int, x1 as int, y2 as int, m);
    lemma_mul_congr(a2 as int, b1 as int, x2 as int, y1 as int, m);
    lemma_add_congr(
        (a1 * b2) as int,
        (a2 * b1) as int,
        (x1 * y2) as int,
        (x2 * y1) as int,
        m,
    );
    lemma_mul_congr(tr, y3 as int, t, y3 as int, m);
    lemma_add_congr((a1 * a2) as int, (b1 * b2) as int, (x1 * x2) as int, (y1 * y2) as int, m);
    lemma_add_congr(
        (a1 * a2 + b1 * b2) as int,
        tr * y3,
        (x1 * x2 + y1 * y2) as int,
        t * y3,
        m,
    );
}

/// The addition check accepts the sum by the addition law, for any two
/// points (with `lemma_hint_is_sum`: it accepts exactly that sum).
pub proof fn lemma_pt_add_holds(p: (nat, nat), r: (nat, nat))
    requires
        curve_group_facts(),
        is_point(p),
        is_point(r),
    ensures
        add_hint_holds(p.0, p.1, r.0, r.1, pt_add(p, r).0, pt_add(p, r).1),
        (((1 + coeff_d() * (p.0 * r.0) * (p.1 * r.1)) * finv(
            (1 + edwards_t(p.0, p.1, r.0, r.1)) % q(),
        )) as int) % (q() as int) == 1,
        ((1 - coeff_d() * (p.0 * r.0) * (p.1 * r.1)) * finv(
            ((1 - edwards_t(p.0, p.1, r.0, r.1)) % (q() as int)) as nat,
        )) % (q() as int) == 1,
{
    let m = q() as int;
    lemma_constants();
    lemma_facts_sum(p, r);
    let (x1, y1, x2, y2) = (p.0, p.1, r.0, r.1);
    let tt: int = (coeff_d() * (x1 * x2) * (y1 * y2)) as int;
    let t = edwards_t(x1, y1, x2, y2);
    let dp = (1 + t) % q();
    let dm = ((1 - t) % m) as nat;
    lemma_facts_inverse(dp);
    lemma_facts_inverse(dm);
    let ix = finv(dp);
    let iy = finv(dm);
    lemma_mod_mod(tt, m);
    lemma_add_congr(1, t as int, 1, tt, m);
    vstd::arithmetic::div_mod::lemma_sub_mod_noop(1, tt, m);
    vstd::arithmetic::div_mod::lemma_small_mod(1, q());
    // the two inverses, against the unreduced denominators
    lemma_mod_mod(1 + tt, m);
    lemma_mul_congr(1 + tt, ix as int, dp as int, ix as int, m);
    lemma_mod_mod(1 - tt, m);
    lemma_mul_congr(1 - tt, iy as int, dm as int, iy as int, m);
    let s = pt_add(p, r);
    // x (1 + t) = x1 y2 + x2 y1
    lemma_div_by_inverse((x1 * y2 + x2 * y1) as int, ix as int, 1 + tt, s.0 as int, m);
    // y (1 - t) = y1 y2 + x1 x2, so y = x1 x2 + y1 y2 + t y
    let yv = s.1 as int;
    lemma_div_by_inverse((y1 * y2 + x1 * x2) as int, iy as int, 1 - tt, yv, m);
    assert(yv == yv * (1 - tt) + tt * yv) by (nonlinear_arith);
    lemma_mod_mod(yv * (1 - tt), m);
    lemma_mod_mod(tt * yv, m);
    lemma_add_congr(yv * (1 - tt), tt * yv, (y1 * y2 + x1 * x2) as int, tt * yv, m);
    vstd::arithmetic::div_mod::lemma_small_mod(s.1, q());
}

/// A hint that the addition check accepts is the sum: its `x` modulo `q`
/// and its `y` are those of the sum by the addition law, when the two
/// summands are points (given by any representatives of their coordinates).
pub proof fn lemma_hint_is_sum(
    x1: nat,
    y1: nat,
    x2: nat,
    y2: nat,
    x3: nat,
    y3: nat,
    p: (nat, nat),
    r: (nat, nat),
)
    requires
        curve_group_facts(),
        is_point(p),
        is_point(r),
        x1 % q() == p.0,
        y1 % q() == p.1,
        x2 % q() == r.0,
        y2 % q() == r.1,
        add_hint_holds(x1, y1, x2, y2, x3, y3),
    ensures
        x3 % q() == pt_add(p, r).0,
        y3 == pt_add(p, r).1,
{
    lemma_add_hint_reduce(x1, y1, x2, y2, x3, y3);
    lemma_pt_add_holds(p, r);
    let s = pt_add(p, r);
    let t = edwards_t(p.0, p.1, r.0, r.1);
    law_add_hint_unique(
        p.0,
        p.1,
        r.0,
        r.1,
        x3 % q(),
        y3,
        s.0,
        s.1,
        finv((1 + t) % q()) as int,
        finv(((1 - t) % (q() as int)) as nat) as int,
    );
    lemma_constants();
    lemma_mod_mod(x3 as int, q() as int);
    vstd::arithmetic::div_mod::lemma_small_mod(s.0, q());
}

/// The decompression check says `d x^2 y^2 + 1 = 0` modulo `q`.
proof fn lemma_decompression_zero(x: nat, y: nat)
    requires
        decompression_holds(x, y),
    ensures
        (((coeff_d() * (y * y)) * (x * x) + 1) as int) % (q() as int) == 0,
{
    lemma_constants();
    let m = q() as int;
    let a = (x * x) as int;
    let b = (coeff_d() * (x * x) * (y * y)) as int;
    vstd::arithmetic::div_mod::lemma_sub_mod_noop(b + 1 + a, a, m);
    assert((b + 1 + a) - a == b + 1);
    assert(b == (coeff_d() * (y * y)) * (x * x)) by (nonlinear_arith)
        requires
            b == (coeff_d() * (x * x) * (y * y)) as int,
    ;
}

/// If `k a^2 + 1 = m ma` and `k b^2 + 1 = m mb`, then
/// `(b - a)(a + b) = m (b^2 ma - a^2 mb)`.
proof fn lemma_diff_of_squares(a: int, b: int, k: int, m: int, ma: int, mb: int)
    requires
        k * (a * a) + 1 == m * ma,
        k * (b * b) + 1 == m * mb,
    ensures
        (b - a) * (a + b) == m * ((b * b) * ma - (a * a) * mb),
{
    let ea = k * (a * a) + 1;
    let eb = k * (b * b) + 1;
    assert((b * b) * ea - (a * a) * eb == b * b - a * a) by (nonlinear_arith)
        requires
            ea == k * (a * a) + 1,
            eb == k * (b * b) + 1,
    ;
    assert((b * b) * (m * ma) - (a * a) * (m * mb) == m * ((b * b) * ma - (a * a) * mb))
        by (nonlinear_arith);
    assert((b - a) * (a + b) == b * b - a * a) by (nonlinear_arith);
}

/// A multiple of `q` strictly between `-q` and `q` is zero.
proof fn lemma_small_multiple(z: int, k: int)
    requires
        q() > 0,
        z == q() * k,
        -(q() as int) < z < q(),
    ensures
        z == 0,
{
    if k >= 1 {
        assert(q() * k >= q()) by (nonlinear_arith)
            requires
                k >= 1,
                q() > 0,
        ;
    } else if k <= -1 {
        assert(q() * k <= -(q() as int)) by (nonlinear_arith)
            requires
                k <= -1,
                q() > 0,
        ;
    }
}

/// At most one reduced `x` is accepted for a compressed point: the two
/// roots of `x^2` are `x` and `q - x`, of opposite parity, and the sign bit
/// picks one.
pub proof fn law_decompression_unique(c: CompressedEdwardsY, h1: DecompressionHint, h2: DecompressionHint)
    requires
        q_is_prime(),
        limbs_val(h1.x@) < q(),
        limbs_val(h2.x@) < q(),
        decompression_accepts(c.0, h1.x),
        decompression_accepts(c.0, h2.x),
    ensures
        h1.x@ == h2.x@,
{
    let x1 = h1.x;
    let x2 = h2.x;
    let c = c.0;
    lemma_constants();
    let m = q() as int;
    let a = limbs_val(x1@) as int;
    let b = limbs_val(x2@) as int;
    let y = limbs_val(compressed_y_limbs(c));
    let k = (coeff_d() * (y * y)) as int;
    lemma_decompression_zero(a as nat, y);
    lemma_decompression_zero(b as nat, y);
    let ea = k * (a * a) + 1;
    let eb = k * (b * b) + 1;
    vstd::arithmetic::div_mod::lemma_fundamental_div_mod(ea, m);
    vstd::arithmetic::div_mod::lemma_fundamental_div_mod(eb, m);
    let ma = ea / m;
    let mb = eb / m;
    let big = (b * b) * ma - (a * a) * mb;
    lemma_diff_of_squares(a, b, k, m, ma, mb);
    lemma_limbs_val_parity(x1@);
    lemma_limbs_val_parity(x2@);
    let s = ((a + b) % m) as nat;
    if s == 0 {
        vstd::arithmetic::div_mod::lemma_fundamental_div_mod(a + b, m);
        let j = (a + b) / m;
        assert(0 <= j < 2) by (nonlinear_arith)
            requires
                a + b == m * j,
                0 <= a + b < 2 * m,
                m > 0,
        ;
        if j == 1 {
            assert(a + b == m);
            assert(m % 2 == 1);
            assert(false);
        }
        assert(a == b);
    } else {
        lemma_facts_inverse(s);
        let i = finv(s) as int;
        lemma_mod_mod(a + b, m);
        lemma_mul_congr(a + b, i, s as int, i, m);
        vstd::arithmetic::div_mod::lemma_small_mod(1, q());
        lemma_mul_congr(b - a, (a + b) * i, b - a, 1, m);
        assert((b - a) * ((a + b) * i) == m * (big * i)) by (nonlinear_arith)
            requires
                (b - a) * (a + b) == m * big,
        ;
        vstd::arithmetic::div_mod::lemma_mod_multiples_basic(big * i, m);
        assert((m * (big * i)) % m == 0) by {
            vstd::arithmetic::mul::lemma_mul_is_commutative(m, big * i);
        }
        vstd::arithmetic::div_mod::lemma_fundamental_div_mod(b - a, m);
        lemma_small_multiple(b - a, (b - a) / m);
    }
    lemma_limbs_val_injective(x1@, x2@);
}

} // verus!
