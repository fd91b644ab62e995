//! Little-endian multi-limb integers with `u32` limbs, and the carrying
//! additions on them.
use vstd::prelude::*;

verus! {

/// The radix of one limb.
pub open spec fn radix() -> nat {
    0x1_0000_0000
}

/// `radix()` raised to the power `n`.
pub open spec fn radix_pow(n: nat) -> nat
    decreases n,
{
    if n == 0 {
        1
    } else {
        radix() * radix_pow((n - 1) as nat)
    }
}

/// The number that a little-endian sequence of limbs stands for.
pub open spec fn limbs_val(s: Seq<u32>) -> nat
    decreases s.len(),
{
    if s.len() == 0 {
        0
    } else {
        limbs_val(s.drop_last()) + (s.last() as nat) * radix_pow((s.len() - 1) as nat)
    }
}

pub proof fn lemma_radix_pow_pos(n: nat)
    ensures
        radix_pow(n) > 0,
    decreases n,
{
    if n > 0 {
        lemma_radix_pow_pos((n - 1) as nat);
        assert(radix() * radix_pow((n - 1) as nat) > 0) by (nonlinear_arith)
            requires
                radix_pow((n - 1) as nat) > 0,
                radix() > 0,
        ;
    }
}

/// A value held in `n` limbs is below `radix()^n`.
pub proof fn lemma_limbs_val_bound(s: Seq<u32>)
    ensures
        limbs_val(s) < radix_pow(s.len()),
    decreases s.len(),
{
    if s.len() > 0 {
        let n = (s.len() - 1) as nat;
        lemma_limbs_val_bound(s.drop_last());
        let p = radix_pow(n);
        let v = limbs_val(s.drop_last());
        let l = s.last() as nat;
        assert(v + l * p < radix() * p) by (nonlinear_arith)
            requires
                v < p,
                l < radix(),
        ;
    }
}


/// Appending one limb on top adds that limb times `radix()^i`.
pub proof fn lemma_limbs_val_take_step(s: Seq<u32>, i: int)
    requires
        0 <= i < s.len(),
    ensures
        limbs_val(s.take(i + 1)) == limbs_val(s.take(i)) + (s[i] as nat) * radix_pow(i as nat),
{
    assert(s.take(i + 1).drop_last() =~= s.take(i));
}

/// Taking every limb gives the whole value.
pub proof fn lemma_limbs_val_take_all(s: Seq<u32>)
    ensures
        limbs_val(s.take(s.len() as int)) == limbs_val(s),
{
    assert(s.take(s.len() as int) =~= s);
}

/// One carrying step, scaled by the weight `p` of the limb it fills.
pub proof fn lemma_carry_step(p: nat, r: nat, c2: nat, a: nat, b: nat, c: nat)
    requires
        r + c2 * radix() == a + b + c,
    ensures
        r * p + c2 * (radix() * p) == a * p + b * p + c * p,
{
    assert(r * p + c2 * (radix() * p) == a * p + b * p + c * p) by (nonlinear_arith)
        requires
            r + c2 * radix() == a + b + c,
    ;
}

/// Two limb sequences of one length that stand for the same number are equal.
pub proof fn lemma_limbs_val_injective(a: Seq<u32>, b: Seq<u32>)
    requires
        a.len() == b.len(),
        limbs_val(a) == limbs_val(b),
    ensures
        a == b,
    decreases a.len(),
{
    if a.len() > 0 {
        let n = (a.len() - 1) as nat;
        let p = radix_pow(n);
        lemma_limbs_val_bound(a.drop_last());
        lemma_limbs_val_bound(b.drop_last());
        let va = limbs_val(a.drop_last());
        let vb = limbs_val(b.drop_last());
        let la = a.last() as nat;
        let lb = b.last() as nat;
        assert(la == lb && va == vb) by (nonlinear_arith)
            requires
                va < p,
                vb < p,
                va + la * p == vb + lb * p,
        {
            if la < lb {
                assert(la * p + p <= lb * p);
            } else if lb < la {
                assert(lb * p + p <= la * p);
            }
        }
        lemma_limbs_val_injective(a.drop_last(), b.drop_last());
        assert(a =~= a.drop_last().push(a.last()));
        assert(b =~= b.drop_last().push(b.last()));
    }
}

/// The value of eight limbs, written out.
pub proof fn lemma_limbs8_val(s: [u32; 8])
    ensures
        limbs_val(s@) == s[0] as nat + s[1] as nat * 0x1_0000_0000 + s[2] as nat
            * 0x1_0000_0000_0000_0000 + s[3] as nat * 0x1_0000_0000_0000_0000_0000_0000 + s[4] as nat
            * 0x1_0000_0000_0000_0000_0000_0000_0000_0000 + s[5] as nat
            * 0x1_0000_0000_0000_0000_0000_0000_0000_0000_0000_0000 + s[6] as nat
            * 0x1_0000_0000_0000_0000_0000_0000_0000_0000_0000_0000_0000_0000 + s[7] as nat
            * 0x1_0000_0000_0000_0000_0000_0000_0000_0000_0000_0000_0000_0000_0000_0000,
{
    let q = s@;
    reveal_with_fuel(radix_pow, 8);
    lemma_limbs_val_take_all(q);
    assert(q.take(0) =~= Seq::<u32>::empty());
    assert(limbs_val(Seq::<u32>::empty()) == 0);
    assert(radix_pow(1) == 0x1_0000_0000);
    assert(radix_pow(2) == 0x1_0000_0000_0000_0000);
    assert(radix_pow(3) == 0x1_0000_0000_0000_0000_0000_0000);
    assert(radix_pow(4) == 0x1_0000_0000_0000_0000_0000_0000_0000_0000);
    assert(radix_pow(5) == 0x1_0000_0000_0000_0000_0000_0000_0000_0000_0000_0000);
    assert(radix_pow(6) == 0x1_0000_0000_0000_0000_0000_0000_0000_0000_0000_0000_0000_0000);
    assert(radix_pow(7)
        == 0x1_0000_0000_0000_0000_0000_0000_0000_0000_0000_0000_0000_0000_0000_0000);
    lemma_limbs_val_take_step(q, 0);
    lemma_limbs_val_take_step(q, 1);
    lemma_limbs_val_take_step(q, 2);
    lemma_limbs_val_take_step(q, 3);
    lemma_limbs_val_take_step(q, 4);
    lemma_limbs_val_take_step(q, 5);
    lemma_limbs_val_take_step(q, 6);
    lemma_limbs_val_take_step(q, 7);
}

/// Adds two limbs and an incoming carry; returns `(carry out, low limb)`.
pub fn add32_and_overflow(a: u32, b: u32, carry: u32) -> (res: (u32, u32))
    ensures
        res.0 == (a + b + carry) / 0x1_0000_0000,
        res.1 == (a + b + carry) % 0x1_0000_0000,
{
    let v = (a as u64).wrapping_add(b as u64).wrapping_add(carry as u64);
    assert(v == a + b + carry);
    assert((v >> 32) as u32 == v / 0x1_0000_0000 && (v & 0xffffffff) as u32 == v % 0x1_0000_0000)
        by (bit_vector)
        requires
            v < 0x3_0000_0000u64,
    ;
    ((v >> 32) as u32, (v & 0xffffffff) as u32)
}

/// Adds a carry to one limb; returns `(carry out, low limb)`.
pub fn carry32_and_overflow(a: u32, carry: u32) -> (res: (u32, u32))
    ensures
        res.0 == (a + carry) / 0x1_0000_0000,
        res.1 == (a + carry) % 0x1_0000_0000,
{
    let v = (a as u64) + (carry as u64);
    assert((v >> 32) as u32 == v / 0x1_0000_0000 && (v & 0xffffffff) as u32 == v % 0x1_0000_0000)
        by (bit_vector)
        requires
            v < 0x2_0000_0000u64,
    ;
    ((v >> 32) as u32, (v & 0xffffffff) as u32)
}


/// Adds the `J`-limb number `new` into the `I`-limb accumulator and returns
/// the carry out of its top limb.
pub fn add<const I: usize, const J: usize>(accm: &mut [u32; I], new: &[u32; J]) -> (carry: u32)
    requires
        1 <= J <= I,
    ensures
        limbs_val(final(accm)@) + carry * radix_pow(I as nat) == limbs_val(old(accm)@) + limbs_val(
            new@,
        ),
        carry <= 1,
{
    let ghost a0 = accm@;
    let mut carry: u32 = 0;
    let (c, v) = add32_and_overflow(accm[0], new[0], carry);
    accm[0] = v;
    carry = c;
    proof {
        lemma_limbs_val_take_step(accm@, 0);
        lemma_limbs_val_take_step(a0, 0);
        lemma_limbs_val_take_step(new@, 0);
        assert(radix_pow(1) == radix()) by {
            reveal_with_fuel(radix_pow, 2);
        }
        assert(limbs_val(Seq::<u32>::empty()) == 0);
        assert(radix_pow(0) == 1);
        assert(accm@.take(0) =~= Seq::<u32>::empty());
        assert(a0.take(0) =~= Seq::<u32>::empty());
        assert(new@.take(0) =~= Seq::<u32>::empty());
        assert(v + c * radix() == a0[0] + new@[0]);
        assert(limbs_val(accm@.take(1)) == v);
        assert(limbs_val(a0.take(1)) == a0[0]);
        assert(limbs_val(new@.take(1)) == new@[0]);
    }
    for i in 1..J
        invariant
            1 <= J <= I,
            carry <= 1,
            a0.len() == I,
            limbs_val(accm@.take(i as int)) + carry * radix_pow(i as nat) == limbs_val(
                a0.take(i as int),
            ) + limbs_val(new@.take(i as int)),
            forall|k: int| i <= k < I ==> accm@[k] == a0[k],
    {
        let (c, v) = add32_and_overflow(accm[i], new[i], carry);
        let ghost pre = accm@;
        proof {
            lemma_limbs_val_take_step(a0, i as int);
            lemma_limbs_val_take_step(new@, i as int);
            lemma_carry_step(
                radix_pow(i as nat),
                v as nat,
                c as nat,
                a0[i as int] as nat,
                new@[i as int] as nat,
                carry as nat,
            );
        }
        accm[i] = v;
        proof {
            assert(accm@.take(i as int) =~= pre.take(i as int));
            lemma_limbs_val_take_step(accm@, i as int);
        }
        carry = c;
    }
    proof {
        lemma_limbs_val_take_all(new@);
    }
    for i in J..I
        invariant
            1 <= J <= I,
            carry <= 1,
            a0.len() == I,
            limbs_val(accm@.take(i as int)) + carry * radix_pow(i as nat) == limbs_val(
                a0.take(i as int),
            ) + limbs_val(new@),
            forall|k: int| i <= k < I ==> accm@[k] == a0[k],
    {
        let (c, v) = carry32_and_overflow(accm[i], carry);
        let ghost pre = accm@;
        proof {
            lemma_limbs_val_take_step(a0, i as int);
            lemma_carry_step(
                radix_pow(i as nat),
                v as nat,
                c as nat,
                a0[i as int] as nat,
                0,
                carry as nat,
            );
        }
        accm[i] = v;
        proof {
            assert(accm@.take(i as int) =~= pre.take(i as int));
            lemma_limbs_val_take_step(accm@, i as int);
        }
        carry = c;
    }
    proof {
        lemma_limbs_val_take_all(accm@);
        lemma_limbs_val_take_all(a0);
    }
    carry
}


/// `radix()^8`, the bound of an eight-limb value.
pub proof fn lemma_radix_pow8()
    ensures
        radix_pow(8) == 0x1_0000_0000_0000_0000_0000_0000_0000_0000_0000_0000_0000_0000_0000_0000_0000_0000,
{
    reveal_with_fuel(radix_pow, 9);
}

/// Adds `2^32 + 977` to the eight-limb accumulator, dropping the carry out of
/// its top limb, so that the result is the sum modulo `2^256`.
pub fn overflow(accm: &mut [u32; 8])
    ensures
        limbs_val(final(accm)@) == (limbs_val(old(accm)@) + 0x1000003d1) % radix_pow(8),
{
    let ghost a0 = *accm;
    let mut carry;
    let (c, v) = add32_and_overflow(accm[0], 0x000003d1u32, 0);
    accm[0] = v;
    carry = c;
    let ghost c1 = carry;
    let (c, v) = add32_and_overflow(accm[1], 0x1u32, carry);
    accm[1] = v;
    carry = c;
    let ghost c2 = carry;
    let (c, v) = carry32_and_overflow(accm[2], carry);
    accm[2] = v;
    carry = c;
    let ghost c3 = carry;
    let (c, v) = carry32_and_overflow(accm[3], carry);
    accm[3] = v;
    carry = c;
    let ghost c4 = carry;
    let (c, v) = carry32_and_overflow(accm[4], carry);
    accm[4] = v;
    carry = c;
    let ghost c5 = carry;
    let (c, v) = carry32_and_overflow(accm[5], carry);
    accm[5] = v;
    carry = c;
    let ghost c6 = carry;
    let (c, v) = carry32_and_overflow(accm[6], carry);
    accm[6] = v;
    carry = c;
    let ghost c7 = carry;
    let (c8, v) = carry32_and_overflow(accm[7], carry);
    accm[7] = v;
    proof {
        lemma_limbs8_val(a0);
        lemma_limbs8_val(*accm);
        lemma_limbs_val_bound(accm@);
        lemma_radix_pow8();
        let t = limbs_val(accm@);
        let m = radix_pow(8);
        assert(t + c8 * m == limbs_val(a0@) + 0x1000003d1);
        assert(c8 <= 1);
        assert(t == (limbs_val(a0@) + 0x1000003d1) % m) by {
            vstd::arithmetic::div_mod::lemma_fundamental_div_mod_converse(
                (limbs_val(a0@) + 0x1000003d1) as int,
                m as int,
                c8 as int,
                t as int,
            );
        }
    }
}


pub proof fn lemma_radix_pow_mono(m: nat, n: nat)
    requires
        m <= n,
    ensures
        radix_pow(m) <= radix_pow(n),
    decreases n,
{
    if m < n {
        lemma_radix_pow_mono(m, (n - 1) as nat);
        lemma_radix_pow_pos((n - 1) as nat);
        assert(radix_pow((n - 1) as nat) <= radix() * radix_pow((n - 1) as nat)) by (nonlinear_arith)
            requires
                radix_pow((n - 1) as nat) > 0,
        ;
    }
}

/// A value whose top limb is not zero is at least the weight of that limb.
pub proof fn lemma_limbs_val_top_nonzero(s: Seq<u32>)
    requires
        s.len() > 0,
        s.last() != 0,
    ensures
        limbs_val(s) >= radix_pow((s.len() - 1) as nat),
{
    let p = radix_pow((s.len() - 1) as nat);
    let l = s.last() as nat;
    assert(l * p >= p) by (nonlinear_arith)
        requires
            l >= 1,
    ;
}

/// Limbs that are all zero from index `i` on add nothing to the value.
pub proof fn lemma_limbs_val_zero_tail(s: Seq<u32>, i: int)
    requires
        0 <= i <= s.len(),
        forall|k: int| i <= k < s.len() ==> s[k] == 0,
    ensures
        limbs_val(s) == limbs_val(s.take(i)),
    decreases s.len(),
{
    if s.len() > i {
        lemma_limbs_val_zero_tail(s.drop_last(), i);
        assert(s.drop_last().take(i) =~= s.take(i));
    } else {
        lemma_limbs_val_take_all(s);
    }
}


/// The eight limbs of a number below `radix()^8`.
pub open spec fn limbs_of(v: nat) -> Seq<u32> {
    Seq::new(8, |i: int| ((v / radix_pow(i as nat)) % radix()) as u32)
}

/// The first `i` limbs of `limbs_of(v)` stand for `v mod radix()^i`.
pub proof fn lemma_limbs_of_take(v: nat, i: nat)
    requires
        i <= 8,
    ensures
        limbs_val(limbs_of(v).take(i as int)) == v % radix_pow(i),
    decreases i,
{
    lemma_radix_pow_pos(i);
    if i == 0 {
        assert(limbs_of(v).take(0) =~= Seq::<u32>::empty());
        assert(limbs_val(Seq::<u32>::empty()) == 0);
        assert(radix_pow(0) == 1);
    } else {
        let j = (i - 1) as nat;
        lemma_limbs_of_take(v, j);
        lemma_limbs_val_take_step(limbs_of(v), j as int);
        lemma_radix_pow_pos(j);
        let p = radix_pow(j);
        vstd::arithmetic::div_mod::lemma_mod_breakdown(v as int, p as int, radix() as int);
        assert(radix_pow(i) == radix() * p);
        vstd::arithmetic::mul::lemma_mul_is_commutative(radix() as int, p as int);
        vstd::arithmetic::div_mod::lemma_mod_bound((v / p) as int, radix() as int);
        vstd::arithmetic::mul::lemma_mul_is_commutative(p as int, ((v / p) % radix()) as int);
    }
}

/// `limbs_of(v)` stands for `v`, and it is the only eight-limb sequence
/// that does.
pub proof fn lemma_limbs_of(v: nat, s: Seq<u32>)
    requires
        v < radix_pow(8),
        s.len() == 8,
        limbs_val(s) == v,
    ensures
        limbs_val(limbs_of(v)) == v,
        s == limbs_of(v),
{
    lemma_limbs_of_take(v, 8);
    lemma_limbs_val_take_all(limbs_of(v));
    vstd::arithmetic::div_mod::lemma_small_mod(v, radix_pow(8));
    lemma_limbs_val_injective(s, limbs_of(v));
}

/// A number held in limbs has the parity of its lowest limb.
pub proof fn lemma_limbs_val_parity(s: Seq<u32>)
    requires
        s.len() >= 1,
    ensures
        limbs_val(s) % 2 == s[0] % 2,
    decreases s.len(),
{
    let n = s.len();
    if n == 1 {
        assert(s.drop_last() =~= Seq::<u32>::empty());
        assert(limbs_val(Seq::<u32>::empty()) == 0);
        assert(radix_pow(0) == 1);
    } else {
        lemma_limbs_val_parity(s.drop_last());
        let r = radix_pow((n - 2) as nat);
        assert(radix_pow((n - 1) as nat) == radix() * r);
        let e = (s.last() as nat) * (0x8000_0000 * r);
        assert((s.last() as nat) * (radix() * r) == 2 * e) by (nonlinear_arith)
            requires
                radix() == 0x1_0000_0000,
                e == (s.last() as nat) * (0x8000_0000 * r),
        ;
        vstd::arithmetic::div_mod::lemma_mod_multiples_vanish(e as int, limbs_val(s.drop_last()) as int, 2);
        assert(s.drop_last()[0] == s[0]);
    }
}

} // verus!
