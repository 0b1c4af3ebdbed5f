//! Elements of the scalar field of BN254, held as four canonical 64-bit limbs,
//! with arithmetic delegated to `ark_ff`.
use vstd::prelude::*;
use vstd::arithmetic::div_mod::{
    lemma_add_mod_noop_right, lemma_mul_mod_noop_left, lemma_mul_mod_noop_right,
    lemma_sub_mod_noop_right, lemma_small_mod, lemma_mod_bound,
};
use ark_bn254::Fr;
use ark_ff::{BigInt, Field, PrimeField, UniformRand};

verus! {

/// 2^64.
pub open spec fn limb_base() -> int {
    0x1_0000_0000_0000_0000
}

/// The integer whose little-endian base-2^64 digits are `l0, l1, l2, l3`.
pub open spec fn limbs_value(l0: u64, l1: u64, l2: u64, l3: u64) -> int {
    l0 + l1 * limb_base() + l2 * (limb_base() * limb_base()) + l3 * (limb_base() * limb_base()
        * limb_base())
}

/// The prime order r of the BN254 groups G1, G2 and of their scalar field.
pub open spec fn modulus() -> int {
    limbs_value(0x43e1f593f0000001, 0x2833e84879b97091, 0xb85045b68181585d, 0x30644e72e131a029)
}

/// Field addition on canonical representatives.
pub open spec fn fadd(a: int, b: int) -> int {
    (a + b) % modulus()
}

/// Field subtraction on canonical representatives.
pub open spec fn fsub(a: int, b: int) -> int {
    (a - b) % modulus()
}

/// Field multiplication on canonical representatives.
pub open spec fn fmul(a: int, b: int) -> int {
    (a * b) % modulus()
}

/// Field negation on canonical representatives.
pub open spec fn fneg(a: int) -> int {
    (0 - a) % modulus()
}

/// `a` is a canonical representative of a field element.
pub open spec fn in_field(a: int) -> bool {
    0 <= a < modulus()
}

/// An element of the scalar field of BN254: the canonical integer in `[0, r)`
/// written as four little-endian 64-bit limbs.
#[derive(Clone, Copy, Debug, PartialEq, Eq)]
pub struct Fe {
    pub l0: u64,
    pub l1: u64,
    pub l2: u64,
    pub l3: u64,
}

impl Fe {
    /// The integer the limbs spell.
    pub open spec fn val(self) -> int {
        limbs_value(self.l0, self.l1, self.l2, self.l3)
    }

    /// The limbs spell a canonical representative.
    pub open spec fn wf(self) -> bool {
        self.val() < modulus()
    }

    /// The field element `n`.
    pub fn from_u64(n: u64) -> (r: Fe)
        ensures
            r.wf(),
            r.val() == n,
    {
        Fe { l0: n, l1: 0, l2: 0, l3: 0 }
    }

    /// The additive identity, as a value.
    pub open spec fn spec_zero() -> Fe {
        Fe { l0: 0, l1: 0, l2: 0, l3: 0 }
    }

    /// The additive identity.
    pub fn zero() -> (r: Fe)
        ensures
            r.wf(),
            r.val() == 0,
            r == Fe::spec_zero(),
    {
        Fe { l0: 0, l1: 0, l2: 0, l3: 0 }
    }

    /// The multiplicative identity.
    pub fn one() -> (r: Fe)
        ensures
            r.wf(),
            r.val() == 1,
    {
        Fe::from_u64(1)
    }

    /// Whether the limbs spell a canonical representative.
    pub fn is_canonical(&self) -> (r: bool)
        ensures
            r == self.wf(),
    {
        fe_canonical(self)
    }

    /// Whether this is the additive identity.
    pub fn is_zero(&self) -> (r: bool)
        ensures
            r == (self.val() == 0),
    {
        proof {
            lemma_limbs_unique(*self, Fe { l0: 0, l1: 0, l2: 0, l3: 0 });
        }
        self.l0 == 0 && self.l1 == 0 && self.l2 == 0 && self.l3 == 0
    }

    /// Field equality of two canonical elements.
    pub fn eq_val(&self, other: &Fe) -> (r: bool)
        requires
            self.wf(),
            other.wf(),
        ensures
            r == (self.val() == other.val()),
    {
        proof {
            lemma_limbs_unique(*self, *other);
        }
        self.l0 == other.l0 && self.l1 == other.l1 && self.l2 == other.l2 && self.l3 == other.l3
    }
}

/// Equal values have equal limbs.
pub proof fn lemma_limbs_unique(a: Fe, b: Fe)
    ensures
        a.val() == b.val() <==> a == b,
{
    let bb = limb_base();
    let d0 = a.l0 - b.l0;
    let d1 = a.l1 - b.l1;
    let d2 = a.l2 - b.l2;
    let d3 = a.l3 - b.l3;
    assert(a.val() - b.val() == d0 + bb * (d1 + bb * (d2 + bb * d3))) by (nonlinear_arith)
        requires
            bb == limb_base(),
            d0 == a.l0 - b.l0,
            d1 == a.l1 - b.l1,
            d2 == a.l2 - b.l2,
            d3 == a.l3 - b.l3,
    ;
    if a.val() == b.val() {
        lemma_digit_zero(d0, d1 + bb * (d2 + bb * d3));
        lemma_digit_zero(d1, d2 + bb * d3);
        lemma_digit_zero(d2, d3);
    }
}

proof fn lemma_digit_zero(x: int, y: int)
    requires
        -limb_base() < x < limb_base(),
        x + limb_base() * y == 0,
    ensures
        x == 0,
        y == 0,
{
    let bb = limb_base();
    assert(y == 0) by (nonlinear_arith)
        requires
            -bb < x < bb,
            x + bb * y == 0,
            bb > 0,
    ;
}

/// Facts about the size of the modulus.
pub proof fn lemma_modulus_bounds()
    ensures
        modulus() > limb_base() * limb_base(),
{
}

/// Small integers are canonical field elements.
pub proof fn lemma_small_in_field(n: int)
    requires
        0 <= n < limb_base() * limb_base(),
    ensures
        in_field(n),
        n % modulus() == n,
{
    lemma_modulus_bounds();
    lemma_small_mod(n as nat, modulus() as nat);
}

/// Every result of a field operation is canonical.
pub proof fn lemma_mod_in_field(x: int)
    ensures
        in_field(x % modulus()),
{
    lemma_modulus_bounds();
    lemma_mod_bound(x, modulus());
}

proof fn lemma_mod_left(x: int, y: int)
    ensures
        ((x % modulus()) + y) % modulus() == (x + y) % modulus(),
        (y + (x % modulus())) % modulus() == (y + x) % modulus(),
        ((x % modulus()) * y) % modulus() == (x * y) % modulus(),
        (y * (x % modulus())) % modulus() == (y * x) % modulus(),
        (y - (x % modulus())) % modulus() == (y - x) % modulus(),
{
    lemma_modulus_bounds();
    lemma_add_mod_noop_right(y, x, modulus());
    lemma_mul_mod_noop_left(x, y, modulus());
    lemma_mul_mod_noop_right(y, x, modulus());
    lemma_sub_mod_noop_right(y, x, modulus());
}

/// The laws of a commutative ring for the field operations.
pub proof fn lemma_field_ring(a: int, b: int, c: int)
    ensures
        fadd(a, b) == fadd(b, a),
        fmul(a, b) == fmul(b, a),
        fadd(fadd(a, b), c) == fadd(a, fadd(b, c)),
        fmul(fmul(a, b), c) == fmul(a, fmul(b, c)),
        fmul(a, fadd(b, c)) == fadd(fmul(a, b), fmul(a, c)),
        fmul(fadd(b, c), a) == fadd(fmul(b, a), fmul(c, a)),
        fsub(a, b) == fadd(a, fneg(b)),
        fmul(fneg(a), b) == fneg(fmul(a, b)),
        fmul(fsub(a, b), c) == fsub(fmul(a, c), fmul(b, c)),
        fsub(a, a) == 0,
        fmul(a, 0) == 0,
        fmul(0, a) == 0,
        fadd(a, b) == fadd(a % modulus(), b),
        fmul(a, b) == fmul(a % modulus(), b),
        fmul(a, b) == fmul(a, b % modulus()),
{
    let m = modulus();
    lemma_modulus_bounds();
    lemma_mod_left(a + b, c);
    lemma_mod_left(b + c, a);
    lemma_mod_left(a * b, c);
    lemma_mod_left(b * c, a);
    assert((a * b) * c == a * (b * c)) by (nonlinear_arith);
    assert(a * (b + c) == a * b + a * c) by (nonlinear_arith);
    assert((b + c) * a == b * a + c * a) by (nonlinear_arith);
    lemma_mod_left(a * b, (a * c) % m);
    lemma_mod_left(a * c, a * b);
    lemma_mod_left(b * a, (c * a) % m);
    lemma_mod_left(c * a, b * a);
    lemma_mod_left(0 - b, a);
    lemma_mod_left(0 - a, b);
    assert((0 - a) * b == 0 - a * b) by (nonlinear_arith);
    lemma_mod_left(a * b, 0);
    lemma_mod_left(a - b, c);
    assert((a - b) * c == a * c - b * c) by (nonlinear_arith);
    lemma_mod_left(a * c, 0 - (b * c) % m);
    lemma_mod_left(b * c, a * c);
    lemma_mod_left(a, b);
    lemma_mod_left(b, a);
    lemma_mod_left(a, 0);
    assert(a * 0 == 0) by (nonlinear_arith);
    assert(0 * a == 0) by (nonlinear_arith);
}

/// The multiplicative inverse of `a`, where there is one.
pub open spec fn finv(a: int) -> int {
    (choose|b: int| #[trigger] fmul(a, b) == 1) % modulus()
}

/// An inverse of `a` is the one `finv` names.
pub proof fn lemma_inverse_unique(a: int, b: int)
    requires
        in_field(b),
        fmul(a, b) == 1,
    ensures
        finv(a) == b,
{
    let c = choose|c: int| #[trigger] fmul(a, c) == 1;
    assert(fmul(a, c) == 1);
    // c = c (a b) = (c a) b = 1 b = b
    lemma_field_ring(c, a, b);
    lemma_field_ring(a, c, 0);
    lemma_field_units(b);
    lemma_modulus_bounds();
    assert(c * 1 == c);
}

/// Identities on canonical elements.
pub proof fn lemma_field_units(a: int)
    requires
        in_field(a),
    ensures
        fadd(a, 0) == a,
        fadd(0, a) == a,
        fmul(a, 1) == a,
        fmul(1, a) == a,
        a % modulus() == a,
{
    lemma_small_mod(a as nat, modulus() as nat);
}

#[verifier::external_type_specification]
#[verifier::external_body]
pub struct ExStdRng(rand::rngs::StdRng);

/// Relies on `ark_ff` addition in `ark_bn254::Fr`: the sum modulo r.
#[verifier::external_body]
pub(crate) fn fe_add(a: &Fe, b: &Fe) -> (r: Fe)
    requires
        a.wf(),
        b.wf(),
    ensures
        r.wf(),
        r.val() == fadd(a.val(), b.val()),
{
    let x = Fr::from_bigint(BigInt::new([a.l0, a.l1, a.l2, a.l3])).unwrap();
    let y = Fr::from_bigint(BigInt::new([b.l0, b.l1, b.l2, b.l3])).unwrap();
    let z = (x + y).into_bigint().0;
    Fe { l0: z[0], l1: z[1], l2: z[2], l3: z[3] }
}

/// Relies on `ark_ff` subtraction in `ark_bn254::Fr`: the difference modulo r.
#[verifier::external_body]
pub(crate) fn fe_sub(a: &Fe, b: &Fe) -> (r: Fe)
    requires
        a.wf(),
        b.wf(),
    ensures
        r.wf(),
        r.val() == fsub(a.val(), b.val()),
{
    let x = Fr::from_bigint(BigInt::new([a.l0, a.l1, a.l2, a.l3])).unwrap();
    let y = Fr::from_bigint(BigInt::new([b.l0, b.l1, b.l2, b.l3])).unwrap();
    let z = (x - y).into_bigint().0;
    Fe { l0: z[0], l1: z[1], l2: z[2], l3: z[3] }
}

/// Relies on `ark_ff` multiplication in `ark_bn254::Fr`: the product modulo r.
#[verifier::external_body]
pub(crate) fn fe_mul(a: &Fe, b: &Fe) -> (r: Fe)
    requires
        a.wf(),
        b.wf(),
    ensures
        r.wf(),
        r.val() == fmul(a.val(), b.val()),
{
    let x = Fr::from_bigint(BigInt::new([a.l0, a.l1, a.l2, a.l3])).unwrap();
    let y = Fr::from_bigint(BigInt::new([b.l0, b.l1, b.l2, b.l3])).unwrap();
    let z = (x * y).into_bigint().0;
    Fe { l0: z[0], l1: z[1], l2: z[2], l3: z[3] }
}

/// Relies on `ark_ff` negation in `ark_bn254::Fr`: the additive inverse modulo r.
#[verifier::external_body]
pub(crate) fn fe_neg(a: &Fe) -> (r: Fe)
    requires
        a.wf(),
    ensures
        r.wf(),
        r.val() == fneg(a.val()),
{
    let x = Fr::from_bigint(BigInt::new([a.l0, a.l1, a.l2, a.l3])).unwrap();
    let z = (-x).into_bigint().0;
    Fe { l0: z[0], l1: z[1], l2: z[2], l3: z[3] }
}

/// Relies on `ark_ff::Field::inverse` in `ark_bn254::Fr`: `None` exactly for
/// zero, otherwise the multiplicative inverse modulo r.
#[verifier::external_body]
pub(crate) fn fe_inv(a: &Fe) -> (r: Option<Fe>)
    requires
        a.wf(),
    ensures
        r.is_none() <==> a.val() == 0,
        r matches Some(b) ==> b.wf() && fmul(a.val(), b.val()) == 1,
{
    let x = Fr::from_bigint(BigInt::new([a.l0, a.l1, a.l2, a.l3])).unwrap();
    match x.inverse() {
        Some(y) => {
            let z = y.into_bigint().0;
            Some(Fe { l0: z[0], l1: z[1], l2: z[2], l3: z[3] })
        },
        None => None,
    }
}

proof fn lemma_lex(hi_a: int, lo_a: int, hi_b: int, lo_b: int, k: int)
    requires
        k > 0,
        0 <= lo_a < k,
        0 <= lo_b < k,
    ensures
        (hi_a * k + lo_a < hi_b * k + lo_b) == (hi_a < hi_b || (hi_a == hi_b && lo_a < lo_b)),
{
    assert((hi_a * k + lo_a < hi_b * k + lo_b) == (hi_a < hi_b || (hi_a == hi_b && lo_a < lo_b)))
        by (nonlinear_arith)
        requires
            k > 0,
            0 <= lo_a < k,
            0 <= lo_b < k,
    ;
}

proof fn lemma_digits(l0: u64, l1: u64, l2: u64, l3: u64)
    ensures
        0 <= l0 + l1 * limb_base() < limb_base() * limb_base(),
        0 <= l0 + l1 * limb_base() + l2 * (limb_base() * limb_base()) < limb_base() * limb_base()
            * limb_base(),
{
    let b = limb_base();
    assert(0 <= l0 + l1 * b < b * b) by (nonlinear_arith)
        requires
            b == 0x1_0000_0000_0000_0000,
            0 <= l0 < b,
            0 <= l1 < b,
    ;
    let lo = l0 + l1 * b;
    assert(0 <= lo + l2 * (b * b) < b * b * b) by (nonlinear_arith)
        requires
            b == 0x1_0000_0000_0000_0000,
            0 <= lo < b * b,
            0 <= l2 < b,
    ;
}

/// Whether the limbs spell an integer below the modulus, by comparing them
/// with the modulus's limbs from the most significant.
fn fe_canonical(a: &Fe) -> (r: bool)
    ensures
        r == a.wf(),
{
    let m0: u64 = 0x43e1f593f0000001;
    let m1: u64 = 0x2833e84879b97091;
    let m2: u64 = 0xb85045b68181585d;
    let m3: u64 = 0x30644e72e131a029;
    proof {
        let b = limb_base();
        lemma_digits(a.l0, a.l1, a.l2, a.l3);
        lemma_digits(m0, m1, m2, m3);
        let a1 = a.l0 + a.l1 * b;
        let a2 = a1 + a.l2 * (b * b);
        let c1 = m0 + m1 * b;
        let c2 = c1 + m2 * (b * b);
        lemma_lex(a.l3 as int, a2, m3 as int, c2, b * b * b);
        lemma_lex(a.l2 as int, a1, m2 as int, c1, b * b);
        lemma_lex(a.l1 as int, a.l0 as int, m1 as int, m0 as int, b);
        assert(a.val() == a.l3 * (b * b * b) + a2);
        assert(modulus() == m3 * (b * b * b) + c2);
        assert(a2 == a.l2 * (b * b) + a1);
        assert(c2 == m2 * (b * b) + c1);
        assert(a1 == a.l1 * b + a.l0);
        assert(c1 == m1 * b + m0);
    }
    if a.l3 != m3 {
        return a.l3 < m3;
    }
    if a.l2 != m2 {
        return a.l2 < m2;
    }
    if a.l1 != m1 {
        return a.l1 < m1;
    }
    a.l0 < m0
}

/// Relies on `ark_std::UniformRand` for `ark_bn254::Fr`: a uniformly drawn
/// element, of which nothing but its canonical form is known.
#[verifier::external_body]
pub(crate) fn fe_random(rng: &mut rand::rngs::StdRng) -> (r: Fe)
    ensures
        r.wf(),
{
    let z = Fr::rand(rng).into_bigint().0;
    Fe { l0: z[0], l1: z[1], l2: z[2], l3: z[3] }
}

} // verus!
