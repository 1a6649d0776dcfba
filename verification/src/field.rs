//! Scalars of the BN254 prime-order scalar field.
//!
//! A `Scalar` carries the canonical (fully reduced) little-endian limb
//! representation of a field element, so its mathematical value is plain
//! data that contracts can speak about. The field arithmetic itself is
//! performed by `ark_bn254` behind trusted wrappers.

use vstd::prelude::*;
use vstd::arithmetic::div_mod::lemma_fundamental_div_mod_converse;
use ark_ff::PrimeField;
use ark_ff::Field;
use ark_ff::UniformRand;

verus! {

/// The BN254 scalar field modulus, a 254-bit prime.
pub open spec fn p() -> int {
    21888242871839275222246405745257275088548364400416034343698204186575808495617int
}

/// One element of the scalar field, held as four little-endian 64-bit limbs
/// of its canonical representative in `[0, p)`.
#[derive(Clone, Copy, Debug, PartialEq, Eq, Structural)]
pub struct Scalar {
    l0: u64,
    l1: u64,
    l2: u64,
    l3: u64,
}

impl Scalar {
    /// The integer in `[0, 2^256)` that the limbs spell.
    pub closed spec fn val(self) -> int {
        self.l0 + 0x10000000000000000 * (self.l1 + 0x10000000000000000 * (self.l2 + 0x10000000000000000 * self.l3))
    }

    /// The limbs are the canonical representative: the value is reduced mod p.
    pub open spec fn wf(self) -> bool {
        0 <= self.val() < p()
    }
}

/// A scalar's value determines its limbs: canonical representatives are unique,
/// so structural equality of scalars coincides with equality of their values.
pub proof fn lemma_val_injective(a: Scalar, b: Scalar)
    requires
        a.val() == b.val(),
    ensures
        a == b,
{
    let base: int = 0x10000000000000000;
    let ra: int = a.l1 + base * (a.l2 + base * a.l3);
    let rb: int = b.l1 + base * (b.l2 + base * b.l3);
    lemma_fundamental_div_mod_converse(a.val(), base, ra, a.l0 as int);
    lemma_fundamental_div_mod_converse(b.val(), base, rb, b.l0 as int);
    assert(a.l0 == b.l0 && ra == rb);
    let ra2: int = a.l2 + base * a.l3;
    let rb2: int = b.l2 + base * b.l3;
    lemma_fundamental_div_mod_converse(ra, base, ra2, a.l1 as int);
    lemma_fundamental_div_mod_converse(rb, base, rb2, b.l1 as int);
    assert(a.l1 == b.l1 && ra2 == rb2);
    lemma_fundamental_div_mod_converse(ra2, base, a.l3 as int, a.l2 as int);
    lemma_fundamental_div_mod_converse(rb2, base, b.l3 as int, b.l2 as int);
    assert(a.l2 == b.l2 && a.l3 == b.l3);
}

/// The zero of the field.
pub fn scalar_zero() -> (r: Scalar)
    ensures
        r.wf(),
        r.val() == 0,
{
    Scalar { l0: 0, l1: 0, l2: 0, l3: 0 }
}

/// The one of the field.
pub fn scalar_one() -> (r: Scalar)
    ensures
        r.wf(),
        r.val() == 1,
{
    Scalar { l0: 1, l1: 0, l2: 0, l3: 0 }
}

/// Embeds a small non-negative integer; `p` exceeds `2^64`, so no reduction occurs.
pub fn scalar_from_u64(v: u64) -> (r: Scalar)
    ensures
        r.wf(),
        r.val() == v,
{
    Scalar { l0: v, l1: 0, l2: 0, l3: 0 }
}

/// Relies on `ark_bn254::Fr` addition: the field adds residues mod p, and
/// `into_bigint` returns the canonical representative.
#[verifier::external_body]
pub fn scalar_add(a: &Scalar, b: &Scalar) -> (r: Scalar)
    requires
        a.wf(),
        b.wf(),
    ensures
        r.wf(),
        r.val() == (a.val() + b.val()) % p(),
{
    let fa = ark_bn254::Fr::from_bigint(ark_ff::BigInt::new([a.l0, a.l1, a.l2, a.l3])).unwrap();
    let fb = ark_bn254::Fr::from_bigint(ark_ff::BigInt::new([b.l0, b.l1, b.l2, b.l3])).unwrap();
    let l = (fa + fb).into_bigint().0;
    Scalar { l0: l[0], l1: l[1], l2: l[2], l3: l[3] }
}

/// Relies on `ark_bn254::Fr` subtraction: the difference of residues mod p.
#[verifier::external_body]
pub fn scalar_sub(a: &Scalar, b: &Scalar) -> (r: Scalar)
    requires
        a.wf(),
        b.wf(),
    ensures
        r.wf(),
        r.val() == (a.val() + p() - b.val()) % p(),
{
    let fa = ark_bn254::Fr::from_bigint(ark_ff::BigInt::new([a.l0, a.l1, a.l2, a.l3])).unwrap();
    let fb = ark_bn254::Fr::from_bigint(ark_ff::BigInt::new([b.l0, b.l1, b.l2, b.l3])).unwrap();
    let l = (fa - fb).into_bigint().0;
    Scalar { l0: l[0], l1: l[1], l2: l[2], l3: l[3] }
}

/// Relies on `ark_bn254::Fr` multiplication: the product of residues mod p.
#[verifier::external_body]
pub fn scalar_mul(a: &Scalar, b: &Scalar) -> (r: Scalar)
    requires
        a.wf(),
        b.wf(),
    ensures
        r.wf(),
        r.val() == (a.val() * b.val()) % p(),
{
    let fa = ark_bn254::Fr::from_bigint(ark_ff::BigInt::new([a.l0, a.l1, a.l2, a.l3])).unwrap();
    let fb = ark_bn254::Fr::from_bigint(ark_ff::BigInt::new([b.l0, b.l1, b.l2, b.l3])).unwrap();
    let l = (fa * fb).into_bigint().0;
    Scalar { l0: l[0], l1: l[1], l2: l[2], l3: l[3] }
}

/// Relies on `ark_ff::Field::inverse`: for a nonzero element it returns the
/// multiplicative inverse mod p (and `None` only for zero, which the
/// precondition excludes).
#[verifier::external_body]
pub fn scalar_inv(a: &Scalar) -> (r: Scalar)
    requires
        a.wf(),
        a.val() != 0,
    ensures
        r.wf(),
        (a.val() * r.val()) % p() == 1,
{
    let fa = ark_bn254::Fr::from_bigint(ark_ff::BigInt::new([a.l0, a.l1, a.l2, a.l3])).unwrap();
    let l = fa.inverse().unwrap().into_bigint().0;
    Scalar { l0: l[0], l1: l[1], l2: l[2], l3: l[3] }
}

/// Relies on `ark_ff::UniformRand::rand` with `rand::thread_rng`: a uniformly
/// random field element. Nothing is promised of the value beyond canonicity.
#[verifier::external_body]
pub fn scalar_random() -> (r: Scalar)
    ensures
        r.wf(),
{
    let f = ark_bn254::Fr::rand(&mut rand::thread_rng());
    let l = f.into_bigint().0;
    Scalar { l0: l[0], l1: l[1], l2: l[2], l3: l[3] }
}

} // verus!
