//! Elements of the BN254 pairing groups G1 and G2, held in their compressed
//! encoding, with the group operations and the pairing delegated to
//! `ark_bn254` / `ark_ec`.
use vstd::prelude::*;
use crate::field::Fe;
use ark_bn254::{Bn254, Fr, G1Affine, G2Affine};
use ark_ec::{AffineRepr, CurveGroup};
use ark_ec::pairing::Pairing;
use ark_ff::{BigInt, PrimeField};
use ark_serialize::{CanonicalDeserialize, CanonicalSerialize};

verus! {

/// An element of G1 by its compressed encoding.
#[derive(Clone, Debug, PartialEq, Eq)]
pub struct G1Point {
    pub enc: Vec<u8>,
}

/// An element of G2 by its compressed encoding.
#[derive(Clone, Debug, PartialEq, Eq)]
pub struct G2Point {
    pub enc: Vec<u8>,
}

/// The bytes decode as an element of G1 (`G1Affine::deserialize_compressed`).
pub uninterp spec fn g1_valid(enc: Seq<u8>) -> bool;

/// The bytes decode as an element of G2 (`G2Affine::deserialize_compressed`).
pub uninterp spec fn g2_valid(enc: Seq<u8>) -> bool;

/// The encoding of `s * P` for the element of G1 encoded by `p`.
pub uninterp spec fn g1_scale(p: Seq<u8>, s: int) -> Seq<u8>;

/// The encoding of `s * P` for the element of G2 encoded by `p`.
pub uninterp spec fn g2_scale(p: Seq<u8>, s: int) -> Seq<u8>;

/// The encoding of `A + B` for the elements of G1 encoded by `a`, `b`.
pub uninterp spec fn g1_sum(a: Seq<u8>, b: Seq<u8>) -> Seq<u8>;

/// The encoding of `A + B` for the elements of G2 encoded by `a`, `b`.
pub uninterp spec fn g2_sum(a: Seq<u8>, b: Seq<u8>) -> Seq<u8>;

/// The encoding of the pairing `e(A, B)` in the target group.
pub uninterp spec fn pairing_value(a: Seq<u8>, b: Seq<u8>) -> Seq<u8>;

/// Relies on `AffineRepr::generator` for `ark_bn254::G1Affine` and on
/// `CanonicalSerialize::serialize_compressed`.
#[verifier::external_body]
pub(crate) fn g1_generator() -> (r: G1Point)
    ensures
        g1_valid(r.enc@),
{
    let mut out = Vec::new();
    G1Affine::generator().serialize_compressed(&mut out).unwrap();
    G1Point { enc: out }
}

/// Relies on `AffineRepr::generator` for `ark_bn254::G2Affine` and on
/// `CanonicalSerialize::serialize_compressed`.
#[verifier::external_body]
pub(crate) fn g2_generator() -> (r: G2Point)
    ensures
        g2_valid(r.enc@),
{
    let mut out = Vec::new();
    G2Affine::generator().serialize_compressed(&mut out).unwrap();
    G2Point { enc: out }
}

/// Relies on `CanonicalDeserialize::deserialize_compressed` for
/// `ark_bn254::G1Affine`: whether the bytes decode to a point of G1.
#[verifier::external_body]
pub(crate) fn g1_decodes(p: &G1Point) -> (r: bool)
    ensures
        r == g1_valid(p.enc@),
{
    G1Affine::deserialize_compressed(&p.enc[..]).is_ok()
}

/// Relies on `CanonicalDeserialize::deserialize_compressed` for
/// `ark_bn254::G2Affine`: whether the bytes decode to a point of G2.
#[verifier::external_body]
pub(crate) fn g2_decodes(p: &G2Point) -> (r: bool)
    ensures
        r == g2_valid(p.enc@),
{
    G2Affine::deserialize_compressed(&p.enc[..]).is_ok()
}

/// Relies on scalar multiplication of `ark_bn254::G1Affine` by `ark_bn254::Fr`.
#[verifier::external_body]
pub(crate) fn g1_mul(p: &G1Point, s: &Fe) -> (r: G1Point)
    requires
        g1_valid(p.enc@),
        s.wf(),
    ensures
        r.enc@ == g1_scale(p.enc@, s.val()),
        g1_valid(r.enc@),
{
    let a = G1Affine::deserialize_compressed_unchecked(&p.enc[..]).unwrap();
    let k = Fr::from_bigint(BigInt::new([s.l0, s.l1, s.l2, s.l3])).unwrap();
    let mut out = Vec::new();
    (a * k).into_affine().serialize_compressed(&mut out).unwrap();
    G1Point { enc: out }
}

/// Relies on scalar multiplication of `ark_bn254::G2Affine` by `ark_bn254::Fr`.
#[verifier::external_body]
pub(crate) fn g2_mul(p: &G2Point, s: &Fe) -> (r: G2Point)
    requires
        g2_valid(p.enc@),
        s.wf(),
    ensures
        r.enc@ == g2_scale(p.enc@, s.val()),
        g2_valid(r.enc@),
{
    let a = G2Affine::deserialize_compressed_unchecked(&p.enc[..]).unwrap();
    let k = Fr::from_bigint(BigInt::new([s.l0, s.l1, s.l2, s.l3])).unwrap();
    let mut out = Vec::new();
    (a * k).into_affine().serialize_compressed(&mut out).unwrap();
    G2Point { enc: out }
}

/// Relies on the group addition of `ark_bn254::G1Affine`.
#[verifier::external_body]
pub(crate) fn g1_add(a: &G1Point, b: &G1Point) -> (r: G1Point)
    requires
        g1_valid(a.enc@),
        g1_valid(b.enc@),
    ensures
        r.enc@ == g1_sum(a.enc@, b.enc@),
        g1_valid(r.enc@),
{
    let x = G1Affine::deserialize_compressed_unchecked(&a.enc[..]).unwrap();
    let y = G1Affine::deserialize_compressed_unchecked(&b.enc[..]).unwrap();
    let mut out = Vec::new();
    (x + y).into_affine().serialize_compressed(&mut out).unwrap();
    G1Point { enc: out }
}

/// Relies on the group addition of `ark_bn254::G2Affine`.
#[verifier::external_body]
pub(crate) fn g2_add(a: &G2Point, b: &G2Point) -> (r: G2Point)
    requires
        g2_valid(a.enc@),
        g2_valid(b.enc@),
    ensures
        r.enc@ == g2_sum(a.enc@, b.enc@),
        g2_valid(r.enc@),
{
    let x = G2Affine::deserialize_compressed_unchecked(&a.enc[..]).unwrap();
    let y = G2Affine::deserialize_compressed_unchecked(&b.enc[..]).unwrap();
    let mut out = Vec::new();
    (x + y).into_affine().serialize_compressed(&mut out).unwrap();
    G2Point { enc: out }
}

/// Relies on `Pairing::pairing` for `ark_bn254::Bn254`, its result in
/// compressed encoding.
#[verifier::external_body]
pub(crate) fn pairing(a: &G1Point, b: &G2Point) -> (r: Vec<u8>)
    requires
        g1_valid(a.enc@),
        g2_valid(b.enc@),
    ensures
        r@ == pairing_value(a.enc@, b.enc@),
{
    let x = G1Affine::deserialize_compressed_unchecked(&a.enc[..]).unwrap();
    let y = G2Affine::deserialize_compressed_unchecked(&b.enc[..]).unwrap();
    let mut out = Vec::new();
    Bn254::pairing(x, y).serialize_compressed(&mut out).unwrap();
    out
}

} // verus!
