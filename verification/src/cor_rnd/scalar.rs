//! Integers modulo the order of the Ristretto group, computed by `curve25519_dalek`.
use vstd::prelude::*;
use curve25519_dalek::scalar::Scalar;
use crate::rng::{chacha8_scalar, scalar_bytes_random, Draw, SeededRng};

verus! {

/// The prime order of the Ristretto group, 2^252 + 27742317777372353535851937790883648493.
pub open spec fn group_order() -> nat {
    7237005577332262213973186563042994240857116359379907606001950938285454250989nat
}

/// The integer whose little-endian encoding is `s`.
pub open spec fn le_value(s: Seq<u8>) -> nat
    decreases s.len(),
{
    if s.len() == 0 {
        0
    } else {
        (s[0] + 256 * le_value(s.drop_first())) as nat
    }
}

/// An element of Z/lZ, l the group order, held as the canonical little-endian encoding
/// that `curve25519_dalek::scalar::Scalar::to_bytes` gives.
#[derive(Debug, Clone, Copy, PartialEq, Eq)]
pub struct ModScalar {
    bytes: [u8; 32],
}

/// Calls `Scalar::from(u32)` and `to_bytes`: the encoding of `v` as a scalar.
#[verifier::external_body]
fn scalar_bytes_from_u32(v: u32) -> (r: [u8; 32])
    ensures
        le_value(r@) == v,
{
    Scalar::from(v).to_bytes()
}

/// Calls `Scalar + Scalar` on the reductions of the two encodings and encodes the sum:
/// addition modulo the group order.
#[verifier::external_body]
fn scalar_bytes_add(a: [u8; 32], b: [u8; 32]) -> (r: [u8; 32])
    ensures
        le_value(r@) == (le_value(a@) + le_value(b@)) % group_order(),
{
    (Scalar::from_bytes_mod_order(a) + Scalar::from_bytes_mod_order(b)).to_bytes()
}

/// Calls `Scalar - Scalar` on the reductions of the two encodings and encodes the
/// difference: subtraction modulo the group order.
#[verifier::external_body]
fn scalar_bytes_sub(a: [u8; 32], b: [u8; 32]) -> (r: [u8; 32])
    ensures
        le_value(r@) == (le_value(a@) - le_value(b@)) % (group_order() as int),
{
    (Scalar::from_bytes_mod_order(a) - Scalar::from_bytes_mod_order(b)).to_bytes()
}

/// Calls `Scalar * Scalar` on the reductions of the two encodings and encodes the product:
/// multiplication modulo the group order.
#[verifier::external_body]
fn scalar_bytes_mul(a: [u8; 32], b: [u8; 32]) -> (r: [u8; 32])
    ensures
        le_value(r@) == (le_value(a@) * le_value(b@)) % group_order(),
{
    (Scalar::from_bytes_mod_order(a) * Scalar::from_bytes_mod_order(b)).to_bytes()
}


impl ModScalar {
    /// The integer in [0, l) that this scalar is.
    pub closed spec fn value(&self) -> nat {
        le_value(self.bytes@)
    }

    /// The little-endian encoding held.
    pub closed spec fn encoding(&self) -> Seq<u8> {
        self.bytes@
    }

    /// The canonical little-endian encoding.
    pub fn to_bytes(&self) -> (r: [u8; 32])
        ensures
            le_value(r@) == self.value(),
            r@ == self.encoding(),
    {
        self.bytes
    }

    /// Zero.
    pub fn zero() -> (r: ModScalar)
        ensures
            r.value() == 0,
    {
        let r = ModScalar { bytes: [0u8; 32] };
        proof {
            lemma_le_value_zeros(r.bytes@);
        }
        r
    }

    /// The scalar `v`.
    pub fn from_u32(v: u32) -> (r: ModScalar)
        ensures
            r.value() == v,
    {
        ModScalar { bytes: scalar_bytes_from_u32(v) }
    }

    /// A random scalar drawn from `rng`.
    pub fn random(rng: &mut SeededRng) -> (r: ModScalar)
        ensures
            r.value() < group_order(),
            r.encoding() == chacha8_scalar(old(rng).seed(), old(rng).draws()),
            r.value() == le_value(chacha8_scalar(old(rng).seed(), old(rng).draws())),
            final(rng).seed() == old(rng).seed(),
            final(rng).draws() == old(rng).draws().push(Draw::Scalar),
    {
        ModScalar { bytes: scalar_bytes_random(rng) }
    }

    /// The sum modulo the group order.
    pub fn add(&self, other: &ModScalar) -> (r: ModScalar)
        ensures
            r.value() == (self.value() + other.value()) % group_order(),
    {
        ModScalar { bytes: scalar_bytes_add(self.bytes, other.bytes) }
    }

    /// The difference modulo the group order.
    pub fn sub(&self, other: &ModScalar) -> (r: ModScalar)
        ensures
            r.value() == (self.value() - other.value()) % (group_order() as int),
    {
        ModScalar { bytes: scalar_bytes_sub(self.bytes, other.bytes) }
    }

    /// The product modulo the group order.
    pub fn mul(&self, other: &ModScalar) -> (r: ModScalar)
        ensures
            r.value() == (self.value() * other.value()) % group_order(),
    {
        ModScalar { bytes: scalar_bytes_mul(self.bytes, other.bytes) }
    }

    /// The value as a `u32`; it must be below 2^32.
    pub fn as_u32(&self) -> (r: u32)
        requires
            self.value() < 0x1_0000_0000,
        ensures
            r == self.value(),
    {
        let b = self.bytes;
        proof {
            lemma_le_value_low4(b@);
        }
        (b[0] as u32) + (b[1] as u32) * 256 + (b[2] as u32) * 65536 + (b[3] as u32) * 16777216
    }
}

/// The encoding of zero.
pub proof fn lemma_le_value_zeros(s: Seq<u8>)
    requires
        forall|i: int| 0 <= i < s.len() ==> s[i] == 0u8,
    ensures
        le_value(s) == 0,
    decreases s.len(),
{
    if s.len() > 0 {
        lemma_le_value_zeros(s.drop_first());
    }
}

/// The low four bytes of an encoding and the rest.
pub proof fn lemma_le_value_low4(s: Seq<u8>)
    requires
        s.len() >= 4,
    ensures
        le_value(s) == s[0] + 256 * s[1] + 65536 * s[2] + 16777216 * s[3] + 4294967296 * le_value(
            s.skip(4),
        ),
{
    let s1 = s.drop_first();
    let s2 = s1.drop_first();
    let s3 = s2.drop_first();
    let s4 = s3.drop_first();
    assert(s4 =~= s.skip(4));
    assert(le_value(s3) == s3[0] + 256 * le_value(s4));
    assert(le_value(s2) == s2[0] + 256 * le_value(s3));
    assert(le_value(s1) == s1[0] + 256 * le_value(s2));
    assert(le_value(s) == s[0] + 256 * le_value(s1));
}

} // verus!
