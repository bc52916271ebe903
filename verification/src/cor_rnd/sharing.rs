//! Arithmetic and boolean secret-shared values.
use vstd::prelude::*;
use vstd::arithmetic::power2::{pow2, lemma_pow2_adds, lemma_pow2_pos};
use vstd::bits::{lemma_u32_shl_is_mul, lemma_u32_pow2_no_overflow};
use crate::cor_rnd::scalar::{group_order, le_value, ModScalar};
use crate::rng::{chacha8_scalar, chacha8_word, Draw, SeededRng};

verus! {

/// The arithmetic domain of the protocol: scalars modulo the Ristretto group order, so
/// that arithmetic shares can be committed with Pedersen commitments.
pub type ArithValueT = ArithValue<ModScalar>;

/// An arithmetic secret-shared value: modulo 2^32 over `u32`, modulo the group order over
/// [`ModScalar`].
#[derive(Debug, Clone, Copy)]
pub struct ArithValue<T> {
    value: T,
}

impl<T> ArithValue<T> {
    /// The value held.
    pub closed spec fn inner(&self) -> T {
        self.value
    }
}

/// Addition, subtraction and multiplication modulo 2^32, by wrapping operations.
impl ArithValue<u32> {
    /// Zero.
    pub fn zero() -> (r: Self)
        ensures
            r.inner() == 0,
    {
        ArithValue { value: 0u32 }
    }

    /// The value `value`.
    pub fn from_u32(value: u32) -> (r: Self)
        ensures
            r.inner() == value,
    {
        ArithValue { value }
    }

    /// A value drawn from `rng` with `next_u32`.
    pub fn random(rng: &mut SeededRng) -> (r: Self)
        ensures
            r.inner() == chacha8_word(old(rng).seed(), old(rng).draws()),
            final(rng).seed() == old(rng).seed(),
            final(rng).draws() == old(rng).draws().push(Draw::Word),
    {
        let value = rng.next_u32();
        ArithValue { value }
    }

    /// The value as a `u32`.
    pub fn as_u32(&self) -> (r: u32)
        ensures
            r == self.inner(),
    {
        self.value
    }

    /// Addition modulo 2^32.
    pub fn add(&mut self, other: &ArithValue<u32>)
        ensures
            final(self).inner() == (old(self).inner() + other.inner()) % 0x1_0000_0000,
    {
        self.value = self.value.wrapping_add(other.value);
    }

    /// Subtraction modulo 2^32.
    pub fn sub(&mut self, other: &ArithValue<u32>)
        ensures
            final(self).inner() == (old(self).inner() - other.inner()) % 0x1_0000_0000,
    {
        self.value = self.value.wrapping_sub(other.value);
    }

    /// Multiplication modulo 2^32.
    pub fn mul(&mut self, other: &ArithValue<u32>)
        ensures
            final(self).inner() == (old(self).inner() * other.inner()) % 0x1_0000_0000,
    {
        self.value = self.value.wrapping_mul(other.value);
    }
}

/// Addition, subtraction and multiplication modulo the group order, compatible with
/// Pedersen commitments over Ristretto.
impl ArithValue<ModScalar> {
    /// The value held, as an integer in [0, l).
    pub open spec fn val(&self) -> nat {
        self.inner().value()
    }

    /// Zero.
    pub fn zero() -> (r: Self)
        ensures
            r.val() == 0,
    {
        ArithValue { value: ModScalar::zero() }
    }

    /// The value `value`.
    pub fn from_u32(value: u32) -> (r: Self)
        ensures
            r.val() == value,
    {
        ArithValue { value: ModScalar::from_u32(value) }
    }

    /// A uniformly random scalar drawn from `rng`.
    pub fn random(rng: &mut SeededRng) -> (r: Self)
        ensures
            r.val() < group_order(),
            r.val() == le_value(chacha8_scalar(old(rng).seed(), old(rng).draws())),
            final(rng).seed() == old(rng).seed(),
            final(rng).draws() == old(rng).draws().push(Draw::Scalar),
    {
        ArithValue { value: ModScalar::random(rng) }
    }

    /// The value as a `u32`; it must be below 2^32.
    pub fn as_u32(&self) -> (r: u32)
        requires
            self.val() < 0x1_0000_0000,
        ensures
            r == self.val(),
    {
        self.value.as_u32()
    }

    /// The scalar held.
    pub fn as_scalar(&self) -> (r: ModScalar)
        ensures
            r == self.inner(),
    {
        self.value
    }

    /// Addition modulo the group order.
    pub fn add(&mut self, other: &ArithValue<ModScalar>)
        ensures
            final(self).val() == (old(self).val() + other.val()) % group_order(),
    {
        self.value = self.value.add(&other.value);
    }

    /// Subtraction modulo the group order.
    pub fn sub(&mut self, other: &ArithValue<ModScalar>)
        ensures
            final(self).val() == (old(self).val() - other.val()) % (group_order() as int),
    {
        self.value = self.value.sub(&other.value);
    }

    /// Multiplication modulo the group order.
    pub fn mul(&mut self, other: &ArithValue<ModScalar>)
        ensures
            final(self).val() == (old(self).val() * other.val()) % group_order(),
    {
        self.value = self.value.mul(&other.value);
    }
}

/// A boolean secret-shared value of `bit_len` bits, with `value < 2^bit_len`.
#[derive(Debug, Clone, Copy, PartialEq, Eq)]
pub struct BooleanValue {
    bit_len: u8,
    value: u32,
}

impl BooleanValue {
    /// The number of bits.
    pub closed spec fn len(&self) -> nat {
        self.bit_len as nat
    }

    /// The value.
    pub closed spec fn val(&self) -> nat {
        self.value as nat
    }

    #[verifier::type_invariant]
    closed spec fn fits(&self) -> bool {
        self.bit_len <= 32 && self.value < pow2(self.bit_len as nat)
    }

    /// The value fits in 32 bits.
    pub proof fn lemma_val_u32(&self)
        ensures
            self.val() <= u32::MAX,
    {
    }

    /// A `bit_len`-bit value; `bit_len` is at most 32 and `value` fits in it.
    pub fn new(bit_len: u8, value: u32) -> (r: Self)
        requires
            bit_len <= 32,
            value < pow2(bit_len as nat),
        ensures
            r.len() == bit_len,
            r.val() == value,
    {
        BooleanValue { bit_len, value }
    }

    /// The number of bits.
    pub fn bit_len(&self) -> (r: u8)
        ensures
            r == self.len(),
            r <= 32,
            self.val() < pow2(self.len()),
    {
        proof {
            use_type_invariant(self);
        }
        self.bit_len
    }

    /// The value.
    pub fn value(&self) -> (r: u32)
        ensures
            r == self.val(),
            self.len() <= 32,
            r < pow2(self.len()),
    {
        proof {
            use_type_invariant(self);
        }
        self.value
    }
}

/// Appends `higher` above `lower`: the value `lower + higher * 2^lower.bit_len` of
/// `lower.bit_len + higher.bit_len` bits.
pub fn join_boolean(lower: BooleanValue, higher: BooleanValue) -> (r: BooleanValue)
    requires
        lower.len() + higher.len() <= 32,
    ensures
        r.len() == lower.len() + higher.len(),
        r.val() == lower.val() + higher.val() * pow2(lower.len()),
{
    let l = lower.bit_len();
    let lv = lower.value();
    let hl = higher.bit_len();
    let hv = higher.value();
    if l == 32 {
        // `higher` has no bits, so its value is zero.
        proof {
            vstd::arithmetic::power2::lemma2_to64();
        }
        return BooleanValue::new(32, lv);
    }
    proof {
        lemma_pow2_adds(hl as nat, l as nat);
        lemma_pow2_pos(l as nat);
        lemma_u32_pow2_no_overflow(l as nat);
        assert(pow2((hl + l) as nat) <= pow2(32)) by {
            if hl + l < 32 {
                vstd::arithmetic::power2::lemma_pow2_strictly_increases((hl + l) as nat, 32);
            }
        }
        assert(pow2(32) == 0x1_0000_0000) by {
            vstd::arithmetic::power2::lemma2_to64();
        }
        assert(hv * pow2(l as nat) <= (pow2(hl as nat) - 1) * pow2(l as nat)) by (nonlinear_arith)
            requires
                hv < pow2(hl as nat),
        ;
        assert((pow2(hl as nat) - 1) * pow2(l as nat) == pow2(hl as nat) * pow2(l as nat) - pow2(
            l as nat,
        )) by (nonlinear_arith);
        lemma_u32_shl_is_mul(hv, l as u32);
        lemma_u32_shl_is_mul(1u32, l as u32);
        let sh = hv << (l as u32);
        assert(sh | lv == sh + lv) by (bit_vector)
            requires
                l < 32,
                lv < (1u32 << (l as u32)),
                sh == hv << (l as u32),
        ;
        assert(lv + hv * pow2(l as nat) < pow2((hl + l) as nat)) by (nonlinear_arith)
            requires
                lv < pow2(l as nat),
                hv < pow2(hl as nat),
                pow2((hl + l) as nat) == pow2(hl as nat) * pow2(l as nat),
        ;
    }
    let value = (hv << (l as u32)) | lv;
    BooleanValue::new(l + hl, value)
}

} // verus!
