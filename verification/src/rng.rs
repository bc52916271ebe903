//! The seeded ChaCha8 generator that supplies all randomness of the library. A ChaCha8
//! generator is deterministic: what a draw returns depends only on the seed and on the
//! draws made before it, which the generator keeps track of.
use vstd::prelude::*;
use rand::{Rng, RngCore, SeedableRng};
use rand_chacha::ChaCha8Rng;
use curve25519_dalek::scalar::Scalar;
use crate::cor_rnd::scalar::{group_order, le_value};

verus! {

/// `rand_chacha::ChaCha8Rng`, carried through the library as an opaque generator state.
#[verifier::external_type_specification]
#[verifier::external_body]
pub struct ExChaCha8Rng(ChaCha8Rng);

/// One draw from a generator: a fill of some bytes, a 32-bit word or a scalar.
#[derive(Debug, Clone, Copy)]
pub enum Draw {
    Fill(usize),
    Word,
    Scalar,
}

/// A ChaCha8 generator, with the seed it was made from and the draws it has made since. Its
/// fields are private to this module: a generator is made only by `from_seed` and changed
/// only by the draws of this module, each of which records itself, so the recorded seed and
/// draws are those that led to the state held.
pub struct SeededRng {
    rng: ChaCha8Rng,
    seed: Ghost<Seq<u8>>,
    draws: Ghost<Seq<Draw>>,
}

/// `count` fills of `n` bytes each.
pub open spec fn fill_draws(n: usize, count: nat) -> Seq<Draw> {
    Seq::new(count, |i: int| Draw::Fill(n))
}

/// `count` draws of the same kind `d`.
pub open spec fn repeated_draws(d: Draw, count: nat) -> Seq<Draw> {
    Seq::new(count, |i: int| d)
}

/// The bytes that `Rng::fill` on `n` bytes draws from `ChaCha8Rng::from_seed(seed)` after the
/// draws `draws`.
pub uninterp spec fn chacha8_fill(seed: Seq<u8>, draws: Seq<Draw>, n: nat) -> Seq<u8>;

/// The word that `RngCore::next_u32` draws from `ChaCha8Rng::from_seed(seed)` after the draws
/// `draws`.
pub uninterp spec fn chacha8_word(seed: Seq<u8>, draws: Seq<Draw>) -> u32;

/// Calls `ChaCha8Rng::from_seed`. Nothing is stated of the generator it returns: what it
/// draws is stated, by its seed, on the draws of [`SeededRng`].
#[verifier::external_body]
fn chacha8_from_seed(seed: [u8; 32]) -> ChaCha8Rng {
    ChaCha8Rng::from_seed(seed)
}

/// Calls `rand::Rng::fill` on a fresh buffer of `n` bytes: the bytes that a generator with
/// this seed draws after these draws.
#[verifier::external_body]
pub(crate) fn random_bytes(rng: &mut SeededRng, n: usize) -> (r: Vec<u8>)
    ensures
        r@.len() == n,
        r@ == chacha8_fill(old(rng).seed(), old(rng).draws(), n as nat),
        final(rng).seed() == old(rng).seed(),
        final(rng).draws() == old(rng).draws().push(Draw::Fill(n)),
{
    let mut buf = vec![0u8; n];
    rng.rng.fill(&mut buf[..]);
    buf
}

/// Calls `rand_core::RngCore::next_u32`: the word that a generator with this seed draws
/// after these draws.
#[verifier::external_body]
fn draw_u32(rng: &mut SeededRng) -> (r: u32)
    ensures
        r == chacha8_word(old(rng).seed(), old(rng).draws()),
        final(rng).seed() == old(rng).seed(),
        final(rng).draws() == old(rng).draws().push(Draw::Word),
{
    rng.rng.next_u32()
}

/// The encoding of the scalar that `Scalar::random` draws from `ChaCha8Rng::from_seed(seed)`
/// after the draws `draws`.
pub uninterp spec fn chacha8_scalar(seed: Seq<u8>, draws: Seq<Draw>) -> Seq<u8>;

/// Calls `Scalar::random` and `to_bytes`: the scalar that a generator with this seed draws
/// after these draws, in its canonical encoding.
#[verifier::external_body]
pub(crate) fn scalar_bytes_random(rng: &mut SeededRng) -> (r: [u8; 32])
    ensures
        r@ == chacha8_scalar(old(rng).seed(), old(rng).draws()),
        le_value(r@) < group_order(),
        final(rng).seed() == old(rng).seed(),
        final(rng).draws() == old(rng).draws().push(Draw::Scalar),
{
    Scalar::random(&mut rng.rng).to_bytes()
}

impl SeededRng {
    /// The seed the generator was made from.
    pub closed spec fn seed(&self) -> Seq<u8> {
        self.seed@
    }

    /// The draws made since, in order.
    pub closed spec fn draws(&self) -> Seq<Draw> {
        self.draws@
    }

    /// A ChaCha8 generator seeded with `seed`, with no draws yet.
    pub fn from_seed(seed: [u8; 32]) -> (r: Self)
        ensures
            r.seed() == seed@,
            r.draws() == Seq::<Draw>::empty(),
    {
        SeededRng { rng: chacha8_from_seed(seed), seed: Ghost(seed@), draws: Ghost(Seq::empty()) }
    }

    /// The next 32-bit word.
    pub fn next_u32(&mut self) -> (r: u32)
        ensures
            r == chacha8_word(old(self).seed(), old(self).draws()),
            final(self).seed() == old(self).seed(),
            final(self).draws() == old(self).draws().push(Draw::Word),
    {
        draw_u32(self)
    }
}

} // verus!
