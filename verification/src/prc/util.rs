//! Secret sharing of single values and small helpers.
use vstd::prelude::*;
use vstd::arithmetic::power2::{pow2, lemma2_to64};
use vstd::bits::lemma_u32_shl_is_mul;
use crate::rng::{chacha8_scalar, chacha8_word, repeated_draws, Draw, SeededRng};
use crate::cor_rnd::scalar::{group_order, le_value};
use crate::cor_rnd::sharing::{ArithValueT, BooleanValue};

verus! {

/// Xor of all values of `s`, starting from `acc`.
pub open spec fn xor_u32s(acc: u32, s: Seq<u32>) -> u32
    decreases s.len(),
{
    if s.len() == 0 {
        acc
    } else {
        xor_u32s(acc, s.drop_last()) ^ s.last()
    }
}

/// Xor of the values of all boolean shares of `s`, starting from `acc`.
pub open spec fn xor_booleans(acc: u32, s: Seq<BooleanValue>) -> u32
    decreases s.len(),
{
    if s.len() == 0 {
        acc
    } else {
        (xor_booleans(acc, s.drop_last()) ^ (s.last().val() as u32)) as u32
    }
}

/// Sum of the values of `s` starting from `acc`, reduced after each addition.
pub open spec fn arith_fold(acc: int, s: Seq<ArithValueT>) -> int
    decreases s.len(),
{
    if s.len() == 0 {
        acc
    } else {
        (arith_fold(acc, s.drop_last()) + s.last().val()) % (group_order() as int)
    }
}

/// Difference of `acc` and the values of `s`, reduced after each subtraction.
pub open spec fn arith_sub_fold(acc: int, s: Seq<ArithValueT>) -> int
    decreases s.len(),
{
    if s.len() == 0 {
        acc
    } else {
        (arith_sub_fold(acc, s.drop_last()) - s.last().val()) % (group_order() as int)
    }
}

/// Difference of `acc` and the integers of `s`, reduced after each subtraction.
pub open spec fn int_sub_fold(acc: int, s: Seq<int>) -> int
    decreases s.len(),
{
    if s.len() == 0 {
        acc
    } else {
        (int_sub_fold(acc, s.drop_last()) - s.last()) % (group_order() as int)
    }
}

/// The values of the boolean shares of the `len`-bit value `x` among `n` parties dealt from
/// the generator seeded with `seed` after the draws `d`: the first `n - 1` are drawn words
/// cut to `len` bits, the last is `x` xored with all of them.
pub open spec fn dealt_bool_shares(seed: Seq<u8>, d: Seq<Draw>, x: u32, len: nat, n: nat) -> Seq<u32> {
    let firsts = Seq::new(
        (n - 1) as nat,
        |k: int| chacha8_word(seed, d + repeated_draws(Draw::Word, k as nat)) & low_mask(len),
    );
    firsts.push(xor_u32s(x, firsts))
}

/// The values of the arithmetic shares of `x` among `n` parties dealt from the generator
/// seeded with `seed` after the draws `d`: the first `n - 1` are drawn scalars, the last is
/// `x` minus all of them modulo the group order.
pub open spec fn dealt_arith_shares(seed: Seq<u8>, d: Seq<Draw>, x: int, n: nat) -> Seq<int> {
    let firsts = Seq::new(
        (n - 1) as nat,
        |k: int| le_value(chacha8_scalar(seed, d + repeated_draws(Draw::Scalar, k as nat))) as int,
    );
    firsts.push(int_sub_fold(x, firsts))
}

proof fn lemma_xor_booleans_words(acc: u32, s: Seq<BooleanValue>)
    ensures
        xor_booleans(acc, s) == xor_u32s(acc, s.map_values(|b: BooleanValue| b.val() as u32)),
    decreases s.len(),
{
    if s.len() > 0 {
        lemma_xor_booleans_words(acc, s.drop_last());
        assert(s.drop_last().map_values(|b: BooleanValue| b.val() as u32) =~= s.map_values(
            |b: BooleanValue| b.val() as u32,
        ).drop_last());
    }
}

proof fn lemma_arith_sub_fold_ints(acc: int, s: Seq<ArithValueT>)
    ensures
        arith_sub_fold(acc, s) == int_sub_fold(acc, s.map_values(|a: ArithValueT| a.val() as int)),
    decreases s.len(),
{
    if s.len() > 0 {
        lemma_arith_sub_fold_ints(acc, s.drop_last());
        assert(s.drop_last().map_values(|a: ArithValueT| a.val() as int) =~= s.map_values(
            |a: ArithValueT| a.val() as int,
        ).drop_last());
    }
}

/// Plain sum of the values of `s`.
pub open spec fn arith_total(s: Seq<ArithValueT>) -> int
    decreases s.len(),
{
    if s.len() == 0 {
        0
    } else {
        arith_total(s.drop_last()) + s.last().val()
    }
}

proof fn lemma_xor_shares(x: u32, a: u32)
    ensures
        a ^ (x ^ a) == x,
        x ^ 0u32 == x,
        0u32 ^ x == x,
{
    assert(a ^ (x ^ a) == x) by (bit_vector);
    assert(x ^ 0u32 == x) by (bit_vector);
    assert(0u32 ^ x == x) by (bit_vector);
}

/// Xor of a fold from `x` with the fold from zero gives `x` back.
proof fn lemma_xor_u32s_split(x: u32, s: Seq<u32>)
    ensures
        xor_u32s(x, s) == x ^ xor_u32s(0, s),
    decreases s.len(),
{
    if s.len() == 0 {
        lemma_xor_shares(x, 0);
    } else {
        lemma_xor_u32s_split(x, s.drop_last());
        let (a, b) = (xor_u32s(0, s.drop_last()), s.last());
        assert((x ^ a) ^ b == x ^ (a ^ b)) by (bit_vector);
    }
}

/// Values below 2^l stay below 2^l under xor.
pub(crate) proof fn lemma_xor_bounded(a: u32, b: u32, l: nat)
    requires
        l <= 32,
        a < pow2(l),
        b < pow2(l),
    ensures
        (a ^ b) < pow2(l),
{
    if l < 32 {
        lemma_pow_fits(l);
        lemma_u32_shl_is_mul(1u32, l as u32);
        let lu = l as u32;
        let m = 1u32 << lu;
        assert((a ^ b) < m) by (bit_vector)
            requires
                a < m,
                b < m,
                m == 1u32 << lu,
                lu < 32,
        ;
    } else {
        lemma2_to64();
    }
}

proof fn lemma_pow_fits(l: nat)
    requires
        l < 32,
    ensures
        pow2(l) <= 0x8000_0000,
{
    lemma2_to64();
    if l < 31 {
        vstd::arithmetic::power2::lemma_pow2_strictly_increases(l, 31);
    }
}

/// A mask of the low `l` bits keeps a value below 2^l.
proof fn lemma_mask_bounded(v: u32, l: nat)
    requires
        l < 32,
    ensures
        (v & (((1u32 << (l as u32)) - 1) as u32)) < pow2(l),
        (1u32 << (l as u32)) >= 1,
{
    lemma_pow_fits(l);
    lemma_u32_shl_is_mul(1u32, l as u32);
    vstd::arithmetic::power2::lemma_pow2_pos(l);
    let lu = l as u32;
    let m = 1u32 << lu;
    assert((v & ((m - 1) as u32)) < m && m >= 1) by (bit_vector)
        requires
            m == 1u32 << lu,
            lu < 32,
    ;
}

/// Boolean secret sharing of `x` among `party_num` parties: `party_num - 1` random words
/// and a last share that makes the xor of all shares `x`.
pub fn secret_share_u32(x: u32, party_num: usize, rng: &mut SeededRng) -> (r: Vec<u32>)
    requires
        party_num >= 1,
    ensures
        r@.len() == party_num,
        xor_u32s(0, r@) == x,
        forall|k: int| 0 <= k < party_num - 1 ==> #[trigger] r@[k] == chacha8_word(
            old(rng).seed(),
            old(rng).draws() + repeated_draws(Draw::Word, k as nat),
        ),
        final(rng).seed() == old(rng).seed(),
        final(rng).draws() == old(rng).draws() + repeated_draws(Draw::Word, (party_num - 1) as nat),
{
    let mut shares: Vec<u32> = Vec::with_capacity(party_num);
    let mut i: usize = 0;
    assert(old(rng).draws() + repeated_draws(Draw::Word, 0) =~= old(rng).draws());
    while i < party_num - 1
        invariant
            party_num >= 1,
            i <= party_num - 1,
            shares@.len() == i,
            forall|k: int| 0 <= k < i ==> #[trigger] shares@[k] == chacha8_word(
                old(rng).seed(),
                old(rng).draws() + repeated_draws(Draw::Word, k as nat),
            ),
            rng.seed() == old(rng).seed(),
            rng.draws() == old(rng).draws() + repeated_draws(Draw::Word, i as nat),
        decreases party_num - 1 - i,
    {
        shares.push(rng.next_u32());
        assert((old(rng).draws() + repeated_draws(Draw::Word, i as nat)).push(Draw::Word) =~= old(rng).draws()
            + repeated_draws(Draw::Word, (i + 1) as nat));
        i += 1;
    }
    let last = fold_xor_u32(x, &shares);
    proof {
        lemma_xor_u32s_split(x, shares@);
        lemma_xor_shares(x, xor_u32s(0, shares@));
    }
    let ghost before = shares@;
    shares.push(last);
    assert(shares@.drop_last() =~= before);
    shares
}

/// `acc` xored with every value of `s`.
fn fold_xor_u32(acc: u32, s: &Vec<u32>) -> (r: u32)
    ensures
        r == xor_u32s(acc, s@),
{
    let mut out = acc;
    let mut i: usize = 0;
    while i < s.len()
        invariant
            i <= s@.len(),
            out == xor_u32s(acc, s@.take(i as int)),
        decreases s@.len() - i,
    {
        assert(s@.take(i + 1).drop_last() =~= s@.take(i as int));
        out = out ^ s[i];
        i += 1;
    }
    assert(s@.take(s@.len() as int) =~= s@);
    out
}

/// The mask of the low `l` bits of a word.
pub open spec fn low_mask(l: nat) -> u32 {
    if l >= 32 {
        0xFFFF_FFFFu32
    } else {
        ((1u32 << (l as u32)) - 1) as u32
    }
}

/// Boolean secret sharing of an `l`-bit value among `party_num` parties; every share has
/// `l` bits.
pub fn secret_share_lbit(x: u32, party_num: usize, l: usize, rng: &mut SeededRng) -> (r: Vec<u32>)
    requires
        party_num >= 1,
        l <= 32,
        x < pow2(l as nat),
    ensures
        r@.len() == party_num,
        xor_u32s(0, r@) == x,
        forall|i: int| 0 <= i < r@.len() ==> (#[trigger] r@[i]) < pow2(l as nat),
        forall|k: int| 0 <= k < party_num - 1 ==> #[trigger] r@[k] == chacha8_word(
            old(rng).seed(),
            old(rng).draws() + repeated_draws(Draw::Word, k as nat),
        ) & low_mask(l as nat),
        final(rng).seed() == old(rng).seed(),
        final(rng).draws() == old(rng).draws() + repeated_draws(Draw::Word, (party_num - 1) as nat),
{
    let mask: u32 = if l == 32 {
        0xFFFF_FFFFu32
    } else {
        proof {
            lemma_mask_bounded(0, l as nat);
        }
        (1u32 << (l as u32)) - 1
    };
    let mut shares: Vec<u32> = Vec::with_capacity(party_num);
    let mut i: usize = 0;
    assert(old(rng).draws() + repeated_draws(Draw::Word, 0) =~= old(rng).draws());
    while i < party_num - 1
        invariant
            party_num >= 1,
            l <= 32,
            l < 32 ==> mask == ((1u32 << (l as u32)) - 1) as u32,
            mask == low_mask(l as nat),
            i <= party_num - 1,
            shares@.len() == i,
            forall|k: int| 0 <= k < i ==> (#[trigger] shares@[k]) < pow2(l as nat),
            forall|k: int| 0 <= k < i ==> #[trigger] shares@[k] == chacha8_word(
                old(rng).seed(),
                old(rng).draws() + repeated_draws(Draw::Word, k as nat),
            ) & low_mask(l as nat),
            rng.seed() == old(rng).seed(),
            rng.draws() == old(rng).draws() + repeated_draws(Draw::Word, i as nat),
        decreases party_num - 1 - i,
    {
        assert((old(rng).draws() + repeated_draws(Draw::Word, i as nat)).push(Draw::Word) =~= old(rng).draws()
            + repeated_draws(Draw::Word, (i + 1) as nat));
        let v = rng.next_u32() & mask;
        proof {
            if l < 32 {
                lemma_mask_bounded(next_u32_any(v, mask), l as nat);
                lemma_mask_value(v, mask, l as nat);
            } else {
                lemma2_to64();
            }
        }
        shares.push(v);
        i += 1;
    }
    let mut last = x;
    let mut k: usize = 0;
    while k < shares.len()
        invariant
            l <= 32,
            x < pow2(l as nat),
            k <= shares@.len(),
            forall|j: int| 0 <= j < shares@.len() ==> (#[trigger] shares@[j]) < pow2(l as nat),
            last == xor_u32s(x, shares@.take(k as int)),
            last < pow2(l as nat),
        decreases shares@.len() - k,
    {
        assert(shares@.take(k + 1).drop_last() =~= shares@.take(k as int));
        proof {
            lemma_xor_bounded(last, shares@[k as int], l as nat);
        }
        last = last ^ shares[k];
        k += 1;
    }
    assert(shares@.take(shares@.len() as int) =~= shares@);
    proof {
        lemma_xor_u32s_split(x, shares@);
        lemma_xor_shares(x, xor_u32s(0, shares@));
    }
    let ghost before = shares@;
    shares.push(last);
    assert(shares@.drop_last() =~= before);
    shares
}

spec fn next_u32_any(v: u32, mask: u32) -> u32 {
    v
}

proof fn lemma_mask_value(v: u32, mask: u32, l: nat)
    requires
        l < 32,
        mask == ((1u32 << (l as u32)) - 1) as u32,
        exists|w: u32| v == w & mask,
    ensures
        v < pow2(l),
{
    let w = choose|w: u32| v == w & mask;
    lemma_mask_bounded(w, l);
}

/// Arithmetic secret sharing of `x` among `party_num` parties: `party_num - 1` random
/// scalars and a last share that makes the sum of all shares `x` modulo the group order.
pub fn secret_share_arith(x: ArithValueT, party_num: usize, rng: &mut SeededRng) -> (r: Vec<
    ArithValueT,
>)
    requires
        party_num >= 1,
    ensures
        r@.len() == party_num,
        arith_fold(0, r@) % (group_order() as int) == (x.val() as int) % (group_order() as int),
        forall|k: int| 0 <= k < party_num - 1 ==> (#[trigger] r@[k]).val() == le_value(
            chacha8_scalar(old(rng).seed(), old(rng).draws() + repeated_draws(Draw::Scalar, k as nat)),
        ),
        r@.map_values(|a: ArithValueT| a.val() as int) == dealt_arith_shares(
            old(rng).seed(),
            old(rng).draws(),
            x.val() as int,
            party_num as nat,
        ),
        final(rng).seed() == old(rng).seed(),
        final(rng).draws() == old(rng).draws() + repeated_draws(Draw::Scalar, (party_num - 1) as nat),
{
    let mut shares: Vec<ArithValueT> = Vec::with_capacity(party_num);
    let mut i: usize = 0;
    assert(old(rng).draws() + repeated_draws(Draw::Scalar, 0) =~= old(rng).draws());
    while i < party_num - 1
        invariant
            party_num >= 1,
            i <= party_num - 1,
            shares@.len() == i,
            forall|k: int| 0 <= k < i ==> (#[trigger] shares@[k]).val() == le_value(
                chacha8_scalar(old(rng).seed(), old(rng).draws() + repeated_draws(Draw::Scalar, k as nat)),
            ),
            rng.seed() == old(rng).seed(),
            rng.draws() == old(rng).draws() + repeated_draws(Draw::Scalar, i as nat),
        decreases party_num - 1 - i,
    {
        shares.push(ArithValueT::random(rng));
        assert((old(rng).draws() + repeated_draws(Draw::Scalar, i as nat)).push(Draw::Scalar) =~= old(rng).draws()
            + repeated_draws(Draw::Scalar, (i + 1) as nat));
        i += 1;
    }
    let mut last = x;
    let mut k: usize = 0;
    while k < shares.len()
        invariant
            k <= shares@.len(),
            last.val() == arith_sub_fold(x.val() as int, shares@.take(k as int)),
        decreases shares@.len() - k,
    {
        assert(shares@.take(k + 1).drop_last() =~= shares@.take(k as int));
        last.sub(&shares[k]);
        k += 1;
    }
    assert(shares@.take(shares@.len() as int) =~= shares@);
    let ghost before = shares@;
    shares.push(last);
    assert(shares@.drop_last() =~= before);
    proof {
        lemma_arith_share_sum(x.val() as int, before, last);
        lemma_arith_sub_fold_ints(x.val() as int, before);
        let firsts = Seq::new(
            (party_num - 1) as nat,
            |k: int| le_value(chacha8_scalar(old(rng).seed(), old(rng).draws() + repeated_draws(Draw::Scalar, k as nat))) as int,
        );
        assert(before.map_values(|a: ArithValueT| a.val() as int) =~= firsts);
        assert(shares@.map_values(|a: ArithValueT| a.val() as int) =~= firsts.push(int_sub_fold(x.val() as int, firsts)));
    }
    shares
}

/// Boolean secret sharing of a boolean value among `party_num` parties; every share has
/// the bit length of `x`.
pub fn secret_share_boolean(x: BooleanValue, party_num: usize, rng: &mut SeededRng) -> (r: Vec<
    BooleanValue,
>)
    requires
        party_num >= 1,
        x.len() < 32,
    ensures
        r@.len() == party_num,
        forall|i: int| 0 <= i < r@.len() ==> (#[trigger] r@[i]).len() == x.len(),
        xor_booleans(0, r@) == x.val(),
        forall|k: int| 0 <= k < party_num - 1 ==> (#[trigger] r@[k]).val() == chacha8_word(
            old(rng).seed(),
            old(rng).draws() + repeated_draws(Draw::Word, k as nat),
        ) & low_mask(x.len()),
        r@.map_values(|b: BooleanValue| b.val() as u32) == dealt_bool_shares(
            old(rng).seed(),
            old(rng).draws(),
            x.val() as u32,
            x.len(),
            party_num as nat,
        ),
        final(rng).seed() == old(rng).seed(),
        final(rng).draws() == old(rng).draws() + repeated_draws(Draw::Word, (party_num - 1) as nat),
{
    let bl = x.bit_len();
    proof {
        lemma_mask_bounded(0, bl as nat);
    }
    let mask: u32 = (1u32 << (bl as u32)) - 1;
    let mut shares: Vec<BooleanValue> = Vec::with_capacity(party_num);
    let mut i: usize = 0;
    assert(old(rng).draws() + repeated_draws(Draw::Word, 0) =~= old(rng).draws());
    while i < party_num - 1
        invariant
            party_num >= 1,
            bl == x.len(),
            bl < 32,
            mask == ((1u32 << (bl as u32)) - 1) as u32,
            i <= party_num - 1,
            shares@.len() == i,
            forall|k: int| 0 <= k < i ==> (#[trigger] shares@[k]).len() == x.len(),
            forall|k: int| 0 <= k < i ==> (#[trigger] shares@[k]).val() == chacha8_word(
                old(rng).seed(),
                old(rng).draws() + repeated_draws(Draw::Word, k as nat),
            ) & low_mask(x.len()),
            rng.seed() == old(rng).seed(),
            rng.draws() == old(rng).draws() + repeated_draws(Draw::Word, i as nat),
        decreases party_num - 1 - i,
    {
        assert((old(rng).draws() + repeated_draws(Draw::Word, i as nat)).push(Draw::Word) =~= old(rng).draws()
            + repeated_draws(Draw::Word, (i + 1) as nat));
        let w = rng.next_u32();
        proof {
            lemma_mask_bounded(w, bl as nat);
        }
        shares.push(BooleanValue::new(bl, w & mask));
        i += 1;
    }
    let mut last = x.value();
    let mut k: usize = 0;
    while k < shares.len()
        invariant
            bl == x.len(),
            bl < 32,
            x.val() < pow2(bl as nat),
            forall|j: int| 0 <= j < shares@.len() ==> (#[trigger] shares@[j]).len() == x.len(),
            k <= shares@.len(),
            last == xor_booleans(x.val() as u32, shares@.take(k as int)),
            last < pow2(bl as nat),
        decreases shares@.len() - k,
    {
        assert(shares@.take(k + 1).drop_last() =~= shares@.take(k as int));
        let sv = shares[k].value();
        proof {
            lemma_xor_bounded(last, sv, bl as nat);
        }
        last = last ^ sv;
        k += 1;
    }
    assert(shares@.take(shares@.len() as int) =~= shares@);
    let ghost before = shares@;
    proof {
        lemma_xor_booleans_split(x.val() as u32, before);
        lemma_xor_shares(x.val() as u32, xor_booleans(0, before));
    }
    shares.push(BooleanValue::new(bl, last));
    assert(shares@.drop_last() =~= before);
    proof {
        lemma_xor_booleans_words(x.val() as u32, before);
        let firsts = Seq::new(
            (party_num - 1) as nat,
            |k: int| chacha8_word(old(rng).seed(), old(rng).draws() + repeated_draws(Draw::Word, k as nat)) & low_mask(x.len()),
        );
        assert(before.map_values(|b: BooleanValue| b.val() as u32) =~= firsts);
        assert(shares@.map_values(|b: BooleanValue| b.val() as u32) =~= firsts.push(xor_u32s(x.val() as u32, firsts)));
    }
    shares
}

proof fn lemma_xor_booleans_split(x: u32, s: Seq<BooleanValue>)
    ensures
        xor_booleans(x, s) == x ^ xor_booleans(0, s),
    decreases s.len(),
{
    if s.len() == 0 {
        lemma_xor_shares(x, 0);
    } else {
        lemma_xor_booleans_split(x, s.drop_last());
        let (a, b) = (xor_booleans(0, s.drop_last()), s.last().val() as u32);
        assert((x ^ a) ^ b == x ^ (a ^ b)) by (bit_vector);
    }
}

/// Xor of all shares.
pub fn reconstruct_u32(shares: Vec<u32>) -> (r: u32)
    ensures
        r == xor_u32s(0, shares@),
{
    fold_xor_u32(0, &shares)
}

/// Xor of the values of all boolean shares.
pub fn reconstruct_boolean(shares: &[BooleanValue]) -> (r: u32)
    ensures
        r == xor_booleans(0, shares@),
{
    let mut acc: u32 = 0;
    let mut i: usize = 0;
    while i < shares.len()
        invariant
            i <= shares@.len(),
            acc == xor_booleans(0, shares@.take(i as int)),
        decreases shares@.len() - i,
    {
        assert(shares@.take(i + 1).drop_last() =~= shares@.take(i as int));
        acc = acc ^ shares[i].value();
        i += 1;
    }
    assert(shares@.take(shares@.len() as int) =~= shares@);
    acc
}

/// Sum of all arithmetic shares modulo the group order.
pub fn reconstruct_arith(shares: &[ArithValueT]) -> (r: ArithValueT)
    ensures
        r.val() == arith_fold(0, shares@),
{
    let mut acc = ArithValueT::zero();
    let mut i: usize = 0;
    while i < shares.len()
        invariant
            i <= shares@.len(),
            acc.val() == arith_fold(0, shares@.take(i as int)),
        decreases shares@.len() - i,
    {
        assert(shares@.take(i + 1).drop_last() =~= shares@.take(i as int));
        acc.add(&shares[i]);
        i += 1;
    }
    assert(shares@.take(shares@.len() as int) =~= shares@);
    acc
}

/// The reduced sum is congruent to the plain sum.
pub proof fn lemma_arith_fold_mod(acc: int, s: Seq<ArithValueT>)
    ensures
        arith_fold(acc, s) % (group_order() as int) == (acc + arith_total(s)) % (group_order() as int),
    decreases s.len(),
{
    let m = group_order() as int;
    if s.len() > 0 {
        let t = s.drop_last();
        lemma_arith_fold_mod(acc, t);
        let (x, y) = (arith_fold(acc, t), s.last().val() as int);
        vstd::arithmetic::div_mod::lemma_mod_twice(x + y, m);
        vstd::arithmetic::div_mod::lemma_add_mod_noop(x, y, m);
        vstd::arithmetic::div_mod::lemma_add_mod_noop(acc + arith_total(t), y, m);
    }
}

/// The reduced difference is congruent to the plain difference.
pub proof fn lemma_arith_sub_fold_mod(acc: int, s: Seq<ArithValueT>)
    ensures
        arith_sub_fold(acc, s) % (group_order() as int) == (acc - arith_total(s)) % (group_order() as int),
    decreases s.len(),
{
    let m = group_order() as int;
    if s.len() > 0 {
        let t = s.drop_last();
        lemma_arith_sub_fold_mod(acc, t);
        let (x, y) = (arith_sub_fold(acc, t), s.last().val() as int);
        vstd::arithmetic::div_mod::lemma_mod_twice(x - y, m);
        vstd::arithmetic::div_mod::lemma_sub_mod_noop(x, y, m);
        vstd::arithmetic::div_mod::lemma_sub_mod_noop(acc - arith_total(t), y, m);
    }
}

/// The shares drawn by [`secret_share_arith`] add up to the shared value.
proof fn lemma_arith_share_sum(x: int, randoms: Seq<ArithValueT>, last: ArithValueT)
    requires
        last.val() == arith_sub_fold(x, randoms),
    ensures
        arith_fold(0, randoms.push(last)) % (group_order() as int) == x % (group_order() as int),
{
    let m = group_order() as int;
    let all = randoms.push(last);
    assert(all.drop_last() =~= randoms);
    lemma_arith_fold_mod(0, all);
    lemma_arith_fold_mod(0, randoms);
    lemma_arith_sub_fold_mod(x, randoms);
    let t = arith_total(randoms);
    let l = last.val() as int;
    assert(arith_total(all) == t + l);
    vstd::arithmetic::div_mod::lemma_add_mod_noop(t, l, m);
    vstd::arithmetic::div_mod::lemma_add_mod_noop(t, x - t, m);
    vstd::arithmetic::div_mod::lemma_mod_twice(l, m);
}

/// Transposes rows of equal length into columns, moving the values.
pub fn transpose<C: Clone>(inp: Vec<Vec<C>>) -> (r: Vec<Vec<C>>)
    requires
        forall|i: int| 0 <= i < inp@.len() ==> (#[trigger] inp@[i])@.len() == inp@[0]@.len(),
    ensures
        inp@.len() == 0 || inp@[0]@.len() == 0 ==> r@.len() == 0,
        inp@.len() > 0 && inp@[0]@.len() > 0 ==> r@.len() == inp@[0]@.len() && forall|j: int|
            0 <= j < r@.len() ==> (#[trigger] r@[j])@.len() == inp@.len() && forall|i: int|
                0 <= i < inp@.len() ==> r@[j]@[i] == inp@[i]@[j],
{
    if inp.len() == 0 || inp[0].len() == 0 {
        return Vec::new();
    }
    let row_count = inp.len();
    let col_count = inp[0].len();
    let ghost orig = inp@;
    let mut transposed: Vec<Vec<C>> = Vec::with_capacity(col_count);
    let mut j: usize = 0;
    while j < col_count
        invariant
            j <= col_count,
            transposed@.len() == j,
            forall|k: int| 0 <= k < j ==> (#[trigger] transposed@[k])@.len() == 0,
        decreases col_count - j,
    {
        transposed.push(Vec::with_capacity(row_count));
        j += 1;
    }
    let mut rows = inp;
    let mut i: usize = 0;
    while i < row_count
        invariant
            row_count == orig.len(),
            col_count == orig[0]@.len(),
            forall|a: int| 0 <= a < orig.len() ==> (#[trigger] orig[a])@.len() == col_count,
            i <= row_count,
            rows@ == orig.subrange(i as int, row_count as int),
            transposed@.len() == col_count,
            forall|k: int|
                0 <= k < col_count ==> (#[trigger] transposed@[k])@.len() == i && forall|a: int|
                    0 <= a < i ==> transposed@[k]@[a] == orig[a]@[k],
        decreases row_count - i,
    {
        let mut row = rows.remove(0);
        let ghost orig_row = row@;
        assert(orig_row == orig[i as int]@);
        let mut c: usize = 0;
        while c < col_count
            invariant
                col_count == orig_row.len(),
                c <= col_count,
                row@ == orig_row.subrange(c as int, col_count as int),
                transposed@.len() == col_count,
                forall|k: int|
                    0 <= k < col_count ==> (#[trigger] transposed@[k])@.len() == if k < c {
                        i + 1
                    } else {
                        i as int
                    } && forall|a: int|
                        0 <= a < i ==> transposed@[k]@[a] == orig[a]@[k],
                forall|k: int| 0 <= k < c ==> (#[trigger] transposed@[k])@[i as int] == orig_row[k],
            decreases col_count - c,
        {
            let v = row.remove(0);
            transposed[c].push(v);
            c += 1;
            assert(row@ =~= orig_row.subrange(c as int, col_count as int));
        }
        i += 1;
        assert(rows@ =~= orig.subrange(i as int, row_count as int));
    }
    transposed
}

} // verus!
