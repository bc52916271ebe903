//! Mathematical vocabulary for byte buffers seen as bit strings.
use vstd::prelude::*;

verus! {

/// Number of bytes needed to hold `n` bits.
pub open spec fn ceil8(n: nat) -> nat {
    ((n + 7) / 8) as nat
}

/// `n` rounded up to the next multiple of 32.
pub open spec fn align32(n: nat) -> nat {
    if n % 32 == 0 {
        n
    } else {
        (n + (32 - n % 32)) as nat
    }
}

/// Bit `j` (0 = least significant) of the byte `b`.
pub open spec fn byte_bit(b: u8, j: int) -> bool {
    (b >> (j as u8)) & 1u8 == 1u8
}

/// Bit `i` of a byte string, least significant bit of byte 0 first.
pub open spec fn seq_bit(s: Seq<u8>, i: int) -> bool {
    byte_bit(s[i / 8], i % 8)
}

/// Bytewise xor of two byte strings, as long as the first one.
pub open spec fn bytes_xor(a: Seq<u8>, b: Seq<u8>) -> Seq<u8> {
    Seq::new(a.len(), |i: int| a[i] ^ b[i])
}

/// Bytewise and of two byte strings, as long as the first one.
pub open spec fn bytes_and(a: Seq<u8>, b: Seq<u8>) -> Seq<u8> {
    Seq::new(a.len(), |i: int| a[i] & b[i])
}

/// Xor of all bytes of a byte string.
pub open spec fn fold_xor(s: Seq<u8>) -> u8
    decreases s.len(),
{
    if s.len() == 0 {
        0u8
    } else {
        fold_xor(s.drop_last()) ^ s.last()
    }
}

/// Xor is associative and commutative with zero as unit, and `and` with a byte distributes
/// over it.
pub proof fn lemma_xor_laws(a: u8, b: u8, c: u8)
    by (bit_vector)
    ensures
        (a ^ b) ^ c == a ^ (b ^ c),
        a ^ b == b ^ a,
        a ^ 0u8 == a,
        0u8 ^ a == a,
        a & 0u8 == 0u8,
        (c & a) ^ (c & b) == c & (a ^ b),
        a & b == b & a,
{
}

/// Xor of a sequence of bits.
pub open spec fn xor_bools(s: Seq<bool>) -> bool
    decreases s.len(),
{
    if s.len() == 0 {
        false
    } else {
        xor_bools(s.drop_last()) != s.last()
    }
}

/// Bit `j` of the xor-fold of some bytes is the xor of their bits `j`.
pub proof fn lemma_fold_xor_bit(s: Seq<u8>, j: u8)
    requires
        j < 8,
    ensures
        byte_bit(fold_xor(s), j as int) == xor_bools(Seq::new(s.len(), |p: int| byte_bit(s[p], j as int))),
    decreases s.len(),
{
    let bits = Seq::new(s.len(), |p: int| byte_bit(s[p], j as int));
    if s.len() == 0 {
        assert(((0u8 >> j) & 1u8) == 0u8) by (bit_vector);
    } else {
        lemma_fold_xor_bit(s.drop_last(), j);
        assert(bits.drop_last() =~= Seq::new(s.drop_last().len(), |p: int| byte_bit(s.drop_last()[p], j as int)));
        lemma_byte_ops(fold_xor(s.drop_last()), s.last(), j);
    }
}

/// Whether a byte has an odd number of one bits.
pub open spec fn byte_parity(b: u8) -> bool {
    ((b ^ (b >> 1u8) ^ (b >> 2u8) ^ (b >> 3u8) ^ (b >> 4u8) ^ (b >> 5u8) ^ (b >> 6u8) ^ (b
        >> 7u8)) & 1u8) == 1u8
}

/// Whether a byte string has an odd number of one bits.
pub open spec fn seq_parity(s: Seq<u8>) -> bool {
    byte_parity(fold_xor(s))
}

pub proof fn lemma_align32(n: nat)
    ensures
        n <= align32(n),
        align32(n) < n + 32,
        align32(n) % 32 == 0,
        n == 0 ==> align32(n) == 0,
{
}

pub proof fn lemma_ceil8(n: nat)
    ensures
        n <= ceil8(n) * 8,
        ceil8(n) * 8 < n + 8,
        n % 8 == 0 ==> ceil8(n) * 8 == n,
{
}

/// Two bytes with the same eight bits are equal.
pub proof fn lemma_byte_ext(a: u8, b: u8)
    requires
        forall|j: int| 0 <= j < 8 ==> byte_bit(a, j) == byte_bit(b, j),
    ensures
        a == b,
{
    assert(byte_bit(a, 0) == byte_bit(b, 0));
    assert(byte_bit(a, 1) == byte_bit(b, 1));
    assert(byte_bit(a, 2) == byte_bit(b, 2));
    assert(byte_bit(a, 3) == byte_bit(b, 3));
    assert(byte_bit(a, 4) == byte_bit(b, 4));
    assert(byte_bit(a, 5) == byte_bit(b, 5));
    assert(byte_bit(a, 6) == byte_bit(b, 6));
    assert(byte_bit(a, 7) == byte_bit(b, 7));
    assert(a == b) by (bit_vector)
        requires
            (a >> 0u8) & 1u8 == 1u8 <==> (b >> 0u8) & 1u8 == 1u8,
            (a >> 1u8) & 1u8 == 1u8 <==> (b >> 1u8) & 1u8 == 1u8,
            (a >> 2u8) & 1u8 == 1u8 <==> (b >> 2u8) & 1u8 == 1u8,
            (a >> 3u8) & 1u8 == 1u8 <==> (b >> 3u8) & 1u8 == 1u8,
            (a >> 4u8) & 1u8 == 1u8 <==> (b >> 4u8) & 1u8 == 1u8,
            (a >> 5u8) & 1u8 == 1u8 <==> (b >> 5u8) & 1u8 == 1u8,
            (a >> 6u8) & 1u8 == 1u8 <==> (b >> 6u8) & 1u8 == 1u8,
            (a >> 7u8) & 1u8 == 1u8 <==> (b >> 7u8) & 1u8 == 1u8,
    ;
}

/// Setting and clearing one bit of a byte leaves the other bits alone.
pub proof fn lemma_byte_set_clear(b: u8, k: u8, j: u8)
    requires
        k < 8,
        j < 8,
    ensures
        byte_bit(b | (1u8 << k), j as int) == (j == k || byte_bit(b, j as int)),
        byte_bit(b & !(1u8 << k), j as int) == (j != k && byte_bit(b, j as int)),
        byte_bit(b & (1u8 << k), j as int) == (j == k && byte_bit(b, j as int)),
{
    assert(((b | (1u8 << k)) >> j) & 1u8 == 1u8 <==> (j == k || (b >> j) & 1u8 == 1u8))
        by (bit_vector)
        requires
            k < 8,
            j < 8,
    ;
    assert(((b & !(1u8 << k)) >> j) & 1u8 == 1u8 <==> (j != k && (b >> j) & 1u8 == 1u8))
        by (bit_vector)
        requires
            k < 8,
            j < 8,
    ;
    assert(((b & (1u8 << k)) >> j) & 1u8 == 1u8 <==> (j == k && (b >> j) & 1u8 == 1u8))
        by (bit_vector)
        requires
            k < 8,
            j < 8,
    ;
}

/// Bits of the xor and the and of two bytes.
pub proof fn lemma_byte_ops(a: u8, b: u8, j: u8)
    requires
        j < 8,
    ensures
        byte_bit(a ^ b, j as int) == (byte_bit(a, j as int) != byte_bit(b, j as int)),
        byte_bit(a & b, j as int) == (byte_bit(a, j as int) && byte_bit(b, j as int)),
{
    assert(((a ^ b) >> j) & 1u8 == 1u8 <==> (((a >> j) & 1u8 == 1u8) != ((b >> j) & 1u8
        == 1u8))) by (bit_vector)
        requires
            j < 8,
    ;
    assert(((a & b) >> j) & 1u8 == 1u8 <==> (((a >> j) & 1u8 == 1u8) && ((b >> j) & 1u8
        == 1u8))) by (bit_vector)
        requires
            j < 8,
    ;
}

/// Parity is linear under xor.
pub proof fn lemma_parity_xor(a: u8, b: u8)
    ensures
        byte_parity(a ^ b) == (byte_parity(a) != byte_parity(b)),
        !byte_parity(0u8),
{
    assert(((((a ^ b) ^ ((a ^ b) >> 1u8) ^ ((a ^ b) >> 2u8) ^ ((a ^ b) >> 3u8) ^ ((a ^ b)
        >> 4u8) ^ ((a ^ b) >> 5u8) ^ ((a ^ b) >> 6u8) ^ ((a ^ b) >> 7u8)) & 1u8) == 1u8) <==> (
    (((a ^ (a >> 1u8) ^ (a >> 2u8) ^ (a >> 3u8) ^ (a >> 4u8) ^ (a >> 5u8) ^ (a >> 6u8) ^ (a
        >> 7u8)) & 1u8) == 1u8) != (((b ^ (b >> 1u8) ^ (b >> 2u8) ^ (b >> 3u8) ^ (b >> 4u8) ^ (b
        >> 5u8) ^ (b >> 6u8) ^ (b >> 7u8)) & 1u8) == 1u8))) by (bit_vector);
    assert(((0u8 ^ (0u8 >> 1u8) ^ (0u8 >> 2u8) ^ (0u8 >> 3u8) ^ (0u8 >> 4u8) ^ (0u8 >> 5u8)
        ^ (0u8 >> 6u8) ^ (0u8 >> 7u8)) & 1u8) == 0u8) by (bit_vector);
}

/// The parity of a byte with a single possibly-set bit is that bit.
pub proof fn lemma_parity_single_bit(b: u8, k: u8)
    requires
        k < 8,
    ensures
        byte_parity(b & (1u8 << k)) == byte_bit(b, k as int),
{
    let c = b & (1u8 << k);
    assert(((c ^ (c >> 1u8) ^ (c >> 2u8) ^ (c >> 3u8) ^ (c >> 4u8) ^ (c >> 5u8) ^ (c >> 6u8)
        ^ (c >> 7u8)) & 1u8 == 1u8) <==> ((b >> k) & 1u8 == 1u8)) by (bit_vector)
        requires
            k < 8,
            c == b & (1u8 << k),
    ;
}

/// Xor-folding distributes over a bytewise xor.
pub proof fn lemma_fold_xor_xor(a: Seq<u8>, b: Seq<u8>)
    requires
        a.len() == b.len(),
    ensures
        fold_xor(bytes_xor(a, b)) == fold_xor(a) ^ fold_xor(b),
    decreases a.len(),
{
    if a.len() > 0 {
        let n = a.len() - 1;
        assert(bytes_xor(a, b).drop_last() =~= bytes_xor(a.drop_last(), b.drop_last()));
        lemma_fold_xor_xor(a.drop_last(), b.drop_last());
        let (x, y, u, v) = (fold_xor(a.drop_last()), fold_xor(b.drop_last()), a.last(), b.last());
        assert((x ^ y) ^ (u ^ v) == (x ^ u) ^ (y ^ v)) by (bit_vector);
    } else {
        lemma_xor_laws(0u8, 0u8, 0u8);
    }
}

/// Xor-folding a string of zero bytes gives zero.
pub proof fn lemma_fold_xor_zeros(s: Seq<u8>)
    requires
        forall|i: int| 0 <= i < s.len() ==> s[i] == 0u8,
    ensures
        fold_xor(s) == 0u8,
    decreases s.len(),
{
    if s.len() > 0 {
        lemma_fold_xor_zeros(s.drop_last());
        lemma_xor_laws(0u8, 0u8, 0u8);
    }
}

/// Xor-folding a string with one possibly nonzero byte gives that byte.
pub proof fn lemma_fold_xor_single(s: Seq<u8>, k: int)
    requires
        0 <= k < s.len(),
        forall|i: int| 0 <= i < s.len() && i != k ==> s[i] == 0u8,
    ensures
        fold_xor(s) == s[k],
    decreases s.len(),
{
    let t = s.drop_last();
    if k == s.len() - 1 {
        lemma_fold_xor_zeros(t);
        let x = s[k];
        assert(0u8 ^ x == x) by (bit_vector);
    } else {
        lemma_fold_xor_single(t, k);
        let x = s[k];
        lemma_xor_laws(x, 0u8, 0u8);
    }
}

/// Folding the xor of the prefix of length `i + 1`.
pub proof fn lemma_fold_xor_push(s: Seq<u8>, i: int)
    requires
        0 <= i < s.len(),
    ensures
        fold_xor(s.take(i + 1)) == fold_xor(s.take(i)) ^ s[i],
{
    assert(s.take(i + 1).drop_last() =~= s.take(i));
}

} // verus!
