//! Bit arrays with chunk-wise bitwise operations for boolean secret sharing.
use vstd::prelude::*;
use crate::rng::{chacha8_fill, fill_draws, random_bytes, Draw, SeededRng};
use crate::simd_array::aligned_array::{AU8Array, len_fits};
use crate::simd_array::bit_spec::{
    lemma_xor_laws, align32, byte_bit, byte_parity, bytes_and, bytes_xor, ceil8, fold_xor, lemma_byte_ops,
    lemma_byte_set_clear, lemma_ceil8, lemma_fold_xor_push, seq_bit, seq_parity,
};

verus! {

/// A bit array stored in whole 32-byte chunks. Bit `i` is bit `i % 8` of byte `i / 8`.
/// The bitwise operations run over whole chunks, padding included.
#[derive(Debug)]
pub struct BitArray {
    data: AU8Array,
    bit_size: usize,
    byte_size: usize,
}

/// The byte `b` with bit `k` set to `v`.
pub open spec fn set_byte_bit(b: u8, k: int, v: bool) -> u8 {
    if v {
        b | (1u8 << (k as u8))
    } else {
        b & !(1u8 << (k as u8))
    }
}

/// A string of `n` zero bytes.
pub open spec fn zeros(n: nat) -> Seq<u8> {
    Seq::new(n, |i: int| 0u8)
}

/// Xor of a byte string with the storage of each array of `s`, in order.
pub open spec fn xor_fold_arrays(acc: Seq<u8>, s: Seq<BitArray>) -> Seq<u8>
    decreases s.len(),
{
    if s.len() == 0 {
        acc
    } else {
        bytes_xor(xor_fold_arrays(acc, s.drop_last()), s.last().buf())
    }
}

/// Xor folds read only the storage of the arrays.
pub proof fn lemma_xor_fold_same_bufs(acc: Seq<u8>, s: Seq<BitArray>, t: Seq<BitArray>)
    requires
        s.len() == t.len(),
        forall|i: int| 0 <= i < s.len() ==> (#[trigger] s[i]).buf() == t[i].buf(),
    ensures
        xor_fold_arrays(acc, s) == xor_fold_arrays(acc, t),
    decreases s.len(),
{
    if s.len() > 0 {
        lemma_xor_fold_same_bufs(acc, s.drop_last(), t.drop_last());
    }
}

/// An array of `n` bits and its padded storage fit the machine's sizes.
pub open spec fn bits_fit(n: nat) -> bool {
    len_fits(ceil8(n)) && ceil8(n) * 8 <= usize::MAX
}

/// All arrays of `s` are well formed and hold `n` bits.
pub open spec fn all_sized(s: Seq<BitArray>, n: nat) -> bool {
    forall|i: int| 0 <= i < s.len() ==> (#[trigger] s[i]).wf() && s[i].nbits() == n
}

impl BitArray {
    /// Number of bits.
    pub closed spec fn nbits(&self) -> nat {
        self.bit_size as nat
    }

    /// Number of content bytes.
    pub closed spec fn nbytes(&self) -> nat {
        self.byte_size as nat
    }

    /// The whole storage, padding included.
    pub closed spec fn buf(&self) -> Seq<u8> {
        self.data.padded()
    }

    /// The content bytes.
    pub open spec fn bytes(&self) -> Seq<u8> {
        self.buf().take(self.nbytes() as int)
    }

    /// Bit `i` of the storage.
    pub open spec fn bit(&self, i: int) -> bool {
        seq_bit(self.buf(), i)
    }

    /// The bits of the array.
    pub open spec fn bits(&self) -> Seq<bool> {
        Seq::new(self.nbits(), |i: int| self.bit(i))
    }

    /// The padding beyond the content bytes is zero.
    pub open spec fn zero_padded(&self) -> bool {
        forall|i: int| self.nbytes() <= i < self.buf().len() ==> self.buf()[i] == 0u8
    }

    /// The content takes the fewest bytes that hold the bits, and the storage is the
    /// content rounded up to whole chunks.
    pub closed spec fn wf(&self) -> bool {
        &&& self.data.wf()
        &&& self.data.size() == self.byte_size
        &&& self.byte_size == ceil8(self.bit_size as nat)
        &&& bits_fit(self.bit_size as nat)
    }

    pub proof fn lemma_wf(&self)
        requires
            self.wf(),
        ensures
            self.nbytes() == ceil8(self.nbits()),
            self.buf().len() == align32(self.nbytes()),
            self.nbits() <= self.nbytes() * 8,
            self.nbytes() * 8 < self.nbits() + 8,
            self.nbytes() <= self.buf().len(),
            self.buf().len() < self.nbytes() + 32,
            len_fits(self.nbytes()),
            bits_fit(self.nbits()),
            self.nbytes() * 8 <= usize::MAX,
    {
        self.data.lemma_wf();
        lemma_ceil8(self.nbits());
    }

    /// Two well formed arrays of the same number of bits have storages of the same length.
    pub proof fn lemma_same_layout(a: &BitArray, b: &BitArray)
        requires
            a.wf(),
            b.wf(),
            a.nbits() == b.nbits(),
        ensures
            a.buf().len() == b.buf().len(),
            a.nbytes() == b.nbytes(),
    {
        a.lemma_wf();
        b.lemma_wf();
    }

    /// Two well formed, zero padded arrays of the same number of bits with the same content
    /// bytes have the same storage.
    pub proof fn lemma_same_content(a: &BitArray, b: &BitArray)
        requires
            a.wf(),
            b.wf(),
            a.nbits() == b.nbits(),
            a.zero_padded(),
            b.zero_padded(),
            a.bytes() == b.bytes(),
        ensures
            a.buf() == b.buf(),
    {
        a.lemma_wf();
        b.lemma_wf();
        assert(a.nbytes() == b.nbytes());
        assert(a.buf().len() == b.buf().len());
        assert forall|i: int| 0 <= i < a.buf().len() implies a.buf()[i] == b.buf()[i] by {
            if i < a.nbytes() {
                assert(a.bytes()[i] == a.buf()[i]);
                assert(b.bytes()[i] == b.buf()[i]);
            } else {
                assert(a.buf()[i] == 0u8);
                assert(b.buf()[i] == 0u8);
            }
        }
        assert(a.buf() =~= b.buf());
    }

    /// The storage of a well formed, zero padded array is its content bytes followed by zero
    /// bytes up to whole chunks.
    pub proof fn lemma_zero_padded_buf(&self)
        requires
            self.wf(),
            self.zero_padded(),
        ensures
            self.buf() == self.bytes() + zeros((align32(self.nbytes()) - self.nbytes()) as nat),
    {
        self.lemma_wf();
        assert(self.buf() =~= self.bytes() + zeros((align32(self.nbytes()) - self.nbytes()) as nat));
    }

    fn bytes_for(bit_size: usize) -> (r: usize)
        ensures
            r == ceil8(bit_size as nat),
    {
        bit_size / 8 + if bit_size % 8 != 0 {
            1
        } else {
            0
        }
    }

    /// Whether an array of `bit_size` bits fits the machine's sizes.
    pub fn size_fits(bit_size: usize) -> (r: bool)
        ensures
            r == bits_fit(bit_size as nat),
    {
        let b = Self::bytes_for(bit_size);
        b <= (isize::MAX as usize) - 32 && b <= usize::MAX / 8
    }

    /// A zero-filled array of `bit_size` bits.
    pub fn new(bit_size: usize) -> (r: Self)
        requires
            bit_size > 0,
            bits_fit(bit_size as nat),
        ensures
            r.wf(),
            r.nbits() == bit_size,
            r.buf() == zeros(align32(ceil8(bit_size as nat))),
    {
        let byte_size = Self::bytes_for(bit_size);
        BitArray { data: AU8Array::new(byte_size), bit_size, byte_size }
    }

    /// An array of `bit_size` bits filled with ones (whole bytes of 0xFF, padding included).
    pub fn ones(bit_size: usize) -> (r: Self)
        requires
            bit_size > 0,
            bits_fit(bit_size as nat),
        ensures
            r.wf(),
            r.nbits() == bit_size,
            r.buf() == Seq::new(align32(ceil8(bit_size as nat)), |i: int| 0xFFu8),
    {
        let byte_size = Self::bytes_for(bit_size);
        BitArray { data: AU8Array::ones(byte_size), bit_size, byte_size }
    }

    /// An array of `bit_size` bits whose bytes are the first bytes of `src`.
    pub fn from_byte_slice(src: &[u8], bit_size: usize) -> (r: Self)
        requires
            src@.len() >= ceil8(bit_size as nat),
            bits_fit(bit_size as nat),
        ensures
            r.wf(),
            r.nbits() == bit_size,
            r.bytes() == src@.take(ceil8(bit_size as nat) as int),
            r.zero_padded(),
    {
        let byte_size = Self::bytes_for(bit_size);
        let part = vstd::slice::slice_subrange(src, 0, byte_size);
        let data = AU8Array::from_slice(part);
        let r = BitArray { data, bit_size, byte_size };
        proof {
            r.data.lemma_wf();
        }
        r
    }

    /// A random array of `bit_size` bits drawn from ChaCha8 seeded with `seed`.
    pub fn from_seed(bit_size: usize, seed: [u8; 32]) -> (r: Self)
        requires
            bit_size > 0,
            bits_fit(bit_size as nat),
        ensures
            r.wf(),
            r.nbits() == bit_size,
            r.zero_padded(),
            r.bytes() == chacha8_fill(seed@, Seq::<Draw>::empty(), ceil8(bit_size as nat)),
    {
        let mut rng = SeededRng::from_seed(seed);
        Self::random(bit_size, &mut rng)
    }

    /// A random array of `bit_size` bits drawn from `rng`; the padding is zero.
    pub fn random(bit_size: usize, rng: &mut SeededRng) -> (r: Self)
        requires
            bit_size > 0,
            bits_fit(bit_size as nat),
        ensures
            r.wf(),
            r.nbits() == bit_size,
            r.zero_padded(),
            r.bytes() == chacha8_fill(old(rng).seed(), old(rng).draws(), ceil8(bit_size as nat)),
            final(rng).seed() == old(rng).seed(),
            final(rng).draws() == old(rng).draws().push(Draw::Fill(ceil8(bit_size as nat) as usize)),
    {
        let byte_size = Self::bytes_for(bit_size);
        let bytes = random_bytes(rng, byte_size);
        let data = AU8Array::from_slice(bytes.as_slice());
        let r = BitArray { data, bit_size, byte_size };
        proof {
            r.data.lemma_wf();
        }
        r
    }

    /// Sets bit `index` to `value`.
    pub fn set_bit(&mut self, index: usize, value: bool)
        requires
            old(self).wf(),
            index < old(self).nbits(),
        ensures
            final(self).wf(),
            final(self).nbits() == old(self).nbits(),
            final(self).buf() == old(self).buf().update(
                (index / 8) as int,
                set_byte_bit(old(self).buf()[(index / 8) as int], (index % 8) as int, value),
            ),
    {
        proof {
            self.lemma_wf();
        }
        let k: usize = index / 8;
        let s: u8 = (index % 8) as u8;
        let b = self.data.get(k);
        if value {
            self.data.set(k, b | (1u8 << s));
        } else {
            self.data.set(k, b & !(1u8 << s));
        }
    }

    /// The value of bit `index`.
    pub fn get(&self, index: usize) -> (r: bool)
        requires
            self.wf(),
            index < self.nbits(),
        ensures
            r == self.bit(index as int),
    {
        proof {
            self.lemma_wf();
        }
        let s: u8 = (index % 8) as u8;
        let b = self.data.get(index / 8);
        proof {
            lemma_bit_test(b, s);
        }
        (b & (1u8 << s)) != 0
    }

    /// The content bytes.
    pub fn get_inner_memref(&self) -> (r: &[u8])
        requires
            self.wf(),
        ensures
            r@ == self.bytes(),
    {
        self.data.as_ref()
    }

    /// Number of bits.
    pub fn bit_size(&self) -> (r: usize)
        ensures
            r == self.nbits(),
    {
        self.bit_size
    }

    /// Number of content bytes.
    pub fn byte_size(&self) -> (r: usize)
        ensures
            r == self.nbytes(),
    {
        self.byte_size
    }


    /// Writes the bits of `source` into this array from bit `at_bit` on; the other bits
    /// keep their value. Byte-aligned copies move whole bytes, others go bit by bit.
    pub fn copy_from(&mut self, at_bit: usize, source: &BitArray)
        requires
            old(self).wf(),
            source.wf(),
            at_bit + source.nbits() <= old(self).nbits(),
        ensures
            final(self).wf(),
            final(self).nbits() == old(self).nbits(),
            final(self).buf().len() == old(self).buf().len(),
            forall|j: int|
                0 <= j < old(self).buf().len() * 8 ==> #[trigger] seq_bit(final(self).buf(), j) == if at_bit
                    <= j < at_bit + source.nbits() {
                    source.bit(j - at_bit)
                } else {
                    seq_bit(old(self).buf(), j)
                },
    {
        proof {
            self.lemma_wf();
            source.lemma_wf();
        }
        let ghost old_buf = self.buf();
        if (at_bit % 8 != 0) || (source.bit_size % 8 != 0) {
            let n = source.bit_size;
            let mut i: usize = 0;
            while i < n
                invariant
                    self.wf(),
                    source.wf(),
                    n == source.nbits(),
                    at_bit + n <= self.nbits(),
                    self.nbits() == old(self).nbits(),
                    i <= n,
                    self.buf().len() == old_buf.len(),
                    old_buf == old(self).buf(),
                    forall|j: int|
                        0 <= j < old_buf.len() * 8 ==> #[trigger] seq_bit(self.buf(), j) == if at_bit
                            <= j < at_bit + i {
                            source.bit(j - at_bit)
                        } else {
                            seq_bit(old_buf, j)
                        },
                decreases n - i,
            {
                let v = source.get(i);
                let ghost before = self.buf();
                proof {
                    self.lemma_wf();
                }
                self.set_bit(i + at_bit, v);
                proof {
                    assert forall|j: int| 0 <= j < old_buf.len() * 8 implies #[trigger] seq_bit(
                        self.buf(),
                        j,
                    ) == if at_bit <= j < at_bit + i + 1 {
                        source.bit(j - at_bit)
                    } else {
                        seq_bit(old_buf, j)
                    } by {
                        lemma_set_bit_bits(before, (i + at_bit) as int, v, j);
                    }
                }
                i += 1;
            }
            return;
        }
        let start = at_bit / 8;
        let nb = source.byte_size;
        let mut k: usize = 0;
        while k < nb
            invariant
                self.wf(),
                source.wf(),
                self.nbits() == old(self).nbits(),
                nb == source.nbytes(),
                nb * 8 == source.nbits(),
                start * 8 == at_bit,
                start + nb <= self.nbytes(),
                self.nbytes() <= self.buf().len(),
                nb <= source.buf().len(),
                k <= nb,
                self.buf().len() == old_buf.len(),
                old_buf == old(self).buf(),
                forall|m: int|
                    0 <= m < old_buf.len() ==> #[trigger] self.buf()[m] == if start <= m < start + k {
                        source.buf()[m - start]
                    } else {
                        old_buf[m]
                    },
            decreases nb - k,
        {
            let b = source.data.get(k);
            self.data.set(start + k, b);
            k += 1;
        }
        proof {
            assert forall|j: int| 0 <= j < old_buf.len() * 8 implies #[trigger] seq_bit(self.buf(), j) == if at_bit
                <= j < at_bit + source.nbits() {
                source.bit(j - at_bit)
            } else {
                seq_bit(old_buf, j)
            } by {
                let m = j / 8;
                if at_bit <= j < at_bit + source.nbits() {
                    assert((j - at_bit) / 8 == m - start);
                    assert((j - at_bit) % 8 == j % 8);
                } else {
                    assert(!(start <= m < start + nb));
                }
            }
        }
    }

    /// Reduces the number of bits to `partial_bit_size`; only the last byte may become
    /// partial, so the byte count is unchanged.
    pub fn shrink_to_partial_last_byte(&mut self, partial_bit_size: usize)
        requires
            old(self).wf(),
            partial_bit_size <= old(self).nbits(),
            partial_bit_size + 8 > old(self).nbits(),
            ceil8(partial_bit_size as nat) == old(self).nbytes(),
        ensures
            final(self).wf(),
            final(self).nbits() == partial_bit_size,
            final(self).nbytes() == old(self).nbytes(),
            final(self).buf() == old(self).buf(),
    {
        if self.bit_size == partial_bit_size {
            return;
        }
        proof {
            self.lemma_wf();
            lemma_ceil8(partial_bit_size as nat);
        }
        self.bit_size = partial_bit_size;
    }

    /// A new array holding bytes `[st_byte, end_byte)` of this one, with zero padding.
    pub fn to_slice(&self, st_byte: usize, end_byte: usize) -> (r: BitArray)
        requires
            self.wf(),
            st_byte <= end_byte <= self.nbytes(),
        ensures
            r.wf(),
            r.nbits() == (end_byte - st_byte) * 8,
            r.bytes() == self.bytes().subrange(st_byte as int, end_byte as int),
            r.zero_padded(),
    {
        proof {
            self.lemma_wf();
        }
        let all = self.data.as_ref();
        let part = vstd::slice::slice_subrange(all, st_byte, end_byte);
        let n = end_byte - st_byte;
        let r = BitArray { data: AU8Array::from_slice(part), bit_size: n * 8, byte_size: n };
        proof {
            r.data.lemma_wf();
            assert(r.bytes() =~= self.bytes().subrange(st_byte as int, end_byte as int));
        }
        r
    }

    /// Sets this array to the bitwise and of `a` and `b`, chunk by chunk.
    pub fn mut_and(&mut self, a: &BitArray, b: &BitArray)
        requires
            old(self).wf(),
            a.wf(),
            b.wf(),
            a.nbits() == b.nbits(),
            a.nbits() == old(self).nbits(),
        ensures
            final(self).wf(),
            final(self).nbits() == old(self).nbits(),
            final(self).buf() == bytes_and(a.buf(), b.buf()),
    {
        proof {
            BitArray::lemma_same_layout(a, b);
            BitArray::lemma_same_layout(a, self);
        }
        let n = self.data.aligned_len();
        let mut i: usize = 0;
        while i < n
            invariant
                self.wf(),
                a.wf(),
                b.wf(),
                self.nbits() == old(self).nbits(),
                n == self.buf().len(),
                n == a.buf().len(),
                n == b.buf().len(),
                i <= n,
                forall|k: int| 0 <= k < i ==> #[trigger] self.buf()[k] == a.buf()[k] & b.buf()[k],
            decreases n - i,
        {
            let v = a.data.get(i) & b.data.get(i);
            self.data.set(i, v);
            i += 1;
        }
        assert(self.buf() =~= bytes_and(a.buf(), b.buf()));
    }

    /// Bitwise and with `other`, in place, chunk by chunk.
    pub fn inplace_and(&mut self, other: &BitArray)
        requires
            old(self).wf(),
            other.wf(),
            old(self).nbits() == other.nbits(),
        ensures
            final(self).wf(),
            final(self).nbits() == old(self).nbits(),
            final(self).buf() == bytes_and(old(self).buf(), other.buf()),
    {
        proof {
            BitArray::lemma_same_layout(self, other);
        }
        let ghost old_buf = self.buf();
        let n = self.data.aligned_len();
        let mut i: usize = 0;
        while i < n
            invariant
                self.wf(),
                other.wf(),
                self.nbits() == old(self).nbits(),
                old_buf == old(self).buf(),
                n == self.buf().len(),
                n == other.buf().len(),
                n == old_buf.len(),
                i <= n,
                forall|k: int|
                    0 <= k < n ==> #[trigger] self.buf()[k] == if k < i {
                        old_buf[k] & other.buf()[k]
                    } else {
                        old_buf[k]
                    },
            decreases n - i,
        {
            let v = self.data.get(i) & other.data.get(i);
            self.data.set(i, v);
            i += 1;
        }
        assert(self.buf() =~= bytes_and(old_buf, other.buf()));
    }

    /// Bitwise xor with `other`, in place, chunk by chunk.
    pub fn inplace_xor(&mut self, other: &BitArray)
        requires
            old(self).wf(),
            other.wf(),
            old(self).nbits() == other.nbits(),
        ensures
            final(self).wf(),
            final(self).nbits() == old(self).nbits(),
            final(self).buf() == bytes_xor(old(self).buf(), other.buf()),
    {
        proof {
            BitArray::lemma_same_layout(self, other);
        }
        let ghost old_buf = self.buf();
        let n = self.data.aligned_len();
        let mut i: usize = 0;
        while i < n
            invariant
                self.wf(),
                other.wf(),
                self.nbits() == old(self).nbits(),
                old_buf == old(self).buf(),
                n == self.buf().len(),
                n == other.buf().len(),
                n == old_buf.len(),
                i <= n,
                forall|k: int|
                    0 <= k < n ==> #[trigger] self.buf()[k] == if k < i {
                        old_buf[k] ^ other.buf()[k]
                    } else {
                        old_buf[k]
                    },
            decreases n - i,
        {
            let v = self.data.get(i) ^ other.data.get(i);
            self.data.set(i, v);
            i += 1;
        }
        assert(self.buf() =~= bytes_xor(old_buf, other.buf()));
    }

    /// Whether the storage holds an odd number of one bits.
    pub fn parity(&self) -> (r: bool)
        requires
            self.wf(),
        ensures
            r == seq_parity(self.buf()),
    {
        let n = self.data.aligned_len();
        let mut acc: u8 = 0;
        let mut i: usize = 0;
        while i < n
            invariant
                self.wf(),
                n == self.buf().len(),
                i <= n,
                acc == fold_xor(self.buf().take(i as int)),
            decreases n - i,
        {
            proof {
                lemma_fold_xor_push(self.buf(), i as int);
            }
            acc = acc ^ self.data.get(i);
            i += 1;
        }
        assert(self.buf().take(n as int) =~= self.buf());
        byte_parity_exec(acc)
    }

    /// Xors every share into this array, in order.
    pub fn inplace_reconstruct(&mut self, shares: &[BitArray])
        requires
            old(self).wf(),
            shares@.len() > 0,
            all_sized(shares@, old(self).nbits()),
        ensures
            final(self).wf(),
            final(self).nbits() == old(self).nbits(),
            final(self).buf() == xor_fold_arrays(old(self).buf(), shares@),
    {
        let ghost old_buf = self.buf();
        let mut i: usize = 0;
        while i < shares.len()
            invariant
                self.wf(),
                self.nbits() == old(self).nbits(),
                old_buf == old(self).buf(),
                all_sized(shares@, old(self).nbits()),
                i <= shares@.len(),
                self.buf() == xor_fold_arrays(old_buf, shares@.take(i as int)),
            decreases shares@.len() - i,
        {
            proof {
                assert(shares@.take(i + 1).drop_last() =~= shares@.take(i as int));
            }
            self.inplace_xor(&shares[i]);
            i += 1;
        }
        assert(shares@.take(shares@.len() as int) =~= shares@);
    }

    /// Reconstructs a boolean-shared array: the last share xored with all the others.
    pub fn reconstruct(shares: Vec<BitArray>) -> (r: BitArray)
        requires
            shares@.len() > 0,
            all_sized(shares@, shares@.last().nbits()),
        ensures
            r.wf(),
            r.nbits() == shares@.last().nbits(),
            r.buf() == xor_fold_arrays(shares@.last().buf(), shares@.drop_last()),
    {
        let ghost s = shares@;
        let mut shares = shares;
        let mut rec = shares.pop().unwrap();
        assert(shares@ =~= s.drop_last());
        let ghost start = rec.buf();
        let mut i: usize = 0;
        while i < shares.len()
            invariant
                rec.wf(),
                s.len() > 0,
                rec.nbits() == s.last().nbits(),
                shares@ == s.drop_last(),
                all_sized(s, s.last().nbits()),
                start == s.last().buf(),
                i <= shares@.len(),
                rec.buf() == xor_fold_arrays(start, shares@.take(i as int)),
            decreases shares@.len() - i,
        {
            proof {
                assert(shares@.take(i + 1).drop_last() =~= shares@.take(i as int));
                assert(shares@[i as int] == s[i as int]);
            }
            rec.inplace_xor(&shares[i]);
            i += 1;
        }
        assert(shares@.take(shares@.len() as int) =~= shares@);
        rec
    }

    /// Boolean secret sharing in place: draws `party_num - 1` random arrays, xors them into
    /// this array (which becomes this party's share) and returns them.
    pub fn inplace_secret_share(&mut self, party_num: usize, rng: &mut SeededRng) -> (r: Vec<
        BitArray,
    >)
        requires
            old(self).wf(),
            old(self).nbits() > 0,
            party_num >= 2,
        ensures
            r@.len() == party_num - 1,
            all_sized(r@, old(self).nbits()),
            forall|i: int| 0 <= i < r@.len() ==> (#[trigger] r@[i]).zero_padded(),
            forall|i: int| 0 <= i < r@.len() ==> (#[trigger] r@[i]).bytes() == chacha8_fill(
                old(rng).seed(),
                old(rng).draws() + fill_draws(old(self).nbytes() as usize, i as nat),
                old(self).nbytes(),
            ),
            final(rng).seed() == old(rng).seed(),
            final(rng).draws() == old(rng).draws() + fill_draws(old(self).nbytes() as usize, (party_num - 1) as nat),
            final(self).wf(),
            final(self).nbits() == old(self).nbits(),
            final(self).buf() == xor_fold_arrays(old(self).buf(), r@),
    {
        proof {
            self.lemma_wf();
        }
        let ghost nb = old(self).nbytes() as usize;
        let n = party_num - 1;
        let mut shares: Vec<BitArray> = Vec::with_capacity(n);
        let mut i: usize = 0;
        assert(old(rng).draws() + fill_draws(nb, 0) =~= old(rng).draws());
        while i < n
            invariant
                old(self).wf(),
                bits_fit(old(self).nbits()),
                old(self).nbits() > 0,
                old(self).nbytes() == ceil8(old(self).nbits()),
                nb == old(self).nbytes() as usize,
                self == old(self),
                i <= n,
                shares@.len() == i,
                all_sized(shares@, old(self).nbits()),
                forall|k: int| 0 <= k < shares@.len() ==> (#[trigger] shares@[k]).zero_padded(),
                forall|k: int| 0 <= k < shares@.len() ==> (#[trigger] shares@[k]).bytes() == chacha8_fill(
                    old(rng).seed(),
                    old(rng).draws() + fill_draws(nb, k as nat),
                    old(self).nbytes(),
                ),
                rng.seed() == old(rng).seed(),
                rng.draws() == old(rng).draws() + fill_draws(nb, i as nat),
            decreases n - i,
        {
            let s = Self::random(self.bit_size, rng);
            assert((old(rng).draws() + fill_draws(nb, i as nat)).push(Draw::Fill(nb)) =~= old(rng).draws() + fill_draws(
                nb,
                (i + 1) as nat,
            ));
            shares.push(s);
            i += 1;
        }
        self.inplace_reconstruct(shares.as_slice());
        shares
    }

    /// Boolean secret sharing: `party_num` shares whose reconstruction (the last share
    /// xored with all the others) is this array.
    pub fn secret_share(&self, party_num: usize, rng: &mut SeededRng) -> (r: Vec<BitArray>)
        requires
            self.wf(),
            self.nbits() > 0,
            party_num >= 2,
        ensures
            r@.len() == party_num,
            all_sized(r@, self.nbits()),
            xor_fold_arrays(r@.last().buf(), r@.drop_last()) == self.buf(),
            forall|i: int| 0 <= i < party_num - 1 ==> (#[trigger] r@[i]).zero_padded() && r@[i].bytes() == chacha8_fill(
                old(rng).seed(),
                old(rng).draws() + fill_draws(self.nbytes() as usize, i as nat),
                self.nbytes(),
            ),
            final(rng).seed() == old(rng).seed(),
            final(rng).draws() == old(rng).draws() + fill_draws(self.nbytes() as usize, (party_num - 1) as nat),
    {
        let mut duplicate = self.clone();
        let mut shares = duplicate.inplace_secret_share(party_num, rng);
        let ghost rs = shares@;
        proof {
            self.lemma_wf();
            assert forall|i: int| 0 <= i < rs.len() implies (#[trigger] rs[i]).buf().len()
                == self.buf().len() by {
                BitArray::lemma_same_layout(&rs[i], self);
            }
            lemma_xor_fold_twice(self.buf(), rs);
        }
        shares.push(duplicate);
        assert(shares@.drop_last() =~= rs);
        shares
    }

    /// Parity of the bitwise and of two arrays, chunk by chunk.
    pub fn inner_prod(x: &BitArray, y: &BitArray) -> (r: bool)
        requires
            x.wf(),
            y.wf(),
            x.nbits() == y.nbits(),
        ensures
            r == seq_parity(bytes_and(x.buf(), y.buf())),
    {
        proof {
            BitArray::lemma_same_layout(x, y);
        }
        let ghost prod = bytes_and(x.buf(), y.buf());
        let n = x.data.aligned_len();
        let mut acc: u8 = 0;
        let mut i: usize = 0;
        while i < n
            invariant
                x.wf(),
                y.wf(),
                prod == bytes_and(x.buf(), y.buf()),
                n == x.buf().len(),
                n == y.buf().len(),
                i <= n,
                acc == fold_xor(prod.take(i as int)),
            decreases n - i,
        {
            proof {
                lemma_fold_xor_push(prod, i as int);
            }
            acc = acc ^ (x.data.get(i) & y.data.get(i));
            i += 1;
        }
        assert(prod.take(n as int) =~= prod);
        byte_parity_exec(acc)
    }

    /// The bitwise xor of two arrays.
    pub fn xor(x: &BitArray, y: &BitArray) -> (r: BitArray)
        requires
            x.wf(),
            y.wf(),
            x.nbits() == y.nbits(),
        ensures
            r.wf(),
            r.nbits() == x.nbits(),
            r.buf() == bytes_xor(x.buf(), y.buf()),
    {
        let mut out = x.clone();
        out.inplace_xor(y);
        out
    }

    /// The bitwise and of two arrays.
    pub fn and(x: &BitArray, y: &BitArray) -> (r: BitArray)
        requires
            x.wf(),
            y.wf(),
            x.nbits() == y.nbits(),
        ensures
            r.wf(),
            r.nbits() == x.nbits(),
            r.buf() == bytes_and(x.buf(), y.buf()),
    {
        let mut out = x.clone();
        out.inplace_and(y);
        out
    }
}

impl Clone for BitArray {
    fn clone(&self) -> (r: Self)
        ensures
            r.wf() == self.wf(),
            r.nbits() == self.nbits(),
            r.nbytes() == self.nbytes(),
            r.buf() == self.buf(),
    {
        BitArray { data: self.data.clone(), bit_size: self.bit_size, byte_size: self.byte_size }
    }
}

impl PartialEq for BitArray {
    fn eq(&self, other: &Self) -> (r: bool) {
        if self.bit_size != other.bit_size {
            return false;
        }
        let n = self.data.aligned_len_unchecked();
        if other.data.aligned_len_unchecked() != n {
            return false;
        }
        let mut i: usize = 0;
        while i < n
            invariant
                n == self.buf().len(),
                n == other.buf().len(),
                i <= n,
                forall|k: int| 0 <= k < i ==> self.buf()[k] == other.buf()[k],
            decreases n - i,
        {
            if self.data.get_unchecked(i) != other.data.get_unchecked(i) {
                return false;
            }
            i += 1;
        }
        assert(self.buf() =~= other.buf());
        true
    }
}

impl vstd::std_specs::cmp::PartialEqSpecImpl for BitArray {
    open spec fn obeys_eq_spec() -> bool {
        true
    }

    open spec fn eq_spec(&self, other: &BitArray) -> bool {
        self.nbits() == other.nbits() && self.buf() == other.buf()
    }
}

impl Eq for BitArray {

}

/// Whether a byte has an odd number of one bits.
fn byte_parity_exec(b: u8) -> (r: bool)
    ensures
        r == byte_parity(b),
{
    ((b ^ (b >> 1u8) ^ (b >> 2u8) ^ (b >> 3u8) ^ (b >> 4u8) ^ (b >> 5u8) ^ (b >> 6u8) ^ (b
        >> 7u8)) & 1u8) == 1u8
}

/// Effect on each bit of setting bit `t`.
pub proof fn lemma_set_bit_bits(buf: Seq<u8>, t: int, v: bool, j: int)
    requires
        0 <= t < buf.len() * 8,
        0 <= j < buf.len() * 8,
    ensures
        seq_bit(buf.update(t / 8, set_byte_bit(buf[t / 8], t % 8, v)), j) == if j == t {
            v
        } else {
            seq_bit(buf, j)
        },
{
    if j / 8 == t / 8 {
        lemma_byte_set_clear(buf[t / 8], (t % 8) as u8, (j % 8) as u8);
    }
}

/// A fold of xors is the start xored with the fold of xors from zero.
pub proof fn lemma_xor_fold_split(acc: Seq<u8>, s: Seq<BitArray>)
    requires
        forall|i: int| 0 <= i < s.len() ==> (#[trigger] s[i]).buf().len() == acc.len(),
    ensures
        xor_fold_arrays(acc, s) == bytes_xor(acc, xor_fold_arrays(zeros(acc.len()), s)),
        xor_fold_arrays(acc, s).len() == acc.len(),
    decreases s.len(),
{
    if s.len() == 0 {
        assert forall|i: int| 0 <= i < acc.len() implies #[trigger] bytes_xor(acc, zeros(acc.len()))[i] == acc[i] by {
            let x = acc[i];
            lemma_xor_laws(x, 0u8, 0u8);
        }
        assert(bytes_xor(acc, zeros(acc.len())) =~= acc);
    } else {
        let t = s.drop_last();
        lemma_xor_fold_split(acc, t);
        let z = xor_fold_arrays(zeros(acc.len()), t);
        lemma_xor_fold_split(zeros(acc.len()), t);
        let l = s.last().buf();
        assert forall|i: int| 0 <= i < acc.len() implies #[trigger] xor_fold_arrays(acc, s)[i]
            == bytes_xor(acc, xor_fold_arrays(zeros(acc.len()), s))[i] by {
            let (a, b, c) = (acc[i], z[i], l[i]);
            lemma_xor_laws(a, b, c);
        }
        assert(xor_fold_arrays(acc, s) =~= bytes_xor(acc, xor_fold_arrays(zeros(acc.len()), s)));
    }
}

/// Xoring the same arrays in twice gives back the start: a share-then-reconstruct round trip.
pub proof fn lemma_xor_fold_twice(x: Seq<u8>, s: Seq<BitArray>)
    requires
        forall|i: int| 0 <= i < s.len() ==> (#[trigger] s[i]).buf().len() == x.len(),
    ensures
        xor_fold_arrays(xor_fold_arrays(x, s), s) == x,
{
    lemma_xor_fold_split(x, s);
    let y = xor_fold_arrays(x, s);
    lemma_xor_fold_split(y, s);
    let z = xor_fold_arrays(zeros(x.len()), s);
    lemma_xor_fold_split(zeros(x.len()), s);
    assert forall|i: int| 0 <= i < x.len() implies #[trigger] xor_fold_arrays(y, s)[i] == x[i] by {
        let (a, b) = (x[i], z[i]);
        assert((a ^ b) ^ b == a) by (bit_vector);
    }
    assert(xor_fold_arrays(y, s) =~= x);
}

proof fn lemma_bit_test(b: u8, s: u8)
    requires
        s < 8,
    ensures
        ((b & (1u8 << s)) != 0u8) == byte_bit(b, s as int),
{
    assert(((b & (1u8 << s)) != 0u8) <==> ((b >> s) & 1u8 == 1u8)) by (bit_vector)
        requires
            s < 8,
    ;
}

} // verus!
