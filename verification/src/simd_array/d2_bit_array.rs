//! Rows of bit arrays, as used for the three streams of Beaver triplets.
use vstd::prelude::*;
use crate::rng::{chacha8_fill, fill_draws, Draw, SeededRng};
use crate::simd_array::bit_array::{all_sized, bits_fit, xor_fold_arrays, zeros, BitArray};
use crate::simd_array::bit_spec::{align32, bytes_xor, ceil8};

verus! {

/// Row `j` of the rows of `bit_num` bits drawn from a ChaCha8 generator seeded with `seed`:
/// the bytes of its `j + 1`-th fill, each fill taking the bytes of one row.
pub open spec fn seeded_row(seed: Seq<u8>, j: nat, bit_num: nat) -> Seq<u8> {
    chacha8_fill(seed, fill_draws(ceil8(bit_num) as usize, j), ceil8(bit_num))
}

/// A sequence of bit arrays; in MPC use all rows hold the same number of bits.
#[derive(Debug, PartialEq, Eq)]
pub struct D2BitArray {
    arrays: Vec<BitArray>,
}

/// Row `j` of each element of `shares`, in order.
pub open spec fn column(shares: Seq<D2BitArray>, j: int) -> Seq<BitArray> {
    Seq::new(shares.len(), |k: int| shares[k]@[j])
}

impl View for D2BitArray {
    type V = Seq<BitArray>;

    closed spec fn view(&self) -> Seq<BitArray> {
        self.arrays@
    }
}

impl D2BitArray {
    /// Every row is well formed.
    pub open spec fn wf(&self) -> bool {
        forall|i: int| 0 <= i < self@.len() ==> (#[trigger] self@[i]).wf()
    }

    /// Both have the same number of rows and row `i` of one has as many bits as row `i`
    /// of the other.
    pub open spec fn same_shape(&self, other: &D2BitArray) -> bool {
        &&& self@.len() == other@.len()
        &&& forall|i: int| 0 <= i < self@.len() ==> (#[trigger] self@[i]).nbits() == other@[i].nbits()
    }

    /// A D2BitArray with no rows.
    pub fn empty() -> (r: D2BitArray)
        ensures
            r@ == Seq::<BitArray>::empty(),
    {
        D2BitArray { arrays: Vec::new() }
    }

    /// A D2BitArray with the rows of `v`.
    pub fn new(v: Vec<BitArray>) -> (r: D2BitArray)
        ensures
            r@ == v@,
    {
        D2BitArray { arrays: v }
    }

    /// `n` zero rows of `bit_size` bits.
    pub fn zeros(n: usize, bit_size: usize) -> (r: D2BitArray)
        requires
            n > 0 ==> bit_size > 0 && bits_fit(bit_size as nat),
        ensures
            r@.len() == n,
            all_sized(r@, bit_size as nat),
            forall|i: int| 0 <= i < n ==> (#[trigger] r@[i]).buf() == zeros(align32(ceil8(bit_size as nat))),
    {
        let mut arrays: Vec<BitArray> = Vec::with_capacity(n);
        let mut i: usize = 0;
        while i < n
            invariant
                n > 0 ==> bit_size > 0 && bits_fit(bit_size as nat),
                i <= n,
                arrays@.len() == i,
                all_sized(arrays@, bit_size as nat),
                forall|k: int| 0 <= k < i ==> (#[trigger] arrays@[k]).buf() == zeros(align32(ceil8(bit_size as nat))),
            decreases n - i,
        {
            arrays.push(BitArray::new(bit_size));
            i += 1;
        }
        D2BitArray { arrays }
    }

    /// `array_size` random rows of `bit_num` bits drawn from ChaCha8 seeded with `seed`.
    pub fn from_seed(array_size: usize, bit_num: usize, seed: &[u8; 32]) -> (r: D2BitArray)
        requires
            array_size > 0 ==> bit_num > 0 && bits_fit(bit_num as nat),
        ensures
            r@.len() == array_size,
            all_sized(r@, bit_num as nat),
            forall|i: int| 0 <= i < array_size ==> (#[trigger] r@[i]).zero_padded(),
            forall|i: int| 0 <= i < array_size ==> (#[trigger] r@[i]).bytes() == seeded_row(seed@, i as nat, bit_num as nat),
    {
        let mut rng = SeededRng::from_seed(*seed);
        let r = Self::random(array_size, bit_num, &mut rng);
        assert forall|i: int| 0 <= i < array_size implies (#[trigger] r@[i]).bytes() == seeded_row(seed@, i as nat, bit_num as nat) by {
            assert(Seq::<Draw>::empty() + fill_draws(ceil8(bit_num as nat) as usize, i as nat) =~= fill_draws(ceil8(bit_num as nat) as usize, i as nat));
        }
        r
    }

    /// `array_size` random rows of `bit_num` bits drawn from `rng`, with zero padding.
    pub fn random(array_size: usize, bit_num: usize, rng: &mut SeededRng) -> (r: D2BitArray)
        requires
            array_size > 0 ==> bit_num > 0 && bits_fit(bit_num as nat),
        ensures
            r@.len() == array_size,
            all_sized(r@, bit_num as nat),
            forall|i: int| 0 <= i < array_size ==> (#[trigger] r@[i]).zero_padded(),
            forall|i: int| 0 <= i < array_size ==> (#[trigger] r@[i]).bytes() == chacha8_fill(
                old(rng).seed(),
                old(rng).draws() + fill_draws(ceil8(bit_num as nat) as usize, i as nat),
                ceil8(bit_num as nat),
            ),
            final(rng).seed() == old(rng).seed(),
            final(rng).draws() == old(rng).draws() + fill_draws(ceil8(bit_num as nat) as usize, array_size as nat),
    {
        let ghost nb = ceil8(bit_num as nat) as usize;
        let mut arrays: Vec<BitArray> = Vec::with_capacity(array_size);
        let mut i: usize = 0;
        assert(old(rng).draws() + fill_draws(nb, 0) =~= old(rng).draws());
        while i < array_size
            invariant
                array_size > 0 ==> bit_num > 0 && bits_fit(bit_num as nat),
                nb == ceil8(bit_num as nat) as usize,
                i <= array_size,
                arrays@.len() == i,
                all_sized(arrays@, bit_num as nat),
                forall|k: int| 0 <= k < i ==> (#[trigger] arrays@[k]).zero_padded(),
                forall|k: int| 0 <= k < i ==> (#[trigger] arrays@[k]).bytes() == chacha8_fill(
                    old(rng).seed(),
                    old(rng).draws() + fill_draws(nb, k as nat),
                    ceil8(bit_num as nat),
                ),
                rng.seed() == old(rng).seed(),
                rng.draws() == old(rng).draws() + fill_draws(nb, i as nat),
            decreases array_size - i,
        {
            arrays.push(BitArray::random(bit_num, rng));
            assert((old(rng).draws() + fill_draws(nb, i as nat)).push(Draw::Fill(nb)) =~= old(rng).draws() + fill_draws(nb, (i + 1) as nat));
            i += 1;
        }
        D2BitArray { arrays }
    }

    /// Appends a row.
    pub fn push(&mut self, array: BitArray)
        ensures
            final(self)@ == old(self)@.push(array),
    {
        self.arrays.push(array);
    }

    /// Number of rows.
    pub fn array_num(&self) -> (r: usize)
        ensures
            r == self@.len(),
    {
        self.arrays.len()
    }

    /// Number of content bytes of the first row (0 without rows).
    pub fn inner_byte_size(&self) -> (r: usize)
        ensures
            r == if self@.len() == 0 {
                0
            } else {
                self@[0].nbytes()
            },
    {
        if self.arrays.len() == 0 {
            return 0;
        }
        self.arrays[0].byte_size()
    }

    /// Copies bytes `[st_byte, end_byte)` of every row into a new D2BitArray.
    pub fn to_slice(&self, st_byte: usize, end_byte: usize) -> (r: D2BitArray)
        requires
            self.wf(),
            st_byte <= end_byte,
            forall|i: int| 0 <= i < self@.len() ==> end_byte <= (#[trigger] self@[i]).nbytes(),
        ensures
            r@.len() == self@.len(),
            all_sized(r@, ((end_byte - st_byte) * 8) as nat),
            forall|i: int|
                0 <= i < self@.len() ==> (#[trigger] r@[i]).bytes() == self@[i].bytes().subrange(
                    st_byte as int,
                    end_byte as int,
                ) && r@[i].zero_padded(),
    {
        let n = self.arrays.len();
        let mut sliced: Vec<BitArray> = Vec::with_capacity(n);
        let mut i: usize = 0;
        while i < n
            invariant
                self.wf(),
                n == self@.len(),
                st_byte <= end_byte,
                forall|k: int| 0 <= k < self@.len() ==> end_byte <= (#[trigger] self@[k]).nbytes(),
                i <= n,
                sliced@.len() == i,
                all_sized(sliced@, ((end_byte - st_byte) * 8) as nat),
                forall|k: int|
                    0 <= k < i ==> (#[trigger] sliced@[k]).bytes() == self@[k].bytes().subrange(
                        st_byte as int,
                        end_byte as int,
                    ) && sliced@[k].zero_padded(),
            decreases n - i,
        {
            let s = self.arrays[i].to_slice(st_byte, end_byte);
            sliced.push(s);
            i += 1;
        }
        D2BitArray::new(sliced)
    }

    /// Row `index`.
    pub fn get_array(&self, index: usize) -> (r: &BitArray)
        requires
            index < self@.len(),
        ensures
            *r == self@[index as int],
    {
        &self.arrays[index]
    }

    /// Row `index`, mutably.
    pub fn get_mut_array(&mut self, index: usize) -> (r: &mut BitArray)
        requires
            index < old(self)@.len(),
        ensures
            *r == old(self)@[index as int],
            final(self)@ == old(self)@.update(index as int, *final(r)),
    {
        &mut self.arrays[index]
    }

    /// Xors row `i` of `other` into row `i`, for every row.
    pub fn inplace_xor(&mut self, other: &D2BitArray)
        requires
            old(self).wf(),
            other.wf(),
            old(self).same_shape(other),
        ensures
            final(self).wf(),
            final(self).same_shape(old(self)),
            forall|i: int|
                0 <= i < old(self)@.len() ==> (#[trigger] final(self)@[i]).buf() == bytes_xor(
                    old(self)@[i].buf(),
                    other@[i].buf(),
                ),
    {
        let n = self.arrays.len();
        let ghost old_rows = self@;
        let mut i: usize = 0;
        while i < n
            invariant
                other.wf(),
                n == self@.len(),
                old_rows == old(self)@,
                old(self).wf(),
                old(self).same_shape(other),
                self.wf(),
                self.same_shape(old(self)),
                i <= n,
                forall|k: int|
                    0 <= k < n ==> (#[trigger] self@[k]).buf() == if k < i {
                        bytes_xor(old_rows[k].buf(), other@[k].buf())
                    } else {
                        old_rows[k].buf()
                    },
            decreases n - i,
        {
            let row = self.get_mut_array(i);
            row.inplace_xor(other.get_array(i));
            i += 1;
        }
    }

    /// Xors every share into this D2BitArray, row by row, in order.
    pub fn inplace_reconstruct(&mut self, shares: Vec<D2BitArray>)
        requires
            old(self).wf(),
            shares@.len() > 0,
            forall|k: int|
                0 <= k < shares@.len() ==> (#[trigger] shares@[k]).wf() && shares@[k].same_shape(
                    old(self),
                ),
        ensures
            final(self).wf(),
            final(self).same_shape(old(self)),
            forall|j: int|
                0 <= j < old(self)@.len() ==> (#[trigger] final(self)@[j]).buf() == xor_fold_arrays(
                    old(self)@[j].buf(),
                    column(shares@, j),
                ),
    {
        let ghost old_rows = self@;
        let mut k: usize = 0;
        while k < shares.len()
            invariant
                old_rows == old(self)@,
                old(self).wf(),
                forall|m: int|
                    0 <= m < shares@.len() ==> (#[trigger] shares@[m]).wf() && shares@[m].same_shape(
                        old(self),
                    ),
                self.wf(),
                self.same_shape(old(self)),
                k <= shares@.len(),
                forall|j: int|
                    0 <= j < old_rows.len() ==> (#[trigger] self@[j]).buf() == xor_fold_arrays(
                        old_rows[j].buf(),
                        column(shares@.take(k as int), j),
                    ),
            decreases shares@.len() - k,
        {
            let ghost before = self@;
            self.inplace_xor(&shares[k]);
            proof {
                assert forall|j: int| 0 <= j < old_rows.len() implies (#[trigger] self@[j]).buf()
                    == xor_fold_arrays(old_rows[j].buf(), column(shares@.take(k + 1), j)) by {
                    assert(column(shares@.take(k + 1), j).drop_last() =~= column(
                        shares@.take(k as int),
                        j,
                    ));
                    assert(before[j].buf() == xor_fold_arrays(
                        old_rows[j].buf(),
                        column(shares@.take(k as int), j),
                    ));
                }
            }
            k += 1;
        }
        proof {
            assert forall|j: int| 0 <= j < old_rows.len() implies column(
                shares@.take(shares@.len() as int),
                j,
            ) == column(shares@, j) by {
                assert(column(shares@.take(shares@.len() as int), j) =~= column(shares@, j));
            }
        }
    }

    /// Reconstructs shared D2BitArrays: the first share xored with the others, row by row.
    pub fn reconstruct(shares: Vec<D2BitArray>) -> (r: D2BitArray)
        requires
            shares@.len() > 1,
            forall|k: int|
                0 <= k < shares@.len() ==> (#[trigger] shares@[k]).wf() && shares@[k].same_shape(
                    &shares@[0],
                ),
        ensures
            r.wf(),
            r.same_shape(&shares@[0]),
            forall|j: int|
                0 <= j < shares@[0]@.len() ==> (#[trigger] r@[j]).buf() == xor_fold_arrays(
                    shares@[0]@[j].buf(),
                    column(shares@.drop_first(), j),
                ),
    {
        let ghost s = shares@;
        let mut first = shares;
        let rest = first.split_off(1);
        let mut out = first.pop().unwrap();
        assert(rest@ =~= s.drop_first());
        out.inplace_reconstruct(rest);
        out
    }

    /// The three rows of a Beaver triplet, mutably.
    pub fn unpack_as_mut_beaver(&mut self) -> (r: (&mut BitArray, &mut BitArray, &mut BitArray))
        requires
            old(self)@.len() == 3,
        ensures
            *r.0 == old(self)@[0],
            *r.1 == old(self)@[1],
            *r.2 == old(self)@[2],
            final(self)@ == seq![*final(r.0), *final(r.1), *final(r.2)],
    {
        let all = self.arrays.as_mut_slice();
        let (first, rest) = all.split_at_mut(1);
        let (second, third) = rest.split_at_mut(1);
        let a = first.first_mut().unwrap();
        let b = second.first_mut().unwrap();
        let c = third.first_mut().unwrap();
        (a, b, c)
    }

    /// The three rows of a Beaver triplet.
    pub fn unpack_as_beaver(&self) -> (r: (&BitArray, &BitArray, &BitArray))
        requires
            self@.len() == 3,
        ensures
            *r.0 == self@[0],
            *r.1 == self@[1],
            *r.2 == self@[2],
    {
        (&self.arrays[0], &self.arrays[1], &self.arrays[2])
    }

    /// Xors the two rows of `beaver_array` into the first two rows.
    pub fn beaver_xor_d2(&mut self, beaver_array: &D2BitArray)
        requires
            old(self).wf(),
            beaver_array.wf(),
            old(self)@.len() >= 2,
            beaver_array@.len() == 2,
            old(self)@[0].nbits() == beaver_array@[0].nbits(),
            old(self)@[1].nbits() == beaver_array@[1].nbits(),
        ensures
            final(self).wf(),
            final(self).same_shape(old(self)),
            final(self)@[0].buf() == bytes_xor(old(self)@[0].buf(), beaver_array@[0].buf()),
            final(self)@[1].buf() == bytes_xor(old(self)@[1].buf(), beaver_array@[1].buf()),
            forall|j: int| 2 <= j < old(self)@.len() ==> #[trigger] final(self)@[j] == old(self)@[j],
    {
        let r0 = self.get_mut_array(0);
        r0.inplace_xor(beaver_array.get_array(0));
        let r1 = self.get_mut_array(1);
        r1.inplace_xor(beaver_array.get_array(1));
    }
}

impl Clone for D2BitArray {
    fn clone(&self) -> (r: Self)
        ensures
            r@.len() == self@.len(),
            forall|i: int|
                0 <= i < self@.len() ==> (#[trigger] r@[i]).wf() == self@[i].wf() && r@[i].nbits()
                    == self@[i].nbits() && r@[i].nbytes() == self@[i].nbytes() && r@[i].buf()
                    == self@[i].buf(),
    {
        let n = self.arrays.len();
        let mut arrays: Vec<BitArray> = Vec::with_capacity(n);
        let mut i: usize = 0;
        while i < n
            invariant
                n == self@.len(),
                i <= n,
                arrays@.len() == i,
                forall|k: int|
                    0 <= k < i ==> (#[trigger] arrays@[k]).wf() == self@[k].wf() && arrays@[k].nbits()
                        == self@[k].nbits() && arrays@[k].nbytes() == self@[k].nbytes()
                        && arrays@[k].buf() == self@[k].buf(),
            decreases n - i,
        {
            arrays.push(self.arrays[i].clone());
            i += 1;
        }
        D2BitArray { arrays }
    }
}

} // verus!
