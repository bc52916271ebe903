//! Byte storage padded to a multiple of 32 bytes, the unit of the wide bitwise operations.
use vstd::prelude::*;
use crate::simd_array::bit_spec::{align32, lemma_align32};

verus! {

/// A byte array whose storage is padded with whole 32-byte chunks. The padding takes part
/// in the chunked bitwise operations of [`crate::simd_array::BitArray`], so it is part of
/// the value; the first `len` bytes are the contents.
#[derive(Debug)]
pub struct AU8Array {
    buf: Vec<u8>,
    len: usize,
}

/// Largest length accepted for a padded allocation.
pub open spec fn len_fits(n: nat) -> bool {
    n + 32 <= isize::MAX
}

impl AU8Array {
    /// The chunk size of the padding, in bytes.
    pub const ALIGN: usize = 32;

    /// The whole storage, padding included.
    pub closed spec fn padded(&self) -> Seq<u8> {
        self.buf@
    }

    /// The number of content bytes.
    pub closed spec fn size(&self) -> nat {
        self.len as nat
    }

    /// The content bytes.
    pub open spec fn contents(&self) -> Seq<u8> {
        self.padded().take(self.size() as int)
    }

    /// The storage is the content length rounded up to whole chunks.
    pub closed spec fn wf(&self) -> bool {
        self.buf@.len() == align32(self.len as nat)
    }

    pub proof fn lemma_wf(&self)
        requires
            self.wf(),
        ensures
            self.padded().len() == align32(self.size()),
            self.size() <= self.padded().len(),
            self.padded().len() < self.size() + 32,
            self.padded().len() % 32 == 0,
            self.size() == 0 ==> self.padded().len() == 0,
    {
        lemma_align32(self.size());
    }

    /// Rounds a length up to a multiple of the chunk size.
    fn align_max_len(l: usize) -> (r: usize)
        requires
            l + 32 <= usize::MAX,
        ensures
            r == align32(l as nat),
    {
        if l % Self::ALIGN == 0 {
            l
        } else {
            l + (Self::ALIGN - (l % Self::ALIGN))
        }
    }

    /// The size of the storage of a non-empty array of `len` bytes.
    fn create_layout(len: usize) -> (r: usize)
        requires
            len > 0,
            len_fits(len as nat),
        ensures
            r == align32(len as nat),
    {
        Self::align_max_len(len)
    }

    /// An array of length zero, with no storage.
    pub fn empty() -> (r: Self)
        ensures
            r.wf(),
            r.size() == 0,
            r.padded() == Seq::<u8>::empty(),
    {
        AU8Array { buf: Vec::new(), len: 0 }
    }

    /// A zero-filled array of `len` bytes; its padding is zero too.
    pub fn new(len: usize) -> (r: Self)
        requires
            len > 0,
            len_fits(len as nat),
        ensures
            r.wf(),
            r.size() == len,
            r.padded() == Seq::new(align32(len as nat), |i: int| 0u8),
    {
        let n = Self::create_layout(len);
        let buf: Vec<u8> = vec![0u8; n];
        let r = AU8Array { buf, len };
        assert(r.padded() =~= Seq::new(align32(len as nat), |i: int| 0u8));
        r
    }

    /// A copy of the array, padding included.
    pub fn clone(&self) -> (r: Self)
        ensures
            r.wf() == self.wf(),
            r.size() == self.size(),
            r.padded() == self.padded(),
    {
        let n = self.buf.len();
        let mut buf: Vec<u8> = Vec::with_capacity(n);
        let mut i: usize = 0;
        while i < n
            invariant
                n == self.buf@.len(),
                i <= n,
                buf@ == self.buf@.take(i as int),
            decreases n - i,
        {
            buf.push(self.buf[i]);
            i += 1;
            assert(buf@ =~= self.buf@.take(i as int));
        }
        assert(self.buf@.take(n as int) =~= self.buf@);
        AU8Array { buf, len: self.len }
    }

    /// Copies a slice into a new array whose padding is zero.
    pub fn from_slice(slice: &[u8]) -> (r: Self)
        requires
            len_fits(slice@.len()),
        ensures
            r.wf(),
            r.size() == slice@.len(),
            r.contents() == slice@,
            forall|i: int| slice@.len() <= i < r.padded().len() ==> r.padded()[i] == 0u8,
    {
        let len = slice.len();
        if len == 0 {
            let r = Self::empty();
            assert(r.contents() =~= slice@);
            return r;
        }
        let n = Self::create_layout(len);
        let mut buf: Vec<u8> = Vec::with_capacity(n);
        let mut i: usize = 0;
        while i < n
            invariant
                len == slice@.len(),
                n == align32(len as nat),
                len <= n,
                i <= n,
                buf@.len() == i,
                forall|k: int| 0 <= k < i ==> buf@[k] == if k < len { slice@[k] } else { 0u8 },
            decreases n - i,
        {
            if i < len {
                buf.push(slice[i]);
            } else {
                buf.push(0u8);
            }
            i += 1;
        }
        proof {
            lemma_align32(len as nat);
        }
        let r = AU8Array { buf, len };
        assert(r.contents() =~= slice@);
        r
    }

    /// An array of `len` bytes of 0xFF; its padding is 0xFF too.
    pub fn ones(len: usize) -> (r: Self)
        requires
            len > 0,
            len_fits(len as nat),
        ensures
            r.wf(),
            r.size() == len,
            r.padded() == Seq::new(align32(len as nat), |i: int| 0xFFu8),
    {
        let n = Self::create_layout(len);
        let buf: Vec<u8> = vec![0xFFu8; n];
        let r = AU8Array { buf, len };
        assert(r.padded() =~= Seq::new(align32(len as nat), |i: int| 0xFFu8));
        r
    }

    /// The number of content bytes.
    pub fn len(&self) -> (r: usize)
        ensures
            r == self.size(),
    {
        self.len
    }

    /// The size of the storage: the length rounded up to whole chunks.
    pub fn aligned_len(&self) -> (r: usize)
        requires
            self.wf(),
        ensures
            r == self.padded().len(),
            r == align32(self.size()),
    {
        self.buf.len()
    }

    /// The size of the storage, whatever the state of the array.
    pub(crate) fn aligned_len_unchecked(&self) -> (r: usize)
        ensures
            r == self.padded().len(),
    {
        self.buf.len()
    }

    /// Byte `i` of the storage, whatever the state of the array.
    pub(crate) fn get_unchecked(&self, i: usize) -> (r: u8)
        requires
            i < self.padded().len(),
        ensures
            r == self.padded()[i as int],
    {
        self.buf[i]
    }

    /// The content bytes.
    pub fn as_ref(&self) -> (r: &[u8])
        requires
            self.wf(),
        ensures
            r@ == self.contents(),
    {
        proof {
            self.lemma_wf();
        }
        vstd::slice::slice_subrange(self.buf.as_slice(), 0, self.len)
    }

    /// Byte `i` of the storage (content or padding).
    pub fn get(&self, i: usize) -> (r: u8)
        requires
            self.wf(),
            i < self.padded().len(),
        ensures
            r == self.padded()[i as int],
    {
        self.buf[i]
    }

    /// Writes byte `i` of the storage (content or padding).
    pub fn set(&mut self, i: usize, v: u8)
        requires
            old(self).wf(),
            i < old(self).padded().len(),
        ensures
            final(self).wf(),
            final(self).size() == old(self).size(),
            final(self).padded() == old(self).padded().update(i as int, v),
    {
        self.buf.set(i, v);
    }
}

} // verus!
