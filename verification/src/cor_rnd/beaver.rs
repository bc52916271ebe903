//! Beaver triplets for the GMW evaluation of AND gates.
use vstd::prelude::*;
use crate::simd_array::bit_array::{
    all_sized, bits_fit, lemma_xor_fold_same_bufs, lemma_xor_fold_split, xor_fold_arrays, zeros, BitArray,
};
use crate::simd_array::bit_spec::{align32, bytes_and, bytes_xor, ceil8};
use crate::simd_array::d2_bit_array::{column, seeded_row, D2BitArray};

verus! {

/// `d` holds the three rows a, b, c of Beaver triplets, of the same number of bits.
pub open spec fn triplet_shaped(d: D2BitArray) -> bool {
    &&& d@.len() == 3
    &&& all_sized(d@, d@[0].nbits())
}

/// Row `j` of the reconstruction of `first` and `rest`: row `j` of `first` xored with
/// row `j` of each element of `rest`.
pub open spec fn reconstructed_row(first: D2BitArray, rest: Seq<D2BitArray>, j: int) -> Seq<u8> {
    xor_fold_arrays(first@[j].buf(), column(rest, j))
}

/// The Beaver relation on reconstructed values: c = a & b.
pub open spec fn beaver_relation(first: D2BitArray, rest: Seq<D2BitArray>) -> bool {
    reconstructed_row(first, rest, 2) == bytes_and(
        reconstructed_row(first, rest, 0),
        reconstructed_row(first, rest, 1),
    )
}

/// The shares of all parties are triplets of `n` bits.
pub open spec fn shares_shaped(s: Seq<D2BitArray>, n: nat) -> bool {
    forall|k: int| 0 <= k < s.len() ==> triplet_shaped(#[trigger] s[k]) && s[k]@[0].nbits() == n
}

/// `d` holds the triplet shares of `n` bits drawn from a ChaCha8 generator seeded with
/// `seed`: row `j` holds the bytes of its `j + 1`-th fill, with zero padding.
pub open spec fn seeded_triplets(d: D2BitArray, seed: Seq<u8>, n: nat) -> bool {
    &&& d.wf()
    &&& triplet_shaped(d)
    &&& d@[0].nbits() == n
    &&& forall|j: int| 0 <= j < 3 ==> (#[trigger] d@[j]).zero_padded() && d@[j].bytes() == seeded_row(seed, j as nat, n)
}

/// `d` holds the dealer's triplet shares of `n` bits for the parties with seeds `seeds`: rows
/// a and b are the first two fills of a generator seeded with `seed`, and row c makes the
/// Beaver relation hold with the triplets that those parties draw from their seeds.
pub open spec fn dealer_triplets(d: D2BitArray, seed: Seq<u8>, seeds: Seq<Seq<u8>>, n: nat) -> bool {
    &&& d.wf()
    &&& triplet_shaped(d)
    &&& d@[0].nbits() == n
    &&& forall|j: int| 0 <= j < 2 ==> (#[trigger] d@[j]).zero_padded() && d@[j].bytes() == seeded_row(seed, j as nat, n)
    &&& exists|others: Seq<D2BitArray>|
        #![trigger beaver_relation(d, others)]
        others.len() == seeds.len() && (forall|k: int| 0 <= k < others.len() ==> seeded_triplets(#[trigger] others[k], seeds[k], n))
            && beaver_relation(d, others)
}

/// Provides Beaver triplets, either drawn from a seed (a regular party) or completed so that
/// the relation holds over all parties (the dealer).
pub struct BeaverProvider {
    beaver_storage: Option<D2BitArray>,
    used: usize,
    last_report: usize,
}

impl BeaverProvider {
    /// The stored triplets.
    pub closed spec fn storage(&self) -> Option<D2BitArray> {
        self.beaver_storage
    }

    /// Bytes of triplets taken so far.
    pub closed spec fn used_bytes(&self) -> nat {
        self.used as nat
    }

    /// Bytes of triplets taken at the last usage report.
    pub closed spec fn reported_bytes(&self) -> nat {
        self.last_report as nat
    }

    /// Counters are ordered and their bit counts fit a `usize`; stored triplets are well
    /// formed.
    pub open spec fn wf(&self) -> bool {
        &&& self.reported_bytes() <= self.used_bytes()
        &&& self.used_bytes() * 8 <= usize::MAX
        &&& self.storage() matches Some(d) ==> d.wf() && triplet_shaped(d)
    }

    /// A provider with no triplets.
    pub fn new() -> (r: Self)
        ensures
            r.wf(),
            r.storage() is None,
            r.used_bytes() == 0,
            r.reported_bytes() == 0,
    {
        BeaverProvider { beaver_storage: None, used: 0, last_report: 0 }
    }

    /// The stored triplets.
    pub fn beaver_storage(&self) -> (r: &Option<D2BitArray>)
        ensures
            *r == self.storage(),
    {
        &self.beaver_storage
    }

    /// Draws `bit_num`-bit triplet shares from ChaCha8 seeded with `seed`.
    pub fn generate_with_seed(&mut self, bit_num: usize, seed: &[u8; 32])
        requires
            old(self).wf(),
            bit_num > 0,
            bits_fit(bit_num as nat),
        ensures
            final(self).wf(),
            final(self).storage() matches Some(d) && seeded_triplets(d, seed@, bit_num as nat),
            final(self).used_bytes() == old(self).used_bytes(),
            final(self).reported_bytes() == old(self).reported_bytes(),
    {
        let d = D2BitArray::from_seed(3, bit_num, seed);
        self.beaver_storage = Some(d);
    }

    /// Completes the dealer's triplets: given the dealer's rows a and b and a zero row c,
    /// and the triplets of the other parties, sets the dealer's c to (A & B) ^ C', where
    /// A, B are the reconstructed a and b and C' the xor of the others' c.
    pub fn complete_dealer_triplets(dealer_triplets: D2BitArray, other_shares: Vec<D2BitArray>) -> (r: D2BitArray)
        requires
            dealer_triplets.wf(),
            triplet_shaped(dealer_triplets),
            other_shares@.len() > 0,
            forall|k: int|
                0 <= k < other_shares@.len() ==> (#[trigger] other_shares@[k]).wf()
                    && other_shares@[k].same_shape(&dealer_triplets),
        ensures
            r.wf(),
            triplet_shaped(r),
            r.same_shape(&dealer_triplets),
            r@[0] == dealer_triplets@[0],
            r@[1] == dealer_triplets@[1],
            r@[2].buf() == bytes_xor(
                bytes_and(
                    reconstructed_row(dealer_triplets, other_shares@, 0),
                    reconstructed_row(dealer_triplets, other_shares@, 1),
                ),
                reconstructed_row(dealer_triplets, other_shares@, 2),
            ),
    {
        let mut dealer_triplets = dealer_triplets;
        let ghost others = other_shares@;
        let mut recuns = dealer_triplets.clone();
        recuns.inplace_reconstruct(other_shares);
        let c = dealer_triplets.get_mut_array(2);
        c.mut_and(recuns.get_array(0), recuns.get_array(1));
        c.inplace_xor(recuns.get_array(2));
        dealer_triplets
    }

    /// Generates the dealer's triplets: a and b drawn from the dealer's seed, c set so that
    /// a & b = c holds of the reconstruction over the dealer and the parties whose seeds
    /// are given (their shares are drawn from those seeds).
    pub fn generate_as_dealer(
        &mut self,
        bit_num: usize,
        seed: &[u8; 32],
        other_party_seeds: Vec<&[u8; 32]>,
    )
        requires
            old(self).wf(),
            bit_num > 0,
            bits_fit(bit_num as nat),
            other_party_seeds@.len() > 0,
        ensures
            final(self).wf(),
            final(self).used_bytes() == old(self).used_bytes(),
            final(self).reported_bytes() == old(self).reported_bytes(),
            final(self).storage() matches Some(d) && dealer_triplets(
                d,
                seed@,
                other_party_seeds@.map_values(|s: &[u8; 32]| s@),
                bit_num as nat,
            ),
    {
        let mut dealer_triplets = D2BitArray::from_seed(2, bit_num, seed);
        dealer_triplets.push(BitArray::new(bit_num));
        let n = other_party_seeds.len();
        let mut other_shares: Vec<D2BitArray> = Vec::with_capacity(n);
        let mut i: usize = 0;
        while i < n
            invariant
                n == other_party_seeds@.len(),
                bit_num > 0,
                bits_fit(bit_num as nat),
                i <= n,
                other_shares@.len() == i,
                forall|k: int|
                    0 <= k < i ==> seeded_triplets(#[trigger] other_shares@[k], other_party_seeds@[k]@, bit_num as nat),
            decreases n - i,
        {
            other_shares.push(D2BitArray::from_seed(3, bit_num, other_party_seeds[i]));
            i += 1;
        }
        let ghost dt = dealer_triplets;
        let ghost others = other_shares@;
        let d = Self::complete_dealer_triplets(dealer_triplets, other_shares);
        proof {
            let seeds = other_party_seeds@.map_values(|s: &[u8; 32]| s@);
            assert(shares_shaped(others, bit_num as nat));
            lemma_dealer_relation(dt, d, others);
            assert(forall|k: int| 0 <= k < others.len() ==> seeded_triplets(#[trigger] others[k], seeds[k], bit_num as nat));
        }
        self.beaver_storage = Some(d);
    }

    /// Whether `req_size` more bytes of triplets are stored.
    pub fn can_take(&self, req_size: usize) -> (r: bool)
        requires
            self.wf(),
        ensures
            r == (self.storage() is Some && self.used_bytes() + req_size <= self.storage()->0@[0].nbytes()),
    {
        match &self.beaver_storage {
            Some(d) => {
                let first = d.get_array(0);
                req_size <= first.byte_size() && self.used <= first.byte_size() - req_size
            },
            None => false,
        }
    }

    /// Takes the next `req_size` bytes of each triplet row and advances the usage counter.
    pub fn take(&mut self, req_size: usize) -> (r: D2BitArray)
        requires
            old(self).wf(),
            old(self).storage() is Some,
            old(self).used_bytes() + req_size <= old(self).storage()->0@[0].nbytes(),
        ensures
            final(self).wf(),
            final(self).storage() == old(self).storage(),
            final(self).used_bytes() == old(self).used_bytes() + req_size,
            final(self).reported_bytes() == old(self).reported_bytes(),
            triplet_shaped(r),
            r@[0].nbits() == req_size * 8,
            forall|j: int|
                0 <= j < 3 ==> (#[trigger] r@[j]).bytes() == old(self).storage()->0@[j].bytes().subrange(
                    old(self).used_bytes() as int,
                    old(self).used_bytes() + req_size,
                ) && r@[j].zero_padded(),
    {
        let storage = self.beaver_storage.as_ref().unwrap();
        proof {
            storage@[0].lemma_wf();
            assert forall|j: int| 0 <= j < 3 implies (#[trigger] storage@[j]).nbytes() == storage@[0].nbytes() by {
                BitArray::lemma_same_layout(&storage@[j], &storage@[0]);
            }
        }
        let result = storage.to_slice(self.used, self.used + req_size);
        self.used = self.used + req_size;
        result
    }

    /// The bits of triplets taken since the last report; the report point moves to now.
    pub fn report_beaver_usage_then_reset(&mut self) -> (r: usize)
        requires
            old(self).wf(),
        ensures
            final(self).wf(),
            r == (old(self).used_bytes() - old(self).reported_bytes()) * 8,
            final(self).reported_bytes() == old(self).used_bytes(),
            final(self).used_bytes() == old(self).used_bytes(),
            final(self).storage() == old(self).storage(),
    {
        let out = (self.used - self.last_report) * 8;
        self.last_report = self.used;
        out
    }
}

impl Default for BeaverProvider {
    fn default() -> (r: Self)
        ensures
            r.wf(),
            r.storage() is None,
            r.used_bytes() == 0,
            r.reported_bytes() == 0,
    {
        Self::new()
    }
}

/// Triplets of the same number of bits drawn from the same seed are the same: every row
/// holds the same bytes, so providers that generated them and have taken as many bytes give
/// the same triplets on the next take.
pub proof fn lemma_same_seed_same_triplets(d1: D2BitArray, d2: D2BitArray, seed: Seq<u8>, n: nat)
    requires
        seeded_triplets(d1, seed, n),
        seeded_triplets(d2, seed, n),
    ensures
        forall|j: int| 0 <= j < 3 ==> (#[trigger] d1@[j]).bytes() == d2@[j].bytes() && d1@[j].nbits() == d2@[j].nbits(),
{
    assert forall|j: int| 0 <= j < 3 implies (#[trigger] d1@[j]).bytes() == d2@[j].bytes() && d1@[j].nbits() == d2@[j].nbits() by {
        assert(d1@[j].bytes() == seeded_row(seed, j as nat, n));
        assert(d2@[j].bytes() == seeded_row(seed, j as nat, n));
        assert(d1@[j].nbits() == d1@[0].nbits());
        assert(d2@[j].nbits() == d2@[0].nbits());
    }
}

/// The dealer's completion makes the Beaver relation hold over the dealer and the other
/// parties, whatever their shares, when the dealer's c row starts at zero.
pub proof fn lemma_dealer_relation(dealer: D2BitArray, completed: D2BitArray, others: Seq<D2BitArray>)
    requires
        dealer.wf(),
        triplet_shaped(dealer),
        dealer@[2].buf() == zeros(dealer@[2].buf().len()),
        others.len() > 0,
        forall|k: int| 0 <= k < others.len() ==> (#[trigger] others[k]).wf() && others[k].same_shape(&dealer),
        completed.same_shape(&dealer),
        completed@[0] == dealer@[0],
        completed@[1] == dealer@[1],
        completed@[2].wf(),
        completed@[2].buf() == bytes_xor(
            bytes_and(reconstructed_row(dealer, others, 0), reconstructed_row(dealer, others, 1)),
            reconstructed_row(dealer, others, 2),
        ),
    ensures
        beaver_relation(completed, others),
{
    let n = dealer@[2].buf().len();
    BitArray::lemma_same_layout(&dealer@[0], &dealer@[2]);
    BitArray::lemma_same_layout(&dealer@[1], &dealer@[2]);
    assert forall|j: int, k: int|
        0 <= j < 3 && 0 <= k < others.len() implies (#[trigger] column(others, j)[k]).buf().len()
        == n by {
        BitArray::lemma_same_layout(&others[k]@[j], &dealer@[j]);
        BitArray::lemma_same_layout(&dealer@[j], &dealer@[2]);
    }
    let c2 = completed@[2].buf();
    lemma_xor_fold_split(dealer@[0].buf(), column(others, 0));
    lemma_xor_fold_split(dealer@[1].buf(), column(others, 1));
    lemma_xor_fold_split(c2, column(others, 2));
    let ab = bytes_and(reconstructed_row(dealer, others, 0), reconstructed_row(dealer, others, 1));
    let s2 = xor_fold_arrays(zeros(n), column(others, 2));
    assert(reconstructed_row(dealer, others, 2) == s2);
    assert(c2.len() == n);
    assert forall|i: int| 0 <= i < n implies #[trigger] bytes_xor(c2, s2)[i] == ab[i] by {
        let (x, y) = (ab[i], s2[i]);
        assert((x ^ y) ^ y == x) by (bit_vector);
    }
    assert(bytes_xor(c2, s2) =~= ab);
}

/// The dealer's triplets and the triplets that the other parties draw from their seeds
/// satisfy the Beaver relation together: the xor of the c rows is the and of the xors of
/// the a rows and of the b rows.
pub proof fn lemma_seeded_beaver_relation(d: D2BitArray, seed: Seq<u8>, seeds: Seq<Seq<u8>>, n: nat, parties: Seq<D2BitArray>)
    requires
        dealer_triplets(d, seed, seeds, n),
        parties.len() == seeds.len(),
        forall|k: int| 0 <= k < parties.len() ==> seeded_triplets(#[trigger] parties[k], seeds[k], n),
    ensures
        beaver_relation(d, parties),
{
    let others = choose|others: Seq<D2BitArray>|
        #![trigger beaver_relation(d, others)]
        others.len() == seeds.len() && (forall|k: int| 0 <= k < others.len() ==> seeded_triplets(#[trigger] others[k], seeds[k], n))
            && beaver_relation(d, others);
    assert forall|j: int| 0 <= j < 3 implies #[trigger] reconstructed_row(d, others, j) == reconstructed_row(d, parties, j) by {
        assert forall|k: int| 0 <= k < column(others, j).len() implies (#[trigger] column(others, j)[k]).buf()
            == column(parties, j)[k].buf() by {
            assert(seeded_triplets(others[k], seeds[k], n));
            assert(seeded_triplets(parties[k], seeds[k], n));
            BitArray::lemma_same_content(&others[k]@[j], &parties[k]@[j]);
        }
        lemma_xor_fold_same_bufs(d@[j].buf(), column(others, j), column(parties, j));
    }
    assert(reconstructed_row(d, others, 0) == reconstructed_row(d, parties, 0));
    assert(reconstructed_row(d, others, 1) == reconstructed_row(d, parties, 1));
    assert(reconstructed_row(d, others, 2) == reconstructed_row(d, parties, 2));
}

} // verus!
