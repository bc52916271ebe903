//! The database of records, stored bit plane by bit plane, and its first-level PIR.
use vstd::prelude::*;
use vstd::arithmetic::power2::{pow2, lemma_pow2_unfold, lemma2_to64};
use crate::prc::config::{is_power_of_two, valid_db_dims, DBConfig};
use crate::rng::{fill_draws, Draw, SeededRng};
use crate::simd_array::bit_array::{all_sized, lemma_xor_fold_split, xor_fold_arrays, zeros, BitArray};
use crate::simd_array::bit_spec::{
    byte_bit, byte_parity, bytes_and, bytes_xor, fold_xor, lemma_byte_ext, lemma_fold_xor_single,
    lemma_fold_xor_xor, lemma_fold_xor_zeros, lemma_parity_single_bit, lemma_parity_xor, lemma_xor_laws, seq_bit,
    seq_parity, xor_bools,
};
use crate::simd_array::d2_bit_array::{seeded_row, D2BitArray};
use crate::simd_array::bit_spec::ceil8;

verus! {

/// The answer bit of first-level PIR for a query `q` on a row: the parity of `q & row`.
pub open spec fn pir_bit(q: Seq<u8>, row: Seq<u8>) -> bool {
    seq_parity(bytes_and(q, row))
}

/// A database of records of `record_size` bits. Bit `b` of record `idx` is bit
/// `idx % l1_dim` of row `idx / l1_dim` of plane `b`.
pub struct PRCDatabase {
    bit_dbs: Vec<D2BitArray>,
    record_size: usize,
    l2_dim: usize,
    l1_dim: usize,
}

impl PRCDatabase {
    /// Bits per record.
    pub closed spec fn rsize(&self) -> nat {
        self.record_size as nat
    }

    /// Bits per row.
    pub closed spec fn l1(&self) -> nat {
        self.l1_dim as nat
    }

    /// Rows per plane.
    pub closed spec fn l2(&self) -> nat {
        self.l2_dim as nat
    }

    /// Row `i` of plane `b`.
    pub closed spec fn row(&self, b: int, i: int) -> BitArray {
        self.bit_dbs@[b]@[i]
    }

    /// Bit `b` of record `idx`.
    pub open spec fn record_bit(&self, idx: int, b: int) -> bool {
        self.row(b, idx / self.l1() as int).bit(idx % self.l1() as int)
    }

    /// The value of the first `n` bits of record `idx`, least significant bit first.
    pub open spec fn record_value(&self, idx: int, n: nat) -> nat
        decreases n,
    {
        if n == 0 {
            0
        } else {
            self.record_value(idx, (n - 1) as nat) + if self.record_bit(idx, n - 1) {
                pow2((n - 1) as nat)
            } else {
                0
            }
        }
    }

    /// Row `i` of plane `b` holds the bytes of fill `b * l2 + i` of a ChaCha8 generator seeded
    /// with `seed`, with zero padding.
    pub open spec fn drawn_from(&self, seed: Seq<u8>) -> bool {
        forall|b: int, i: int|
            0 <= b < self.rsize() && 0 <= i < self.l2() ==> (#[trigger] self.row(b, i)).zero_padded()
                && self.row(b, i).bytes() == seeded_row(seed, (b * self.l2() + i) as nat, self.l1())
    }

    /// Dimensions are valid and every plane holds `l2` rows of `l1` bits.
    pub closed spec fn wf(&self) -> bool {
        &&& valid_db_dims(self.record_size as nat, self.l2_dim as nat, self.l1_dim as nat)
        &&& self.bit_dbs@.len() == self.record_size
        &&& forall|b: int|
            0 <= b < self.bit_dbs@.len() ==> (#[trigger] self.bit_dbs@[b])@.len() == self.l2_dim
                && all_sized(self.bit_dbs@[b]@, self.l1_dim as nat)
    }

    pub proof fn lemma_wf(&self)
        requires
            self.wf(),
        ensures
            valid_db_dims(self.rsize(), self.l2(), self.l1()),
            forall|b: int, i: int|
                0 <= b < self.rsize() && 0 <= i < self.l2() ==> (#[trigger] self.row(b, i)).wf()
                    && self.row(b, i).nbits() == self.l1(),
    {
    }

    /// A random database drawn from ChaCha8 seeded with `seed`: `record_size` planes of
    /// `l2_dim` rows of `l1_dim` bits, drawn in order.
    pub fn from_seed(record_size: usize, l2_dim: usize, l1_dim: usize, seed: &[u8; 32]) -> (r: Self)
        requires
            valid_db_dims(record_size as nat, l2_dim as nat, l1_dim as nat),
        ensures
            r.wf(),
            r.rsize() == record_size,
            r.l1() == l1_dim,
            r.l2() == l2_dim,
            r.drawn_from(seed@),
    {
        let ghost nb = ceil8(l1_dim as nat) as usize;
        let mut rng = SeededRng::from_seed(*seed);
        let mut bit_dbs: Vec<D2BitArray> = Vec::with_capacity(record_size);
        let mut i: usize = 0;
        assert(Seq::<Draw>::empty() =~= fill_draws(nb, 0));
        while i < record_size
            invariant
                valid_db_dims(record_size as nat, l2_dim as nat, l1_dim as nat),
                nb == ceil8(l1_dim as nat) as usize,
                i <= record_size,
                bit_dbs@.len() == i,
                forall|b: int|
                    0 <= b < i ==> (#[trigger] bit_dbs@[b])@.len() == l2_dim && all_sized(
                        bit_dbs@[b]@,
                        l1_dim as nat,
                    ),
                forall|b: int, k: int|
                    0 <= b < i && 0 <= k < l2_dim ==> (#[trigger] bit_dbs@[b]@[k]).zero_padded()
                        && bit_dbs@[b]@[k].bytes() == seeded_row(seed@, (b * l2_dim + k) as nat, l1_dim as nat),
                rng.seed() == seed@,
                rng.draws() == fill_draws(nb, (i * l2_dim) as nat),
            decreases record_size - i,
        {
            let ghost d0 = rng.draws();
            let plane = D2BitArray::random(l2_dim, l1_dim, &mut rng);
            proof {
                assert forall|k: int| 0 <= k < l2_dim implies (#[trigger] plane@[k]).bytes() == seeded_row(
                    seed@,
                    (i * l2_dim + k) as nat,
                    l1_dim as nat,
                ) by {
                    assert(d0 + fill_draws(nb, k as nat) =~= fill_draws(nb, (i * l2_dim + k) as nat));
                }
                assert((i + 1) * l2_dim == i * l2_dim + l2_dim) by (nonlinear_arith);
                assert(d0 + fill_draws(nb, l2_dim as nat) =~= fill_draws(nb, ((i + 1) * l2_dim) as nat));
            }
            bit_dbs.push(plane);
            i += 1;
        }
        PRCDatabase { bit_dbs, record_size, l2_dim, l1_dim }
    }

    /// The database that `config` describes; its seed must be set.
    pub fn from_config(config: &DBConfig) -> (r: Self)
        requires
            valid_db_dims(config.record_size_spec(), config.l2(), config.l1()),
            config.seed() is Some,
        ensures
            r.wf(),
            r.rsize() == config.record_size_spec(),
            r.l1() == config.l1(),
            r.l2() == config.l2(),
            r.drawn_from(config.seed()->0@),
    {
        Self::from_seed(config.db_record_size(), config.l2_dim(), config.l1_dim(), config.db_seed())
    }

    /// The position (bit in row, row) of record `idx`.
    fn idx_to_2dim(&self, idx: usize) -> (r: (usize, usize))
        requires
            self.wf(),
            idx < self.l1() * self.l2(),
        ensures
            r.0 == (idx as nat) % self.l1(),
            r.1 == (idx as nat) / self.l1(),
            r.0 < self.l1(),
            r.1 < self.l2(),
    {
        let l2 = idx / self.l1_dim;
        let l1 = idx % self.l1_dim;
        proof {
            assert((idx as nat) / self.l1() < self.l2()) by (nonlinear_arith)
                requires
                    idx < self.l1() * self.l2(),
                    self.l1() > 0,
            ;
        }
        (l1, l2)
    }

    /// Bit `bit_choice` of record `idx`.
    pub fn get_record_bit(&self, idx: usize, bit_choice: usize) -> (r: bool)
        requires
            self.wf(),
            idx < self.l1() * self.l2(),
            bit_choice < self.rsize(),
        ensures
            r == self.record_bit(idx as int, bit_choice as int),
    {
        let (l1, l2) = self.idx_to_2dim(idx);
        self.bit_dbs[bit_choice].get_array(l2).get(l1)
    }

    /// Record `idx`, least significant bit first.
    pub fn get_record(&self, idx: usize) -> (r: u32)
        requires
            self.wf(),
            idx < self.l1() * self.l2(),
        ensures
            r == self.record_value(idx as int, self.rsize()),
    {
        let mut out: u32 = 0;
        let mut pw: u32 = 1;
        let mut i: usize = 0;
        proof {
            lemma2_to64();
        }
        while i < self.record_size
            invariant
                self.wf(),
                idx < self.l1() * self.l2(),
                i <= self.rsize(),
                self.rsize() <= 32,
                i < self.rsize() ==> pw == pow2(i as nat),
                out == self.record_value(idx as int, i as nat),
                out < pow2(i as nat),
            decreases self.rsize() - i,
        {
            proof {
                lemma_pow2_unfold((i + 1) as nat);
                lemma_pow2_bound(i as nat);
            }
            let bit = self.get_record_bit(idx, i);
            if bit {
                out = out + pw;
            }
            if i + 1 < self.record_size {
                pw = pw * 2;
            }
            i += 1;
        }
        out
    }

    /// The base-2 logarithms of the dimensions (l1, l2).
    pub fn get_logdim(&self) -> (r: (usize, usize))
        requires
            self.wf(),
        ensures
            pow2(r.0 as nat) == self.l1(),
            pow2(r.1 as nat) == self.l2(),
    {
        (log2_exact(self.l1_dim), log2_exact(self.l2_dim))
    }

    /// The dimensions (l1, l2).
    pub fn get_dims(&self) -> (r: (usize, usize))
        ensures
            r.0 == self.l1(),
            r.1 == self.l2(),
    {
        (self.l1_dim, self.l2_dim)
    }

    /// Number of records.
    pub fn total_size(&self) -> (r: usize)
        requires
            self.wf(),
        ensures
            r == self.l1() * self.l2(),
    {
        self.l1_dim * self.l2_dim
    }

    /// First-level PIR with a secret-shared one-hot query over the rows of single-bit
    /// records: bit `i` of the answer is the parity of `ohe & row i`.
    pub fn lvl1_pir_retrieve(&self, ohe: &BitArray) -> (r: BitArray)
        requires
            self.wf(),
            self.rsize() == 1,
            ohe.wf(),
            ohe.nbits() == self.l1(),
        ensures
            r.wf(),
            r.nbits() == self.l2(),
            forall|i: int| 0 <= i < self.l2() ==> #[trigger] r.bit(i) == pir_bit(ohe.buf(), self.row(0, i).buf()),
    {
        proof {
            self.lemma_wf();
            lemma_power_of_two_pos(self.l2());
        }
        let mut out = BitArray::new(self.l2_dim);
        let ghost start = out.buf();
        let mut i: usize = 0;
        proof {
            out.lemma_wf();
        }
        while i < self.l2_dim
            invariant
                self.wf(),
                self.rsize() == 1,
                ohe.wf(),
                ohe.nbits() == self.l1(),
                out.wf(),
                out.nbits() == self.l2(),
                out.buf().len() == start.len(),
                i <= self.l2(),
                forall|k: int| 0 <= k < i ==> #[trigger] seq_bit(out.buf(), k) == pir_bit(ohe.buf(), self.row(0, k).buf()),
            decreases self.l2() - i,
        {
            let res = BitArray::inner_prod(ohe, self.bit_dbs[0].get_array(i));
            let ghost before = out.buf();
            proof {
                out.lemma_wf();
            }
            out.set_bit(i, res);
            proof {
                assert forall|k: int| 0 <= k < i + 1 implies #[trigger] seq_bit(out.buf(), k) == pir_bit(ohe.buf(), self.row(0, k).buf()) by {
                    crate::simd_array::bit_array::lemma_set_bit_bits(before, i as int, res, k);
                }
            }
            i += 1;
        }
        out
    }

    /// The first-level answer in the clear: bit `i` is bit `idx_lv_1` of row `i`.
    pub fn _lvl1_plain_idx(&self, idx_lv_1: usize) -> (r: BitArray)
        requires
            self.wf(),
            self.rsize() >= 1,
            idx_lv_1 < self.l1(),
        ensures
            r.wf(),
            r.nbits() == self.l2(),
            forall|i: int| 0 <= i < self.l2() ==> #[trigger] r.bit(i) == self.row(0, i).bit(idx_lv_1 as int),
    {
        proof {
            self.lemma_wf();
            lemma_power_of_two_pos(self.l2());
        }
        let mut out = BitArray::new(self.l2_dim);
        let mut i: usize = 0;
        proof {
            out.lemma_wf();
        }
        let ghost len = out.buf().len();
        while i < self.l2_dim
            invariant
                self.wf(),
                self.rsize() >= 1,
                idx_lv_1 < self.l1(),
                out.wf(),
                out.nbits() == self.l2(),
                out.buf().len() == len,
                i <= self.l2(),
                forall|k: int| 0 <= k < i ==> #[trigger] seq_bit(out.buf(), k) == self.row(0, k).bit(idx_lv_1 as int),
            decreases self.l2() - i,
        {
            let v = self.bit_dbs[0].get_array(i).get(idx_lv_1);
            let ghost before = out.buf();
            proof {
                out.lemma_wf();
            }
            out.set_bit(i, v);
            proof {
                assert forall|k: int| 0 <= k < i + 1 implies #[trigger] seq_bit(out.buf(), k) == self.row(0, k).bit(idx_lv_1 as int) by {
                    crate::simd_array::bit_array::lemma_set_bit_bits(before, i as int, v, k);
                }
            }
            i += 1;
        }
        out
    }
}

/// A power of two is at least 1.
pub proof fn lemma_power_of_two_pos(n: nat)
    requires
        is_power_of_two(n),
    ensures
        n >= 1,
{
    let k = choose|k: nat| k < 64 && #[trigger] pow2(k) == n;
    vstd::arithmetic::power2::lemma_pow2_pos(k);
}

proof fn lemma_pow2_bound(i: nat)
    requires
        i < 32,
    ensures
        pow2(i) < 0x1_0000_0000,
        pow2(i) * 2 <= 0x1_0000_0000,
        i + 1 < 32 ==> pow2(i) * 2 < 0x1_0000_0000,
{
    lemma2_to64();
    vstd::arithmetic::power2::lemma_pow2_strictly_increases(i, 32);
    lemma_pow2_unfold((i + 1) as nat);
    if i + 1 < 32 {
        vstd::arithmetic::power2::lemma_pow2_strictly_increases((i + 1) as nat, 32);
    }
}

/// The exponent of a power of two.
fn log2_exact(n: usize) -> (r: usize)
    requires
        is_power_of_two(n as nat),
    ensures
        pow2(r as nat) == n,
{
    let ghost e = choose|k: nat| k < 64 && #[trigger] pow2(k) == n;
    let mut m = n;
    let mut k: usize = 0;
    while m > 1
        invariant
            e < 64,
            k <= e,
            m == pow2((e - k) as nat),
            pow2(e) == n,
        decreases m,
    {
        proof {
            if e - k == 0 {
                vstd::arithmetic::power2::lemma2_to64();
            }
            lemma_pow2_unfold((e - k) as nat);
        }
        m = m / 2;
        k += 1;
    }
    proof {
        if e - k > 0 {
            lemma_pow2_unfold((e - k) as nat);
            vstd::arithmetic::power2::lemma_pow2_pos((e - k - 1) as nat);
        }
        vstd::arithmetic::power2::lemma2_to64();
    }
    k
}

/// The bits of a one-hot byte string at `idx`.
pub open spec fn one_hot_at(q: Seq<u8>, idx: int) -> bool {
    forall|j: int| 0 <= j < q.len() * 8 ==> #[trigger] seq_bit(q, j) == (j == idx)
}

/// First-level PIR is correct on a query shared in two: if the shares xor to the one-hot
/// string of `idx`, the xor of the two answers is bit `idx` of the row.
pub proof fn lemma_lvl1_pir(q1: Seq<u8>, q2: Seq<u8>, row: Seq<u8>, idx: int)
    requires
        q1.len() == q2.len(),
        q1.len() == row.len(),
        0 <= idx < q1.len() * 8,
        one_hot_at(bytes_xor(q1, q2), idx),
    ensures
        (pir_bit(q1, row) != pir_bit(q2, row)) == seq_bit(row, idx),
{
    let a = bytes_and(q1, row);
    let b = bytes_and(q2, row);
    let oh = bytes_xor(q1, q2);
    let prod = bytes_and(oh, row);
    assert forall|k: int| 0 <= k < a.len() implies #[trigger] bytes_xor(a, b)[k] == prod[k] by {
        let (x, y, r) = (q1[k], q2[k], row[k]);
        assert((x & r) ^ (y & r) == (x ^ y) & r) by (bit_vector);
    }
    assert(bytes_xor(a, b) =~= prod);
    lemma_fold_xor_xor(a, b);
    lemma_parity_xor(fold_xor(a), fold_xor(b));
    let t = idx / 8;
    let s = (idx % 8) as u8;
    assert forall|k: int| 0 <= k < prod.len() && k != t implies #[trigger] prod[k] == 0u8 by {
        assert forall|j: int| 0 <= j < 8 implies byte_bit(oh[k], j) == byte_bit(0u8, j) by {
            assert(seq_bit(oh, k * 8 + j) == false);
            assert((k * 8 + j) / 8 == k);
            assert((k * 8 + j) % 8 == j);
            let jj = j as u8;
            assert(((0u8 >> jj) & 1u8) == 0u8) by (bit_vector);
        }
        lemma_byte_ext(oh[k], 0u8);
        let r = row[k];
        assert(0u8 & r == 0u8) by (bit_vector);
    }
    assert forall|j: int| 0 <= j < 8 implies byte_bit(oh[t], j) == byte_bit(1u8 << s, j) by {
        assert(seq_bit(oh, t * 8 + j) == (t * 8 + j == idx));
        assert((t * 8 + j) / 8 == t);
        assert((t * 8 + j) % 8 == j);
        let jj = j as u8;
        assert((((1u8 << s) >> jj) & 1u8 == 1u8) <==> jj == s) by (bit_vector)
            requires
                s < 8,
                jj < 8,
        ;
    }
    lemma_byte_ext(oh[t], 1u8 << s);
    let r = row[t];
    assert((1u8 << s) & r == r & (1u8 << s)) by (bit_vector);
    lemma_fold_xor_single(prod, t);
    lemma_parity_single_bit(r, s);
}

/// The answers of two databases with the same rows to queries that xor to the one-hot
/// string of `idx` xor to the column of bit `idx`.
pub proof fn lemma_lvl1_pir_retrieve(db: &PRCDatabase, q1: &BitArray, q2: &BitArray, idx: int, i: int)
    requires
        db.wf(),
        q1.wf(),
        q2.wf(),
        q1.nbits() == db.l1(),
        q2.nbits() == db.l1(),
        0 <= idx < db.l1(),
        0 <= i < db.l2(),
        db.rsize() >= 1,
        one_hot_at(bytes_xor(q1.buf(), q2.buf()), idx),
    ensures
        (pir_bit(q1.buf(), db.row(0, i).buf()) != pir_bit(q2.buf(), db.row(0, i).buf())) == db.row(0, i).bit(idx),
{
    db.lemma_wf();
    BitArray::lemma_same_layout(q1, q2);
    BitArray::lemma_same_layout(q1, &db.row(0, i));
    q1.lemma_wf();
    lemma_lvl1_pir(q1.buf(), q2.buf(), db.row(0, i).buf(), idx);
}

/// First-level PIR answers are linear in the query: the answer to the xor of two queries is
/// the xor of their answers.
proof fn lemma_pir_linear(a: Seq<u8>, b: Seq<u8>, row: Seq<u8>)
    requires
        a.len() == row.len(),
        b.len() == row.len(),
    ensures
        pir_bit(bytes_xor(a, b), row) == (pir_bit(a, row) != pir_bit(b, row)),
{
    let aa = bytes_and(a, row);
    let bb = bytes_and(b, row);
    let ab = bytes_and(bytes_xor(a, b), row);
    assert forall|k: int| 0 <= k < aa.len() implies #[trigger] bytes_xor(aa, bb)[k] == ab[k] by {
        let (x, y, r) = (a[k], b[k], row[k]);
        lemma_xor_laws(x, y, r);
        lemma_xor_laws(x, r, 0u8);
        lemma_xor_laws(y, r, 0u8);
        lemma_xor_laws(x ^ y, r, 0u8);
    }
    assert(bytes_xor(aa, bb) =~= ab);
    lemma_fold_xor_xor(aa, bb);
    lemma_parity_xor(fold_xor(aa), fold_xor(bb));
}

/// The answer to the zero query is false.
proof fn lemma_pir_zero(row: Seq<u8>)
    ensures
        !pir_bit(zeros(row.len()), row),
{
    let z = bytes_and(zeros(row.len()), row);
    assert forall|k: int| 0 <= k < z.len() implies z[k] == 0u8 by {
        lemma_xor_laws(row[k], 0u8, 0u8);
        lemma_xor_laws(0u8, row[k], 0u8);
    }
    lemma_fold_xor_zeros(z);
    assert(!byte_parity(0u8)) by (bit_vector);
}

/// The answers of all parties xor to the answer to the xor of their queries.
proof fn lemma_pir_fold(qs: Seq<BitArray>, row: Seq<u8>)
    requires
        forall|p: int| 0 <= p < qs.len() ==> (#[trigger] qs[p]).buf().len() == row.len(),
    ensures
        xor_bools(Seq::new(qs.len(), |p: int| pir_bit(qs[p].buf(), row))) == pir_bit(xor_fold_arrays(zeros(row.len()), qs), row),
    decreases qs.len(),
{
    if qs.len() == 0 {
        lemma_pir_zero(row);
    } else {
        let d = qs.drop_last();
        lemma_pir_fold(d, row);
        lemma_xor_fold_split(zeros(row.len()), d);
        lemma_pir_linear(xor_fold_arrays(zeros(row.len()), d), qs.last().buf(), row);
        assert(Seq::new(qs.len(), |p: int| pir_bit(qs[p].buf(), row)).drop_last() =~= Seq::new(
            d.len(),
            |p: int| pir_bit(d[p].buf(), row),
        ));
    }
}

/// First-level PIR over any number of parties: if the parties' query shares xor to the
/// one-hot string of `idx`, their answers xor to bit `idx` of the row.
pub proof fn lemma_lvl1_pir_parties(qs: Seq<BitArray>, row: Seq<u8>, idx: int)
    requires
        forall|p: int| 0 <= p < qs.len() ==> (#[trigger] qs[p]).buf().len() == row.len(),
        0 <= idx < row.len() * 8,
        one_hot_at(xor_fold_arrays(zeros(row.len()), qs), idx),
    ensures
        xor_bools(Seq::new(qs.len(), |p: int| pir_bit(qs[p].buf(), row))) == seq_bit(row, idx),
{
    let n = row.len();
    lemma_pir_fold(qs, row);
    let q = xor_fold_arrays(zeros(n), qs);
    lemma_xor_fold_split(zeros(n), qs);
    assert forall|k: int| 0 <= k < n implies #[trigger] bytes_xor(q, zeros(n))[k] == q[k] by {
        lemma_xor_laws(q[k], 0u8, 0u8);
    }
    assert(bytes_xor(q, zeros(n)) =~= q);
    lemma_lvl1_pir(q, zeros(n), row, idx);
    lemma_pir_zero(row);
}

/// The first-level PIR answers of all parties to query shares that xor to the one-hot string
/// of `idx` xor, on every row, to bit `idx` of that row.
pub proof fn lemma_lvl1_pir_retrieve_parties(db: &PRCDatabase, qs: Seq<BitArray>, idx: int, i: int)
    requires
        db.wf(),
        forall|p: int| 0 <= p < qs.len() ==> (#[trigger] qs[p]).wf() && qs[p].nbits() == db.l1(),
        0 <= idx < db.l1(),
        0 <= i < db.l2(),
        db.rsize() >= 1,
        qs.len() > 0,
        one_hot_at(xor_fold_arrays(zeros(qs[0].buf().len()), qs), idx),
    ensures
        xor_bools(Seq::new(qs.len(), |p: int| pir_bit(qs[p].buf(), db.row(0, i).buf()))) == db.row(0, i).bit(idx),
{
    db.lemma_wf();
    let row = db.row(0, i);
    assert forall|p: int| 0 <= p < qs.len() implies (#[trigger] qs[p]).buf().len() == row.buf().len() by {
        BitArray::lemma_same_layout(&qs[p], &row);
    }
    row.lemma_wf();
    lemma_lvl1_pir_parties(qs, row.buf(), idx);
}

/// Databases drawn from the same seed with the same dimensions hold the same rows, hence the
/// same records.
pub proof fn lemma_same_seed_same_db(d1: &PRCDatabase, d2: &PRCDatabase, seed: Seq<u8>)
    requires
        d1.wf(),
        d2.wf(),
        d1.rsize() == d2.rsize(),
        d1.l1() == d2.l1(),
        d1.l2() == d2.l2(),
        d1.drawn_from(seed),
        d2.drawn_from(seed),
    ensures
        forall|b: int, i: int| 0 <= b < d1.rsize() && 0 <= i < d1.l2() ==> (#[trigger] d1.row(b, i)).buf() == d2.row(b, i).buf(),
        forall|idx: int, b: int|
            0 <= idx < d1.l1() * d1.l2() && 0 <= b < d1.rsize() ==> #[trigger] d1.record_bit(idx, b) == d2.record_bit(idx, b),
{
    d1.lemma_wf();
    d2.lemma_wf();
    assert forall|b: int, i: int| 0 <= b < d1.rsize() && 0 <= i < d1.l2() implies (#[trigger] d1.row(b, i)).buf() == d2.row(b, i).buf() by {
        BitArray::lemma_same_content(&d1.row(b, i), &d2.row(b, i));
    }
    assert forall|idx: int, b: int|
        0 <= idx < d1.l1() * d1.l2() && 0 <= b < d1.rsize() implies #[trigger] d1.record_bit(idx, b) == d2.record_bit(idx, b) by {
        let l1 = d1.l1() as int;
        let l2 = d1.l2() as int;
        assert(0 <= idx / l1 < l2) by (nonlinear_arith)
            requires
                0 <= idx < l1 * l2,
                l1 > 0,
        ;
        assert(d1.row(b, idx / l1).buf() == d2.row(b, idx / l1).buf());
    }
}

} // verus!
