//! daBits: one random bit shared both in Z_2 and modulo the group order, for converting
//! boolean shares to arithmetic shares.
use vstd::prelude::*;
use vstd::arithmetic::div_mod::{lemma_add_mod_noop, lemma_mod_bound, lemma_mod_twice, lemma_small_mod, lemma_sub_mod_noop};
use crate::cor_rnd::scalar::{group_order, le_value};
use crate::cor_rnd::sharing::ArithValueT;
use crate::rng::{chacha8_scalar, chacha8_word, Draw, SeededRng};

verus! {

/// A share of a daBit: a random bit r shared as `r_z2` in Z_2 and as `r_zp` modulo the
/// group order.
#[derive(Debug)]
pub struct DaBit {
    pub r_z2: bool,
    pub r_zp: ArithValueT,
}

/// The group order as an integer.
pub open spec fn order() -> int {
    group_order() as int
}

/// `acc` xored with the Z_2 parts of `s`, in order.
pub open spec fn z2_fold(acc: bool, s: Seq<DaBit>) -> bool
    decreases s.len(),
{
    if s.len() == 0 {
        acc
    } else {
        z2_fold(acc, s.drop_last()) != s.last().r_z2
    }
}

/// `acc` plus the arithmetic parts of `s`, reduced after each addition.
pub open spec fn zp_fold(acc: int, s: Seq<DaBit>) -> int
    decreases s.len(),
{
    if s.len() == 0 {
        acc
    } else {
        (zp_fold(acc, s.drop_last()) + s.last().r_zp.val()) % order()
    }
}

/// `acc` minus the arithmetic parts of `s`, reduced after each subtraction.
pub open spec fn zp_sub_fold(acc: int, s: Seq<DaBit>) -> int
    decreases s.len(),
{
    if s.len() == 0 {
        acc
    } else {
        (zp_sub_fold(acc, s.drop_last()) - s.last().r_zp.val()) % order()
    }
}

/// The plain sum of the arithmetic parts of `s`.
pub open spec fn zp_total(s: Seq<DaBit>) -> int
    decreases s.len(),
{
    if s.len() == 0 {
        0
    } else {
        zp_total(s.drop_last()) + s.last().r_zp.val()
    }
}

/// Element `i` of each sequence of `s`, in order.
pub open spec fn dabit_column(s: Seq<Seq<DaBit>>, i: int) -> Seq<DaBit> {
    Seq::new(s.len(), |k: int| s[k][i])
}

/// Reconstructing `first` with `rest` gives one bit in both domains: the xor of the Z_2
/// parts is the sum of the arithmetic parts modulo the group order.
pub open spec fn dabit_relation(first: DaBit, rest: Seq<DaBit>) -> bool {
    zp_fold(first.r_zp.val() as int, rest) == if z2_fold(first.r_z2, rest) {
        1int
    } else {
        0int
    }
}

/// The draws of `count` daBits: a word for the bit, then a scalar, for each.
pub open spec fn dabit_draws(count: nat) -> Seq<Draw> {
    Seq::new(2 * count, |k: int| if k % 2 == 0 { Draw::Word } else { Draw::Scalar })
}

/// The Z_2 part of daBit `i` drawn from a generator seeded with `seed` after `draws`: the low
/// bit of a word.
pub open spec fn drawn_dabit_bit(seed: Seq<u8>, draws: Seq<Draw>, i: nat) -> bool {
    chacha8_word(seed, draws + dabit_draws(i)) % 2 == 1
}

/// The arithmetic part of daBit `i` drawn from a generator seeded with `seed` after
/// `draws`: the scalar drawn after the word of its bit.
pub open spec fn drawn_dabit_val(seed: Seq<u8>, draws: Seq<Draw>, i: nat) -> nat {
    le_value(chacha8_scalar(seed, (draws + dabit_draws(i)).push(Draw::Word)))
}

/// `v` holds the first daBits drawn from a generator seeded with `seed` after `draws`.
pub open spec fn drawn_dabits(v: Seq<DaBit>, seed: Seq<u8>, draws: Seq<Draw>) -> bool {
    forall|i: int|
        0 <= i < v.len() ==> (#[trigger] v[i]).r_z2 == drawn_dabit_bit(seed, draws, i as nat) && v[i].r_zp.val()
            == drawn_dabit_val(seed, draws, i as nat)
}

/// `v` holds the dealer's `n` daBit shares for the parties with seeds `seeds`: at each
/// position the daBit relation holds with the daBits that those parties draw from their
/// seeds.
pub open spec fn dealer_dabits(v: Seq<DaBit>, seeds: Seq<Seq<u8>>, n: nat) -> bool {
    &&& v.len() == n
    &&& exists|others: Seq<Seq<DaBit>>|
        #![trigger dabit_columns_sized(others, n)]
        others.len() == seeds.len() && dabit_columns_sized(others, n) && (forall|k: int|
            0 <= k < others.len() ==> drawn_dabits(#[trigger] others[k], seeds[k], Seq::<Draw>::empty()))
            && forall|i: int| 0 <= i < n ==> dabit_relation(#[trigger] v[i], dabit_column(others, i))
}

impl Clone for DaBit {
    fn clone(&self) -> (r: Self)
        ensures
            r == *self,
    {
        DaBit { r_z2: self.r_z2, r_zp: self.r_zp }
    }
}

impl DaBit {
    /// `bit_num` random daBit shares drawn from `rng`: each takes the low bit of a
    /// `next_u32` and a random scalar.
    pub fn random_dabits(bit_num: usize, rng: &mut SeededRng) -> (r: Vec<DaBit>)
        ensures
            r@.len() == bit_num,
            forall|i: int| 0 <= i < bit_num ==> (#[trigger] r@[i]).r_zp.val() < group_order(),
            drawn_dabits(r@, old(rng).seed(), old(rng).draws()),
            final(rng).seed() == old(rng).seed(),
            final(rng).draws() == old(rng).draws() + dabit_draws(bit_num as nat),
    {
        let mut out: Vec<DaBit> = Vec::with_capacity(bit_num);
        let mut i: usize = 0;
        assert(old(rng).draws() + dabit_draws(0) =~= old(rng).draws());
        while i < bit_num
            invariant
                i <= bit_num,
                out@.len() == i,
                forall|k: int| 0 <= k < i ==> (#[trigger] out@[k]).r_zp.val() < group_order(),
                drawn_dabits(out@, old(rng).seed(), old(rng).draws()),
                rng.seed() == old(rng).seed(),
                rng.draws() == old(rng).draws() + dabit_draws(i as nat),
            decreases bit_num - i,
        {
            let r_z2 = (rng.next_u32() % 2) == 1;
            let r_zp = ArithValueT::random(rng);
            out.push(DaBit { r_z2, r_zp });
            assert((old(rng).draws() + dabit_draws(i as nat)).push(Draw::Word).push(Draw::Scalar) =~= old(rng).draws()
                + dabit_draws((i + 1) as nat));
            i += 1;
        }
        out
    }

    /// A daBit whose two parts are the same random bit.
    fn init_single_bit(rng: &mut SeededRng) -> (r: Self)
        ensures
            r.r_zp.val() == if r.r_z2 {
                1nat
            } else {
                0nat
            },
    {
        let val = rng.next_u32() % 2;
        DaBit { r_z2: val == 1, r_zp: ArithValueT::from_u32(val) }
    }

    /// Adds a share: xor in Z_2, addition modulo the group order.
    pub fn add(&mut self, da: &DaBit)
        ensures
            final(self).r_z2 == (old(self).r_z2 != da.r_z2),
            final(self).r_zp.val() == (old(self).r_zp.val() + da.r_zp.val()) % group_order(),
    {
        self.r_z2 = self.r_z2 ^ da.r_z2;
        self.r_zp.add(&da.r_zp);
    }

    /// Subtracts a share: xor in Z_2, subtraction modulo the group order.
    pub fn sub(&mut self, da: &DaBit)
        ensures
            final(self).r_z2 == (old(self).r_z2 != da.r_z2),
            final(self).r_zp.val() == (old(self).r_zp.val() - da.r_zp.val()) % order(),
    {
        self.r_z2 = self.r_z2 ^ da.r_z2;
        self.r_zp.sub(&da.r_zp);
    }

    /// Reconstructs a daBit: the first share plus the others, in order.
    pub fn reconstruct(dabits: Vec<DaBit>) -> (r: Self)
        requires
            dabits@.len() > 0,
        ensures
            r.r_z2 == z2_fold(dabits@[0].r_z2, dabits@.drop_first()),
            r.r_zp.val() == zp_fold(dabits@[0].r_zp.val() as int, dabits@.drop_first()),
    {
        let mut out = dabits[0].clone();
        let ghost rest = dabits@.drop_first();
        let mut i: usize = 1;
        while i < dabits.len()
            invariant
                dabits@.len() > 0,
                rest == dabits@.drop_first(),
                1 <= i <= dabits@.len(),
                out.r_z2 == z2_fold(dabits@[0].r_z2, rest.take(i - 1)),
                out.r_zp.val() == zp_fold(dabits@[0].r_zp.val() as int, rest.take(i - 1)),
            decreases dabits@.len() - i,
        {
            proof {
                assert(rest.take(i as int).drop_last() =~= rest.take(i - 1));
                assert(rest.take(i as int).last() == dabits@[i as int]);
            }
            out.add(&dabits[i]);
            i += 1;
        }
        assert(rest.take(rest.len() as int) =~= rest);
        out
    }

    /// Completes the dealer's daBits: each of `bits` (a bit shared identically in both
    /// domains) minus the shares of the other parties at the same position.
    pub fn complete_dealer_dabits(bits: Vec<DaBit>, other_shares: Vec<Vec<DaBit>>) -> (r: Vec<
        DaBit,
    >)
        requires
            forall|k: int| 0 <= k < other_shares@.len() ==> (#[trigger] other_shares@[k])@.len() == bits@.len(),
        ensures
            r@.len() == bits@.len(),
            forall|i: int|
                0 <= i < bits@.len() ==> (#[trigger] r@[i]).r_z2 == z2_fold(
                    bits@[i].r_z2,
                    dabit_column(other_shares@.map_values(|v: Vec<DaBit>| v@), i),
                ) && r@[i].r_zp.val() == zp_sub_fold(
                    bits@[i].r_zp.val() as int,
                    dabit_column(other_shares@.map_values(|v: Vec<DaBit>| v@), i),
                ),
    {
        let ghost others = other_shares@.map_values(|v: Vec<DaBit>| v@);
        let n = bits.len();
        let mut out: Vec<DaBit> = Vec::with_capacity(n);
        let mut i: usize = 0;
        while i < n
            invariant
                n == bits@.len(),
                others == other_shares@.map_values(|v: Vec<DaBit>| v@),
                forall|k: int| 0 <= k < other_shares@.len() ==> (#[trigger] other_shares@[k])@.len() == bits@.len(),
                i <= n,
                out@.len() == i,
                forall|m: int|
                    0 <= m < i ==> (#[trigger] out@[m]).r_z2 == z2_fold(
                        bits@[m].r_z2,
                        dabit_column(others, m),
                    ) && out@[m].r_zp.val() == zp_sub_fold(
                        bits@[m].r_zp.val() as int,
                        dabit_column(others, m),
                    ),
            decreases n - i,
        {
            let mut acc = bits[i].clone();
            let mut k: usize = 0;
            while k < other_shares.len()
                invariant
                    n == bits@.len(),
                    i < n,
                    others == other_shares@.map_values(|v: Vec<DaBit>| v@),
                    forall|j: int| 0 <= j < other_shares@.len() ==> (#[trigger] other_shares@[j])@.len() == bits@.len(),
                    k <= other_shares@.len(),
                    acc.r_z2 == z2_fold(bits@[i as int].r_z2, dabit_column(others, i as int).take(k as int)),
                    acc.r_zp.val() == zp_sub_fold(
                        bits@[i as int].r_zp.val() as int,
                        dabit_column(others, i as int).take(k as int),
                    ),
                decreases other_shares@.len() - k,
            {
                proof {
                    let col = dabit_column(others, i as int);
                    assert(col.take(k + 1).drop_last() =~= col.take(k as int));
                    assert(col.take(k + 1).last() == other_shares@[k as int]@[i as int]);
                }
                acc.sub(&other_shares[k][i]);
                k += 1;
            }
            proof {
                let col = dabit_column(others, i as int);
                assert(col.take(col.len() as int) =~= col);
            }
            out.push(acc);
            i += 1;
        }
        out
    }
}

/// Provides daBits, either drawn from a seed (a regular party) or completed so that the
/// relation holds over all parties (the dealer).
pub struct DaBitProvider {
    da_bit_storage: Option<Vec<DaBit>>,
    used: usize,
    last_report: usize,
}

impl DaBitProvider {
    /// The stored daBits.
    pub closed spec fn storage(&self) -> Option<Seq<DaBit>> {
        match self.da_bit_storage {
            Some(v) => Some(v@),
            None => None,
        }
    }

    /// DaBits taken so far.
    pub closed spec fn used_count(&self) -> nat {
        self.used as nat
    }

    /// DaBits taken at the last usage report.
    pub closed spec fn reported_count(&self) -> nat {
        self.last_report as nat
    }

    /// The report point is not past the use point, which is not past the storage.
    pub open spec fn wf(&self) -> bool {
        &&& self.reported_count() <= self.used_count()
        &&& self.storage() matches Some(v) ==> self.used_count() <= v.len()
    }

    /// A provider with no daBits.
    pub fn new() -> (r: Self)
        ensures
            r.wf(),
            r.storage() is None,
            r.used_count() == 0,
            r.reported_count() == 0,
    {
        DaBitProvider { da_bit_storage: None, used: 0, last_report: 0 }
    }

    /// Draws `bit_num` daBit shares from ChaCha8 seeded with `seed`; counters restart.
    pub fn generate_with_seed(&mut self, bit_num: usize, seed: &[u8; 32])
        ensures
            final(self).wf(),
            final(self).storage() matches Some(v) && v.len() == bit_num && drawn_dabits(v, seed@, Seq::<Draw>::empty()),
            final(self).used_count() == 0,
            final(self).reported_count() == 0,
    {
        let mut rng = SeededRng::from_seed(*seed);
        self.da_bit_storage = Some(DaBit::random_dabits(bit_num, &mut rng));
        self.used = 0;
        self.last_report = 0;
    }

    /// Generates the dealer's daBits: for each position a random bit, minus the shares that
    /// the parties with the given seeds draw, so that the reconstruction over all parties
    /// is one bit in both domains. Counters restart.
    pub fn generate_as_dealer(
        &mut self,
        bit_num: usize,
        seed: &[u8; 32],
        other_party_seeds: Vec<&[u8; 32]>,
    )
        ensures
            final(self).wf(),
            final(self).used_count() == 0,
            final(self).reported_count() == 0,
            final(self).storage() matches Some(v) && dealer_dabits(
                v,
                other_party_seeds@.map_values(|s: &[u8; 32]| s@),
                bit_num as nat,
            ),
    {
        let mut dealer_rng = SeededRng::from_seed(*seed);
        let n = other_party_seeds.len();
        let mut other_shares: Vec<Vec<DaBit>> = Vec::with_capacity(n);
        let mut k: usize = 0;
        while k < n
            invariant
                n == other_party_seeds@.len(),
                k <= n,
                other_shares@.len() == k,
                forall|j: int| 0 <= j < k ==> (#[trigger] other_shares@[j])@.len() == bit_num,
                forall|j: int| 0 <= j < k ==> drawn_dabits((#[trigger] other_shares@[j])@, other_party_seeds@[j]@, Seq::<Draw>::empty()),
            decreases n - k,
        {
            let mut other_rng = SeededRng::from_seed(*other_party_seeds[k]);
            other_shares.push(DaBit::random_dabits(bit_num, &mut other_rng));
            k += 1;
        }
        let mut bits: Vec<DaBit> = Vec::with_capacity(bit_num);
        let mut i: usize = 0;
        while i < bit_num
            invariant
                i <= bit_num,
                bits@.len() == i,
                forall|m: int| 0 <= m < i ==> (#[trigger] bits@[m]).r_zp.val() == if bits@[m].r_z2 {
                    1nat
                } else {
                    0nat
                },
            decreases bit_num - i,
        {
            bits.push(DaBit::init_single_bit(&mut dealer_rng));
            i += 1;
        }
        let ghost others = other_shares@.map_values(|v: Vec<DaBit>| v@);
        let ghost bs = bits@;
        let dealer = DaBit::complete_dealer_dabits(bits, other_shares);
        proof {
            assert(dabit_columns_sized(others, bit_num as nat));
            let seeds = other_party_seeds@.map_values(|s: &[u8; 32]| s@);
            assert forall|k: int| 0 <= k < others.len() implies drawn_dabits(
                #[trigger] others[k],
                seeds[k],
                Seq::<Draw>::empty(),
            ) by {
                assert(others[k] == other_shares@[k]@);
            }
            assert forall|m: int| 0 <= m < bit_num implies dabit_relation(
                #[trigger] dealer@[m],
                dabit_column(others, m),
            ) by {
                lemma_dealer_dabit(bs[m], dealer@[m], dabit_column(others, m));
            }
        }
        self.da_bit_storage = Some(dealer);
        self.used = 0;
        self.last_report = 0;
    }

    /// Whether `req_size` more daBits are stored.
    pub fn can_take(&self, req_size: usize) -> (r: bool)
        requires
            self.wf(),
        ensures
            r == (self.storage() is Some && self.used_count() + req_size <= self.storage()->0.len()),
    {
        match &self.da_bit_storage {
            Some(s) => req_size <= s.len() && self.used <= s.len() - req_size,
            None => false,
        }
    }

    /// The next `req_size` daBits; the usage counter advances.
    pub fn take(&mut self, req_size: usize) -> (r: Vec<DaBit>)
        requires
            old(self).wf(),
            old(self).storage() is Some,
            old(self).used_count() + req_size <= old(self).storage()->0.len(),
        ensures
            final(self).wf(),
            final(self).storage() == old(self).storage(),
            final(self).used_count() == old(self).used_count() + req_size,
            final(self).reported_count() == old(self).reported_count(),
            r@ == old(self).storage()->0.subrange(
                old(self).used_count() as int,
                old(self).used_count() + req_size,
            ),
    {
        let storage = self.da_bit_storage.as_ref().unwrap();
        let total = storage.len();
        let mut result: Vec<DaBit> = Vec::with_capacity(req_size);
        let mut i: usize = 0;
        while i < req_size
            invariant
                total == storage@.len(),
                self.used + req_size <= storage@.len(),
                i <= req_size,
                result@ == storage@.subrange(self.used as int, self.used + i),
            decreases req_size - i,
        {
            result.push(storage[self.used + i].clone());
            i += 1;
            assert(result@ =~= storage@.subrange(self.used as int, self.used + i));
        }
        self.used = self.used + req_size;
        result
    }

    /// The daBits taken since the last report; the report point moves to now.
    pub fn report_dabit_usage_then_reset(&mut self) -> (r: usize)
        requires
            old(self).wf(),
        ensures
            final(self).wf(),
            r == old(self).used_count() - old(self).reported_count(),
            final(self).reported_count() == old(self).used_count(),
            final(self).used_count() == old(self).used_count(),
            final(self).storage() == old(self).storage(),
    {
        let out = self.used - self.last_report;
        self.last_report = self.used;
        out
    }
}

impl Default for DaBitProvider {
    fn default() -> (r: Self)
        ensures
            r.wf(),
            r.storage() is None,
            r.used_count() == 0,
            r.reported_count() == 0,
    {
        Self::new()
    }
}

/// Every sequence of `s` holds `n` daBits.
pub open spec fn dabit_columns_sized(s: Seq<Seq<DaBit>>, n: nat) -> bool {
    forall|k: int| 0 <= k < s.len() ==> (#[trigger] s[k]).len() == n
}

/// Xoring the same bits in twice gives back the start.
pub proof fn lemma_z2_fold_twice(acc: bool, s: Seq<DaBit>)
    ensures
        z2_fold(z2_fold(acc, s), s) == acc,
    decreases s.len(),
{
    if s.len() > 0 {
        lemma_z2_fold_split(z2_fold(acc, s), s);
        lemma_z2_fold_split(acc, s);
    }
}

/// Folding xors from `acc` is `acc` xored with the fold from `false`.
pub proof fn lemma_z2_fold_split(acc: bool, s: Seq<DaBit>)
    ensures
        z2_fold(acc, s) == (acc != z2_fold(false, s)),
    decreases s.len(),
{
    if s.len() > 0 {
        lemma_z2_fold_split(acc, s.drop_last());
    }
}

/// The reduced sum is congruent to the plain sum.
pub proof fn lemma_zp_fold_mod(acc: int, s: Seq<DaBit>)
    ensures
        zp_fold(acc, s) % order() == (acc + zp_total(s)) % order(),
    decreases s.len(),
{
    if s.len() > 0 {
        let t = s.drop_last();
        lemma_zp_fold_mod(acc, t);
        let (x, y) = (zp_fold(acc, t), s.last().r_zp.val() as int);
        lemma_mod_twice(x + y, order());
        lemma_add_mod_noop(x, y, order());
        lemma_add_mod_noop(acc + zp_total(t), y, order());
    }
}

/// The reduced difference is congruent to the plain difference.
pub proof fn lemma_zp_sub_fold_mod(acc: int, s: Seq<DaBit>)
    ensures
        zp_sub_fold(acc, s) % order() == (acc - zp_total(s)) % order(),
    decreases s.len(),
{
    if s.len() > 0 {
        let t = s.drop_last();
        lemma_zp_sub_fold_mod(acc, t);
        let (x, y) = (zp_sub_fold(acc, t), s.last().r_zp.val() as int);
        lemma_mod_twice(x - y, order());
        lemma_sub_mod_noop(x, y, order());
        lemma_sub_mod_noop(acc - zp_total(t), y, order());
    }
}

/// The dealer's completion of a bit shared identically in both domains reconstructs,
/// with the other parties' shares, to that bit in both domains.
pub proof fn lemma_dealer_dabit(bit: DaBit, dealer: DaBit, rest: Seq<DaBit>)
    requires
        bit.r_zp.val() == if bit.r_z2 {
            1nat
        } else {
            0nat
        },
        dealer.r_z2 == z2_fold(bit.r_z2, rest),
        dealer.r_zp.val() == zp_sub_fold(bit.r_zp.val() as int, rest),
    ensures
        dabit_relation(dealer, rest),
{
    lemma_z2_fold_twice(bit.r_z2, rest);
    let b = bit.r_zp.val() as int;
    let d = dealer.r_zp.val() as int;
    lemma_zp_sub_fold_mod(b, rest);
    lemma_zp_fold_mod(d, rest);
    lemma_add_mod_noop(d, zp_total(rest), order());
    lemma_add_mod_noop(b - zp_total(rest), zp_total(rest), order());
    lemma_small_mod(b as nat, order() as nat);
    if rest.len() > 0 {
        let t = rest.drop_last();
        lemma_mod_bound(zp_fold(d, t) + rest.last().r_zp.val(), order());
        lemma_small_mod(zp_fold(d, rest) as nat, order() as nat);
    }
}

/// Folds read only the bit and the value of each daBit.
proof fn lemma_folds_same_values(acc_b: bool, acc_v: int, s: Seq<DaBit>, t: Seq<DaBit>)
    requires
        s.len() == t.len(),
        forall|i: int| 0 <= i < s.len() ==> (#[trigger] s[i]).r_z2 == t[i].r_z2 && s[i].r_zp.val() == t[i].r_zp.val(),
    ensures
        z2_fold(acc_b, s) == z2_fold(acc_b, t),
        zp_fold(acc_v, s) == zp_fold(acc_v, t),
    decreases s.len(),
{
    if s.len() > 0 {
        lemma_folds_same_values(acc_b, acc_v, s.drop_last(), t.drop_last());
    }
}

/// The dealer's daBits and the daBits that the other parties draw from their seeds are
/// daBits together: at each position the xor of the Z_2 parts is the sum of the arithmetic
/// parts modulo the group order.
pub proof fn lemma_seeded_dabit_relation(v: Seq<DaBit>, seeds: Seq<Seq<u8>>, n: nat, parties: Seq<Seq<DaBit>>)
    requires
        dealer_dabits(v, seeds, n),
        parties.len() == seeds.len(),
        forall|k: int| 0 <= k < parties.len() ==> (#[trigger] parties[k]).len() == n && drawn_dabits(
            parties[k],
            seeds[k],
            Seq::<Draw>::empty(),
        ),
    ensures
        forall|i: int| 0 <= i < n ==> dabit_relation(#[trigger] v[i], dabit_column(parties, i)),
{
    let others = choose|others: Seq<Seq<DaBit>>|
        #![trigger dabit_columns_sized(others, n)]
        others.len() == seeds.len() && dabit_columns_sized(others, n) && (forall|k: int|
            0 <= k < others.len() ==> drawn_dabits(#[trigger] others[k], seeds[k], Seq::<Draw>::empty()))
            && forall|i: int| 0 <= i < n ==> dabit_relation(#[trigger] v[i], dabit_column(others, i));
    assert forall|i: int| 0 <= i < n implies dabit_relation(#[trigger] v[i], dabit_column(parties, i)) by {
        assert forall|k: int| 0 <= k < dabit_column(others, i).len() implies (#[trigger] dabit_column(others, i)[k]).r_z2
            == dabit_column(parties, i)[k].r_z2 && dabit_column(others, i)[k].r_zp.val() == dabit_column(parties, i)[k].r_zp.val() by {
            assert(drawn_dabits(others[k], seeds[k], Seq::<Draw>::empty()));
            assert(drawn_dabits(parties[k], seeds[k], Seq::<Draw>::empty()));
            assert(others[k].len() == n);
        }
        lemma_folds_same_values(v[i].r_z2, v[i].r_zp.val() as int, dabit_column(others, i), dabit_column(parties, i));
        assert(dabit_relation(v[i], dabit_column(others, i)));
    }
}

} // verus!
