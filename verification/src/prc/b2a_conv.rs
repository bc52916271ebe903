//! Conversion of boolean shares to arithmetic shares modulo the group order with daBits: each
//! bit b is blinded with the boolean part r of a daBit, e = b ^ r is opened, and the
//! arithmetic share of b is r - 2er (+ e for the constant party), from the arithmetic part
//! of the daBit.
use vstd::prelude::*;
use vstd::arithmetic::power2::{lemma2_to64, lemma_pow2_pos, lemma_pow2_strictly_increases, pow2};
use vstd::arithmetic::div_mod::{
    lemma_add_mod_noop, lemma_mod_twice, lemma_mul_mod_noop_left, lemma_sub_mod_noop,
};
use vstd::bits::{lemma_u32_shl_is_mul, lemma_u32_shr_is_div};
use crate::cor_rnd::dabit::{
    dabit_column, dabit_relation, lemma_zp_fold_mod, order, z2_fold, zp_total, DaBit, DaBitProvider,
};
use crate::cor_rnd::scalar::group_order;
use crate::cor_rnd::sharing::{ArithValueT, BooleanValue};
use crate::simd_array::bit_array::{bits_fit, lemma_set_bit_bits, BitArray};
use crate::simd_array::bit_spec::seq_bit;

verus! {

/// Bit `i` of `v`.
pub open spec fn vbit(v: nat, i: nat) -> bool {
    (v / pow2(i)) % 2 == 1
}

/// Number of bits of the values before value `k`.
pub open spec fn bit_offset(vals: Seq<BooleanValue>, k: int) -> nat
    decreases k,
{
    if k <= 0 {
        0
    } else {
        bit_offset(vals, k - 1) + vals[k - 1].len()
    }
}

/// The arithmetic share of one bit, r - 2er plus e for the constant party: r when the
/// opened bit e is 0, and 1 - r (constant party) or -r (others) when it is 1.
pub open spec fn b2a_bit_share(is_const: bool, r: nat, e: bool) -> int {
    if e {
        (if is_const {
            1int
        } else {
            0int
        }) - r
    } else {
        r as int
    }
}

/// The arithmetic share of the `m` bits from bit `o` on: the shares of the bits weighted by
/// their powers of two.
pub open spec fn b2a_sum(is_const: bool, dabits: Seq<DaBit>, e: BitArray, o: int, m: nat) -> int
    decreases m,
{
    if m == 0 {
        0
    } else {
        b2a_sum(is_const, dabits, e, o, (m - 1) as nat) + pow2((m - 1) as nat) * b2a_bit_share(
            is_const,
            dabits[o + m - 1].r_zp.val(),
            e.bit(o + m - 1),
        )
    }
}

/// The conversion of one party.
pub struct ConvLayer {
    party_const: bool,
}

proof fn lemma_offset_mono(vals: Seq<BooleanValue>, k: int, l: int)
    requires
        0 <= k <= l,
    ensures
        bit_offset(vals, k) <= bit_offset(vals, l),
    decreases l,
{
    if k < l {
        lemma_offset_mono(vals, k, l - 1);
    }
}

/// One step of the share of a value, reduced after each operation.
proof fn lemma_b2a_step(acc: int, s: int, is_const: bool, r: nat, e: bool, i: nat, val: nat)
    requires
        val == acc % (group_order() as int),
    ensures
        ({
            let l = group_order() as int;
            let ei: int = if e {
                1
            } else {
                0
            };
            let round1 = (r - (r * (2 * ei)) % l) % l;
            let round2 = if is_const {
                (round1 + ei) % l
            } else {
                round1
            };
            let round3 = (round2 * pow2(i)) % l;
            (val + round3) % l == (acc + pow2(i) * b2a_bit_share(is_const, r, e)) % l
        }),
{
    let l = group_order() as int;
    let ei: int = if e {
        1
    } else {
        0
    };
    let t = r - 2 * ei * r + if is_const {
        ei
    } else {
        0
    };
    let round1 = (r - (r * (2 * ei)) % l) % l;
    let round2 = if is_const {
        (round1 + ei) % l
    } else {
        round1
    };
    assert(r * (2 * ei) == 2 * ei * r) by (nonlinear_arith);
    assert(t == b2a_bit_share(is_const, r, e)) by {
        if e {
            assert(2 * ei * r == 2 * r) by (nonlinear_arith)
                requires
                    ei == 1,
            ;
        } else {
            assert(2 * ei * r == 0) by (nonlinear_arith)
                requires
                    ei == 0,
            ;
        }
    }
    vstd::arithmetic::div_mod::lemma_sub_mod_noop_right(r as int, 2 * ei * r, l);
    assert(round1 == (r - 2 * ei * r) % l);
    if is_const {
        vstd::arithmetic::div_mod::lemma_add_mod_noop(r - 2 * ei * r, ei, l);
        lemma_mod_twice(ei, l);
        assert(ei % l == ei);
        lemma_mod_twice(r - 2 * ei * r, l);
        assert(round2 == t % l);
    } else {
        assert(round2 == t % l);
    }
    lemma_mul_mod_noop_left(t, pow2(i) as int, l);
    assert(t * pow2(i) == pow2(i) * t) by (nonlinear_arith);
    vstd::arithmetic::div_mod::lemma_add_mod_noop(acc, pow2(i) * t, l);
    lemma_mod_twice(acc, l);
    lemma_mod_twice(pow2(i) * t, l);
}

impl ConvLayer {
    /// The conversion of a party; `party_const` adds the public constants.
    pub fn new(party_const: bool) -> (r: Self)
        ensures
            r.is_const() == party_const,
    {
        ConvLayer { party_const }
    }

    /// Whether this party adds the public constants.
    pub closed spec fn is_const(&self) -> bool {
        self.party_const
    }

    /// Decomposes the values into bits, least significant first, value after value, takes as
    /// many daBits from the provider and blinds each bit with the boolean part of its daBit:
    /// the bits to open, and the daBits. `None`, with the provider unchanged, when there are
    /// no bits or too few daBits are left.
    pub fn prepare(&self, boolean_values: &Vec<BooleanValue>, dabit_provider: &mut DaBitProvider) -> (r: Option<(BitArray, Vec<DaBit>)>)
        requires
            old(dabit_provider).wf(),
            bits_fit(bit_offset(boolean_values@, boolean_values@.len() as int)),
        ensures
            ({
                let total = bit_offset(boolean_values@, boolean_values@.len() as int);
                &&& r is Some <==> (total > 0 && old(dabit_provider).storage() is Some
                    && old(dabit_provider).used_count() + total <= old(dabit_provider).storage()->0.len())
                &&& r is None ==> *final(dabit_provider) == *old(dabit_provider)
                &&& r matches Some((e, d)) ==> {
                    &&& final(dabit_provider).wf()
                    &&& final(dabit_provider).storage() == old(dabit_provider).storage()
                    &&& final(dabit_provider).used_count() == old(dabit_provider).used_count() + total
                    &&& final(dabit_provider).reported_count() == old(dabit_provider).reported_count()
                    &&& d@ == old(dabit_provider).storage()->0.subrange(
                        old(dabit_provider).used_count() as int,
                        (old(dabit_provider).used_count() + total) as int,
                    )
                    &&& e.wf()
                    &&& e.nbits() == total
                    &&& forall|k: int, i: int|
                        0 <= k < boolean_values@.len() && 0 <= i < boolean_values@[k].len() ==> #[trigger] e.bit(
                            bit_offset(boolean_values@, k) + i,
                        ) == (vbit(boolean_values@[k].val(), i as nat) != d@[bit_offset(boolean_values@, k) + i].r_z2)
                }
            }),
    {
        let ghost vals = boolean_values@;
        let n = boolean_values.len();
        let mut total: usize = 0;
        let mut k: usize = 0;
        while k < n
            invariant
                n == vals.len(),
                vals == boolean_values@,
                k <= n,
                total == bit_offset(vals, k as int),
                bits_fit(bit_offset(vals, n as int)),
            decreases n - k,
        {
            proof {
                lemma_offset_mono(vals, k + 1, n as int);
                crate::simd_array::bit_spec::lemma_ceil8(bit_offset(vals, n as int));
            }
            total = total + boolean_values[k].bit_len() as usize;
            k += 1;
        }
        if total == 0 {
            return None;
        }
        if !dabit_provider.can_take(total) {
            return None;
        }
        let mut b = BitArray::new(total);
        let mut current: usize = 0;
        k = 0;
        while k < n
            invariant
                n == vals.len(),
                vals == boolean_values@,
                k <= n,
                total == bit_offset(vals, n as int),
                current == bit_offset(vals, k as int),
                b.wf(),
                b.nbits() == total,
                forall|kk: int, i: int|
                    0 <= kk < k && 0 <= i < vals[kk].len() ==> #[trigger] b.bit(bit_offset(vals, kk) + i) == vbit(
                        vals[kk].val(),
                        i as nat,
                    ),
            decreases n - k,
        {
            let bv = boolean_values[k];
            let len = bv.bit_len();
            let value = bv.value();
            proof {
                lemma_offset_mono(vals, k + 1, n as int);
            }
            let mut i: u8 = 0;
            while i < len
                invariant
                    n == vals.len(),
                    vals == boolean_values@,
                    k < n,
                    bv == vals[k as int],
                    len == bv.len(),
                    value == bv.val(),
                    len <= 32,
                    i <= len,
                    total == bit_offset(vals, n as int),
                    bit_offset(vals, k + 1) <= total,
                    current == bit_offset(vals, k as int) + i,
                    b.wf(),
                    b.nbits() == total,
                    forall|kk: int, j: int|
                        0 <= kk < k && 0 <= j < vals[kk].len() ==> #[trigger] b.bit(bit_offset(vals, kk) + j) == vbit(
                            vals[kk].val(),
                            j as nat,
                        ),
                    forall|j: int| 0 <= j < i ==> #[trigger] b.bit(bit_offset(vals, k as int) + j) == vbit(value as nat, j as nat),
                decreases len - i,
            {
                proof {
                    lemma_u32_shr_is_div(value, i as u32);
                    b.lemma_wf();
                    assert(bit_offset(vals, k + 1) == bit_offset(vals, k as int) + vals[k as int].len());
                    assert(current < total);
                }
                let bit = (value >> (i as u32)) & 1 != 0;
                proof {
                    let sh = value >> (i as u32);
                    assert((sh & 1 != 0) == (sh % 2 == 1)) by (bit_vector);
                }
                let ghost before = b.buf();
                let ghost bpre = b;
                b.set_bit(current, bit);
                proof {
                    assert forall|kk: int, j: int|
                        0 <= kk < k && 0 <= j < vals[kk].len() implies #[trigger] b.bit(bit_offset(vals, kk) + j) == vbit(
                        vals[kk].val(),
                        j as nat,
                    ) by {
                        lemma_offset_mono(vals, kk + 1, k as int);
                        assert(bit_offset(vals, kk + 1) == bit_offset(vals, kk) + vals[kk].len());
                        assert(bit_offset(vals, kk) + j < current);
                        lemma_set_bit_bits(before, current as int, bit, bit_offset(vals, kk) + j);
                        assert(bpre.bit(bit_offset(vals, kk) + j) == vbit(vals[kk].val(), j as nat));
                    }
                    assert forall|j: int| 0 <= j < i + 1 implies #[trigger] b.bit(bit_offset(vals, k as int) + j) == vbit(
                        value as nat,
                        j as nat,
                    ) by {
                        lemma_set_bit_bits(before, current as int, bit, bit_offset(vals, k as int) + j);
                        if j < i {
                            assert(bpre.bit(bit_offset(vals, k as int) + j) == vbit(value as nat, j as nat));
                        } else {
                            assert(bit == vbit(value as nat, i as nat));
                        }
                    }
                }
                current += 1;
                i += 1;
            }
            k += 1;
        }
        let dabits = dabit_provider.take(total);
        let mut e = BitArray::new(total);
        let mut j: usize = 0;
        while j < total
            invariant
                j <= total,
                b.wf(),
                b.nbits() == total,
                e.wf(),
                e.nbits() == total,
                dabits@.len() == total,
                forall|q: int| 0 <= q < j ==> #[trigger] e.bit(q) == (b.bit(q) != dabits@[q].r_z2),
            decreases total - j,
        {
            let ghost before = e.buf();
            let ghost epre = e;
            proof {
                e.lemma_wf();
            }
            let v = b.get(j) ^ dabits[j].r_z2;
            e.set_bit(j, v);
            proof {
                assert(v == (b.bit(j as int) != dabits@[j as int].r_z2));
                assert forall|q: int| 0 <= q < j + 1 implies #[trigger] e.bit(q) == (b.bit(q) != dabits@[q].r_z2) by {
                    lemma_set_bit_bits(before, j as int, v, q);
                    if q < j {
                        assert(epre.bit(q) == (b.bit(q) != dabits@[q].r_z2));
                    }
                }
            }
            j += 1;
        }
        proof {
            assert forall|kk: int, i: int|
                0 <= kk < vals.len() && 0 <= i < vals[kk].len() implies #[trigger] e.bit(bit_offset(vals, kk) + i) == (vbit(
                vals[kk].val(),
                i as nat,
            ) != dabits@[bit_offset(vals, kk) + i].r_z2) by {
                lemma_offset_mono(vals, kk + 1, vals.len() as int);
                assert(b.bit(bit_offset(vals, kk) + i) == vbit(vals[kk].val(), i as nat));
            }
        }
        Some((e, dabits))
    }

    /// The arithmetic shares of the values from the opened bits `e` and the daBits: value
    /// `k` gets the sum over its bits `i` of `2^i * (r - 2er (+ e))` modulo the group order.
    pub fn finish(&self, boolean_values: Vec<BooleanValue>, dabits: &Vec<DaBit>, e: &BitArray) -> (r: Vec<ArithValueT>)
        requires
            e.wf(),
            bit_offset(boolean_values@, boolean_values@.len() as int) <= e.nbits(),
            bit_offset(boolean_values@, boolean_values@.len() as int) <= dabits@.len(),
        ensures
            r@.len() == boolean_values@.len(),
            forall|k: int|
                0 <= k < r@.len() ==> (#[trigger] r@[k]).val() == b2a_sum(
                    self.is_const(),
                    dabits@,
                    *e,
                    bit_offset(boolean_values@, k) as int,
                    boolean_values@[k].len(),
                ) % (group_order() as int),
    {
        let ghost vals = boolean_values@;
        let n = boolean_values.len();
        let mut arith: Vec<ArithValueT> = Vec::with_capacity(n);
        let mut current: usize = 0;
        let mut k: usize = 0;
        while k < n
            invariant
                n == vals.len(),
                vals == boolean_values@,
                k <= n,
                e.wf(),
                bit_offset(vals, n as int) <= e.nbits(),
                bit_offset(vals, n as int) <= dabits@.len(),
                current == bit_offset(vals, k as int),
                arith@.len() == k,
                forall|kk: int|
                    0 <= kk < k ==> (#[trigger] arith@[kk]).val() == b2a_sum(
                        self.is_const(),
                        dabits@,
                        *e,
                        bit_offset(vals, kk) as int,
                        vals[kk].len(),
                    ) % (group_order() as int),
            decreases n - k,
        {
            let bv = boolean_values[k];
            let len = bv.bit_len();
            proof {
                lemma_offset_mono(vals, k + 1, n as int);
            }
            let mut val = ArithValueT::zero();
            let mut i: u8 = 0;
            while i < len
                invariant
                    n == vals.len(),
                    vals == boolean_values@,
                    k < n,
                    bv == vals[k as int],
                    len == bv.len(),
                    len <= 32,
                    i <= len,
                    e.wf(),
                    bit_offset(vals, k + 1) <= e.nbits(),
                    bit_offset(vals, k + 1) <= dabits@.len(),
                    current == bit_offset(vals, k as int) + i,
                    val.val() == b2a_sum(self.is_const(), dabits@, *e, bit_offset(vals, k as int) as int, i as nat) % (
                    group_order() as int),
                decreases len - i,
            {
                proof {
                    assert(bit_offset(vals, k + 1) == bit_offset(vals, k as int) + vals[k as int].len());
                    e.lemma_wf();
                }
                let e_bit = e.get(current);
                let mut round = dabits[current].r_zp;
                let mut e_ra_mul2 = dabits[current].r_zp;
                e_ra_mul2.mul(&ArithValueT::from_u32(if e_bit { 2 } else { 0 }));
                round.sub(&e_ra_mul2);
                if self.party_const {
                    round.add(&ArithValueT::from_u32(if e_bit { 1 } else { 0 }));
                }
                proof {
                    lemma2_to64();
                    if i > 0 {
                        lemma_pow2_strictly_increases(i as nat, 32);
                    }
                    lemma_pow2_pos(i as nat);
                    lemma_u32_shl_is_mul(1u32, i as u32);
                }
                round.mul(&ArithValueT::from_u32(1u32 << (i as u32)));
                let ghost old_val = val.val();
                val.add(&round);
                proof {
                    let o = bit_offset(vals, k as int) as int;
                    lemma_b2a_step(
                        b2a_sum(self.is_const(), dabits@, *e, o, i as nat),
                        0,
                        self.is_const(),
                        dabits@[o + i].r_zp.val(),
                        e.bit(o + i),
                        i as nat,
                        old_val,
                    );
                }
                current += 1;
                i += 1;
            }
            arith.push(val);
            k += 1;
        }
        arith
    }
}


/// Sum over the parties `0..n` (`n` the length of `col`) of their arithmetic shares of one
/// bit, from their daBits `col` and the opened bit `e`; party `k` adds the constant.
pub open spec fn b2a_bit_total(col: Seq<DaBit>, k: int, e: bool) -> int
    decreases col.len(),
{
    if col.len() == 0 {
        0
    } else {
        b2a_bit_total(col.drop_last(), k, e) + b2a_bit_share(col.len() - 1 == k, col.last().r_zp.val(), e)
    }
}

/// Sum over the parties of their arithmetic shares of the `m` bits from bit `o` on, party
/// `p` holding the daBits `ds[p]`; party `k` adds the constants.
pub open spec fn b2a_total(ds: Seq<Seq<DaBit>>, k: int, e: BitArray, o: int, m: nat) -> int
    decreases ds.len(),
{
    if ds.len() == 0 {
        0
    } else {
        b2a_total(ds.drop_last(), k, e, o, m) + b2a_sum(ds.len() - 1 == k, ds.last(), e, o, m)
    }
}

/// The bits' totals weighted by their powers of two.
spec fn b2a_weighted(ds: Seq<Seq<DaBit>>, k: int, e: BitArray, o: int, m: nat) -> int
    decreases m,
{
    if m == 0 {
        0
    } else {
        b2a_weighted(ds, k, e, o, (m - 1) as nat) + pow2((m - 1) as nat) * b2a_bit_total(
            dabit_column(ds, o + m - 1),
            k,
            e.bit(o + m - 1),
        )
    }
}

/// The low `m` bits of `x` weighted by their powers of two.
spec fn low_bits_sum(x: nat, m: nat) -> int
    decreases m,
{
    if m == 0 {
        0
    } else {
        low_bits_sum(x, (m - 1) as nat) + pow2((m - 1) as nat) * (if vbit(x, (m - 1) as nat) {
            1int
        } else {
            0int
        })
    }
}

proof fn lemma_bit_total(col: Seq<DaBit>, k: int, e: bool)
    ensures
        b2a_bit_total(col, k, e) == if e {
            (if 0 <= k < col.len() {
                1int
            } else {
                0int
            }) - zp_total(col)
        } else {
            zp_total(col)
        },
    decreases col.len(),
{
    if col.len() > 0 {
        lemma_bit_total(col.drop_last(), k, e);
        let r = col.last().r_zp.val() as int;
        assert(zp_total(col) == zp_total(col.drop_last()) + r);
        if e {
            assert(b2a_bit_share(col.len() - 1 == k, col.last().r_zp.val(), e) == -r + if col.len() - 1 == k {
                1int
            } else {
                0int
            });
        } else {
            assert(b2a_bit_share(col.len() - 1 == k, col.last().r_zp.val(), e) == r);
        }
    }
}

proof fn lemma_zp_total_first(col: Seq<DaBit>)
    requires
        col.len() > 0,
    ensures
        zp_total(col) == col[0].r_zp.val() + zp_total(col.drop_first()),
    decreases col.len(),
{
    if col.len() > 1 {
        lemma_zp_total_first(col.drop_last());
        assert(col.drop_last().drop_first() =~= col.drop_first().drop_last());
        assert(col.drop_first().last() == col.last());
        assert(zp_total(col.drop_first()) == zp_total(col.drop_first().drop_last()) + col.last().r_zp.val());
        assert(zp_total(col) == zp_total(col.drop_last()) + col.last().r_zp.val());
        assert(col.drop_last()[0] == col[0]);
    } else {
        assert(col.drop_last().len() == 0);
        assert(col.drop_first().len() == 0);
        assert(zp_total(col) == zp_total(col.drop_last()) + col.last().r_zp.val());
    }
}

proof fn lemma_weighted_step(ds: Seq<Seq<DaBit>>, k: int, e: BitArray, o: int, m: nat)
    requires
        ds.len() > 0,
    ensures
        b2a_weighted(ds, k, e, o, m) == b2a_weighted(ds.drop_last(), k, e, o, m) + b2a_sum(
            ds.len() - 1 == k,
            ds.last(),
            e,
            o,
            m,
        ),
    decreases m,
{
    if m > 0 {
        let q = (m - 1) as nat;
        lemma_weighted_step(ds, k, e, o, q);
        let j = o + q;
        assert(dabit_column(ds, j).drop_last() =~= dabit_column(ds.drop_last(), j));
        let a = b2a_bit_total(dabit_column(ds.drop_last(), j), k, e.bit(j));
        let b = b2a_bit_share(ds.len() - 1 == k, ds.last()[j].r_zp.val(), e.bit(j));
        let w = pow2(q) as int;
        assert(w * (a + b) == w * a + w * b) by (nonlinear_arith);
    }
}

proof fn lemma_total_weighted(ds: Seq<Seq<DaBit>>, k: int, e: BitArray, o: int, m: nat)
    ensures
        b2a_total(ds, k, e, o, m) == b2a_weighted(ds, k, e, o, m),
    decreases ds.len(),
{
    if ds.len() == 0 {
        lemma_weighted_empty(ds, k, e, o, m);
    } else {
        lemma_total_weighted(ds.drop_last(), k, e, o, m);
        lemma_weighted_step(ds, k, e, o, m);
    }
}

proof fn lemma_weighted_empty(ds: Seq<Seq<DaBit>>, k: int, e: BitArray, o: int, m: nat)
    requires
        ds.len() == 0,
    ensures
        b2a_weighted(ds, k, e, o, m) == 0,
    decreases m,
{
    if m > 0 {
        lemma_weighted_empty(ds, k, e, o, (m - 1) as nat);
        assert(dabit_column(ds, o + m - 1).len() == 0);
    }
}

proof fn lemma_low_bits_sum(x: nat, m: nat)
    ensures
        low_bits_sum(x, m) == x % pow2(m),
    decreases m,
{
    lemma_pow2_pos(m);
    if m == 0 {
        lemma2_to64();
    } else {
        let q = (m - 1) as nat;
        lemma_low_bits_sum(x, q);
        lemma_pow2_pos(q);
        vstd::arithmetic::power2::lemma_pow2_unfold(m);
        vstd::arithmetic::div_mod::lemma_mod_breakdown(x as int, pow2(q) as int, 2);
        assert(pow2(q) * 2 == pow2(m));
    }
}

/// Conversion of one bit: the parties' shares of a bit sum, modulo the group order, to
/// the bit that the opened bit unblinds.
proof fn lemma_b2a_bit(col: Seq<DaBit>, k: int, e: bool, b: bool)
    requires
        0 <= k < col.len(),
        dabit_relation(col[0], col.drop_first()),
        e == (b != z2_fold(col[0].r_z2, col.drop_first())),
    ensures
        b2a_bit_total(col, k, e) % order() == if b {
            1int
        } else {
            0int
        },
{
    let rest = col.drop_first();
    let z = z2_fold(col[0].r_z2, rest);
    let zi: int = if z {
        1
    } else {
        0
    };
    let r = zp_total(col);
    lemma_bit_total(col, k, e);
    lemma_zp_total_first(col);
    lemma_zp_fold_mod(col[0].r_zp.val() as int, rest);
    vstd::arithmetic::div_mod::lemma_small_mod(zi as nat, order() as nat);
    assert(r % order() == zi);
    if e {
        lemma_sub_mod_noop(1, r, order());
        vstd::arithmetic::div_mod::lemma_small_mod(1, order() as nat);
        vstd::arithmetic::div_mod::lemma_small_mod((1 - zi) as nat, order() as nat);
    }
}

proof fn lemma_weighted_mod(ds: Seq<Seq<DaBit>>, k: int, e: BitArray, o: int, m: nat, x: nat)
    requires
        0 <= k < ds.len(),
        m <= 32,
        forall|i: int|
            0 <= i < m ==> #[trigger] b2a_bit_total(dabit_column(ds, o + i), k, e.bit(o + i)) % order() == if vbit(
                x,
                i as nat,
            ) {
                1int
            } else {
                0int
            },
    ensures
        b2a_weighted(ds, k, e, o, m) % order() == low_bits_sum(x, m),
    decreases m,
{
    lemma_low_bits_sum(x, m);
    lemma_pow2_pos(m);
    lemma2_to64();
    if m < 32 {
        lemma_pow2_strictly_increases(m, 32);
    }
    vstd::arithmetic::div_mod::lemma_mod_bound(x as int, pow2(m) as int);
    if m > 0 {
        let q = (m - 1) as nat;
        lemma_weighted_mod(ds, k, e, o, q, x);
        let t = b2a_bit_total(dabit_column(ds, o + q), k, e.bit(o + q));
        let w = pow2(q) as int;
        let prev = b2a_weighted(ds, k, e, o, q);
        assert(t % order() == (if vbit(x, q) {
            1int
        } else {
            0int
        }));
        lemma_add_mod_noop(prev, w * t, order());
        vstd::arithmetic::div_mod::lemma_mul_mod_noop_right(w, t, order());
        lemma_add_mod_noop(low_bits_sum(x, q), w * (t % order()), order());
        lemma_mod_twice(w * (t % order()), order());
        vstd::arithmetic::div_mod::lemma_small_mod(low_bits_sum(x, q) as nat, order() as nat);
        vstd::arithmetic::div_mod::lemma_small_mod(low_bits_sum(x, m) as nat, order() as nat);
        lemma_low_bits_sum(x, q);
        vstd::arithmetic::div_mod::lemma_mod_bound(x as int, pow2(q) as int);
    }
}

/// Boolean-to-arithmetic conversion. Party `p` holds daBits `ds[p]`; at each of the `m`
/// converted bits, from bit `o` on, the daBits of the parties reconstruct to one bit in both
/// domains, and the opened bit is bit `i` of `x` xored with that daBit. Then, with party
/// `k` alone adding the constants, the parties' arithmetic shares of the value sum to `x`
/// modulo the group order.
pub proof fn lemma_b2a(ds: Seq<Seq<DaBit>>, k: int, e: BitArray, o: int, m: nat, x: nat)
    requires
        0 <= k < ds.len(),
        m <= 32,
        x < pow2(m),
        forall|i: int|
            0 <= i < m ==> dabit_relation(
                (#[trigger] dabit_column(ds, o + i))[0],
                dabit_column(ds, o + i).drop_first(),
            ),
        forall|i: int|
            0 <= i < m ==> #[trigger] e.bit(o + i) == (vbit(x, i as nat) != z2_fold(
                dabit_column(ds, o + i)[0].r_z2,
                dabit_column(ds, o + i).drop_first(),
            )),
    ensures
        b2a_total(ds, k, e, o, m) % order() == x,
{
    assert forall|i: int| 0 <= i < m implies #[trigger] b2a_bit_total(dabit_column(ds, o + i), k, e.bit(o + i)) % order()
        == if vbit(x, i as nat) {
        1int
    } else {
        0int
    } by {
        assert(dabit_relation(dabit_column(ds, o + i)[0], dabit_column(ds, o + i).drop_first()));
        assert(e.bit(o + i) == (vbit(x, i as nat) != z2_fold(dabit_column(ds, o + i)[0].r_z2, dabit_column(ds, o + i).drop_first())));
        lemma_b2a_bit(dabit_column(ds, o + i), k, e.bit(o + i), vbit(x, i as nat));
    }
    lemma_total_weighted(ds, k, e, o, m);
    lemma_weighted_mod(ds, k, e, o, m, x);
    lemma_low_bits_sum(x, m);
    vstd::arithmetic::div_mod::lemma_small_mod(x, pow2(m));
}

} // verus!
