//! Pedersen commitments over the Ristretto group to an opening (randomness, index, record
//! value): `rnd * B + idx * G1 + resp * G2`, with `B` the Ristretto base point and `G1`, `G2`
//! points hashed from fixed labels. Points are held by their canonical compressed encoding,
//! on which equality of points is equality of bytes; `curve25519_dalek` does the group
//! arithmetic. The group has prime order and `B` generates it, so each point is told by its
//! discrete logarithm to `B`; the group operations are specified by what they do to it, and
//! that is how aggregated commitments are shown to open to the summed openings.
use vstd::prelude::*;
use vstd::array::ArrayAdditionalExecFns;
use curve25519_dalek::constants::RISTRETTO_BASEPOINT_TABLE;
use curve25519_dalek::ristretto::{CompressedRistretto, RistrettoPoint};
use curve25519_dalek::scalar::Scalar;
use sha2::Sha512;
use vstd::arithmetic::div_mod::{lemma_add_mod_noop, lemma_fundamental_div_mod, lemma_mod_multiples_vanish, lemma_mod_twice, lemma_small_mod};
use crate::cor_rnd::scalar::{group_order, le_value, ModScalar};

verus! {

/// Whether 32 bytes are the canonical encoding of a Ristretto point.
pub uninterp spec fn ristretto_valid(bytes: Seq<u8>) -> bool;

/// The encoding of the point that `RistrettoPoint::hash_from_bytes::<Sha512>` maps `label` to.
pub uninterp spec fn ristretto_hash(label: Seq<u8>) -> Seq<u8>;

/// The encoding of `s * B`, `B` the Ristretto base point, for a scalar `s` below the group
/// order.
pub uninterp spec fn ristretto_mul_base(s: nat) -> Seq<u8>;

/// The encoding of `s * P`, `P` the point encoded by `p`, for a scalar `s` below the group
/// order.
pub uninterp spec fn ristretto_mul(s: nat, p: Seq<u8>) -> Seq<u8>;

/// The encoding of the sum of the points encoded by `a` and `b`.
pub uninterp spec fn ristretto_add(a: Seq<u8>, b: Seq<u8>) -> Seq<u8>;

/// The discrete logarithm of the point encoded by `p` to the Ristretto base point `B`: the
/// Ristretto group has prime order with `B` as a generator, so every point is `k * B` for one
/// `k` below the group order. This is a model of the group, not the result of one outside
/// function: no code computes it. The wrappers of the group operations state what those
/// operations do to it, facts of any cyclic group of prime order with canonical encodings.
pub uninterp spec fn ristretto_log(p: Seq<u8>) -> nat;

/// `p` is the only canonical encoding of a point with its discrete logarithm, which is below
/// the group order: distinct points have distinct logarithms and one canonical encoding.
pub open spec fn log_determines(p: Seq<u8>) -> bool {
    &&& ristretto_log(p) < group_order()
    &&& forall|q: Seq<u8>| ristretto_valid(q) && ristretto_log(q) == ristretto_log(p) ==> q == p
}

/// Calls `CompressedRistretto::decompress`: whether the bytes decode to a point, which the
/// crate documents to hold exactly of canonical encodings of points.
#[verifier::external_body]
fn point_decodes(bytes: [u8; 32]) -> (r: bool)
    ensures
        r == ristretto_valid(bytes@),
        r ==> log_determines(bytes@),
{
    CompressedRistretto(bytes).decompress().is_some()
}

/// Calls `RistrettoPoint::hash_from_bytes::<Sha512>` and compresses the point; a compressed
/// point is the canonical encoding of a point.
#[verifier::external_body]
fn point_from_label(label: &[u8]) -> (r: [u8; 32])
    ensures
        r@ == ristretto_hash(label@),
        ristretto_valid(r@),
        log_determines(r@),
{
    RistrettoPoint::hash_from_bytes::<Sha512>(label).compress().to_bytes()
}

/// Multiplies the base point table `RISTRETTO_BASEPOINT_TABLE` by the scalar that
/// `Scalar::from_bytes_mod_order` reads from the encoding, and compresses the point.
#[verifier::external_body]
fn point_mul_base(s: [u8; 32]) -> (r: [u8; 32])
    ensures
        r@ == ristretto_mul_base(le_value(s@) % group_order()),
        ristretto_valid(r@),
        log_determines(r@),
        ristretto_log(r@) == le_value(s@) % group_order(),
{
    (&Scalar::from_bytes_mod_order(s) * RISTRETTO_BASEPOINT_TABLE).compress().to_bytes()
}

/// Multiplies the decoded point by the scalar that `Scalar::from_bytes_mod_order` reads
/// from the encoding (`Scalar * RistrettoPoint`) and compresses the product.
#[verifier::external_body]
fn point_mul(s: [u8; 32], p: [u8; 32]) -> (r: [u8; 32])
    requires
        ristretto_valid(p@),
    ensures
        r@ == ristretto_mul(le_value(s@) % group_order(), p@),
        ristretto_valid(r@),
        log_determines(r@),
        ristretto_log(r@) == (le_value(s@) % group_order()) * ristretto_log(p@) % group_order(),
{
    let point = CompressedRistretto(p).decompress().unwrap();
    (Scalar::from_bytes_mod_order(s) * point).compress().to_bytes()
}

/// Adds the decoded points (`RistrettoPoint + RistrettoPoint`) and compresses the sum.
#[verifier::external_body]
fn point_add(a: [u8; 32], b: [u8; 32]) -> (r: [u8; 32])
    requires
        ristretto_valid(a@),
        ristretto_valid(b@),
    ensures
        r@ == ristretto_add(a@, b@),
        ristretto_valid(r@),
        log_determines(r@),
        ristretto_log(r@) == (ristretto_log(a@) + ristretto_log(b@)) % group_order(),
{
    let pa = CompressedRistretto(a).decompress().unwrap();
    let pb = CompressedRistretto(b).decompress().unwrap();
    (pa + pb).compress().to_bytes()
}

/// Compresses `RistrettoPoint::default()`, the identity, whose encoding is 32 zero bytes.
#[verifier::external_body]
fn point_identity() -> (r: [u8; 32])
    ensures
        r@ == Seq::new(32, |i: int| 0u8),
        ristretto_valid(r@),
        log_determines(r@),
        ristretto_log(r@) == 0,
{
    RistrettoPoint::default().compress().to_bytes()
}

/// The generator of the Ristretto group hashed from a domain label.
pub fn generator(label: &[u8]) -> (r: [u8; 32])
    ensures
        r@ == ristretto_hash(label@),
        ristretto_valid(r@),
        log_determines(r@),
{
    point_from_label(label)
}

/// The label of the generator of the index.
pub const IDX_LABEL: [u8; 12] = [103, 49, 95, 112, 114, 99, 95, 105, 110, 100, 101, 120];

/// The label of the generator of the record value.
pub const RESP_LABEL: [u8; 13] = [103, 50, 95, 112, 114, 99, 95, 111, 117, 116, 112, 117, 116];

/// An opening of a commitment: randomness, index and record value.
#[derive(Debug, Clone, Copy, PartialEq, Eq)]
pub struct Opening {
    rnd: ModScalar,
    idx: ModScalar,
    resp: ModScalar,
}

/// A Pedersen commitment, by the canonical encoding of its point.
#[derive(Debug, Clone, Copy, PartialEq, Eq)]
pub struct Commitment {
    c: [u8; 32],
}

/// The encoding of `rnd * B + idx * G1 + resp * G2`, for scalars below the group order.
pub open spec fn pedersen(rnd: nat, idx: nat, resp: nat) -> Seq<u8> {
    ristretto_add(
        ristretto_add(ristretto_mul_base(rnd), ristretto_mul(idx, ristretto_hash(IDX_LABEL@))),
        ristretto_mul(resp, ristretto_hash(RESP_LABEL@)),
    )
}

/// The discrete logarithm of the generator of the index.
pub open spec fn idx_gen_log() -> nat {
    ristretto_log(ristretto_hash(IDX_LABEL@))
}

/// The discrete logarithm of the generator of the record value.
pub open spec fn resp_gen_log() -> nat {
    ristretto_log(ristretto_hash(RESP_LABEL@))
}

/// The discrete logarithm of `rnd * B + idx * G1 + resp * G2`.
pub open spec fn pedersen_log(rnd: int, idx: int, resp: int) -> int {
    (rnd + idx * idx_gen_log() + resp * resp_gen_log()) % (group_order() as int)
}

/// `c` is a well-formed commitment to randomness `rnd`, index `idx` and record value
/// `resp`: its point is `rnd * B + idx * G1 + resp * G2`, told by its logarithm.
pub open spec fn commits_to_parts(c: Commitment, rnd: nat, idx: nat, resp: nat) -> bool {
    &&& c.wf()
    &&& ristretto_log(c.point()) == pedersen_log(rnd as int, idx as int, resp as int)
}

/// `c` is a well-formed commitment to the opening `o`.
pub open spec fn commits_to(c: Commitment, o: Opening) -> bool {
    commits_to_parts(c, o.parts().0.value(), o.parts().1.value(), o.parts().2.value())
}

/// The values of the parts of the openings.
pub open spec fn part_values(os: Seq<Opening>) -> Seq<(nat, nat, nat)> {
    os.map_values(|o: Opening| (o.parts().0.value(), o.parts().1.value(), o.parts().2.value()))
}

/// The sums of the parts, each modulo the group order as `scalar_sum` takes it.
pub open spec fn part_sums(ps: Seq<(nat, nat, nat)>) -> (nat, nat, nat) {
    (
        scalar_sum(ps.map_values(|p: (nat, nat, nat)| p.0)),
        scalar_sum(ps.map_values(|p: (nat, nat, nat)| p.1)),
        scalar_sum(ps.map_values(|p: (nat, nat, nat)| p.2)),
    )
}

/// The discrete logarithm of the sum of the points of `commits`, from the identity on.
pub open spec fn log_sum(commits: Seq<Commitment>) -> nat
    decreases commits.len(),
{
    if commits.len() == 0 {
        0
    } else {
        (log_sum(commits.drop_last()) + ristretto_log(commits.last().point())) % group_order()
    }
}

/// The encoding of the sum of the points of `commits`, from the identity on.
pub open spec fn point_sum(commits: Seq<Commitment>) -> Seq<u8>
    decreases commits.len(),
{
    if commits.len() == 0 {
        Seq::new(32, |i: int| 0u8)
    } else {
        ristretto_add(point_sum(commits.drop_last()), commits.last().point())
    }
}

/// The sum of `s` modulo the group order, reduced after each addition; the first element
/// is taken as it is.
pub open spec fn scalar_sum(s: Seq<nat>) -> nat
    decreases s.len(),
{
    if s.len() <= 1 {
        if s.len() == 1 {
            s[0]
        } else {
            0
        }
    } else {
        (scalar_sum(s.drop_last()) + s.last()) % group_order()
    }
}

impl Opening {
    /// Randomness, index and record value.
    pub closed spec fn parts(&self) -> (ModScalar, ModScalar, ModScalar) {
        (self.rnd, self.idx, self.resp)
    }

    /// The opening of randomness `rnd`, index `idx` and record value `resp`.
    pub fn new(rnd: ModScalar, idx: ModScalar, resp: ModScalar) -> (r: Self)
        ensures
            r.parts() == (rnd, idx, resp),
    {
        Opening { rnd, idx, resp }
    }

    /// The part-wise sum of the openings modulo the group order: it opens the aggregate of
    /// their commitments.
    pub fn aggregate(openings: &[Self]) -> (r: Self)
        requires
            openings@.len() > 0,
        ensures
            r.parts().0.value() == scalar_sum(openings@.map_values(|o: Opening| o.parts().0.value())),
            r.parts().1.value() == scalar_sum(openings@.map_values(|o: Opening| o.parts().1.value())),
            r.parts().2.value() == scalar_sum(openings@.map_values(|o: Opening| o.parts().2.value())),
    {
        let ghost s = openings@;
        let mut agg = openings[0];
        let mut i: usize = 1;
        while i < openings.len()
            invariant
                s == openings@,
                1 <= i <= s.len(),
                agg.parts().0.value() == scalar_sum(s.take(i as int).map_values(|o: Opening| o.parts().0.value())),
                agg.parts().1.value() == scalar_sum(s.take(i as int).map_values(|o: Opening| o.parts().1.value())),
                agg.parts().2.value() == scalar_sum(s.take(i as int).map_values(|o: Opening| o.parts().2.value())),
            decreases s.len() - i,
        {
            let op = openings[i];
            agg.rnd = agg.rnd.add(&op.rnd);
            agg.idx = agg.idx.add(&op.idx);
            agg.resp = agg.resp.add(&op.resp);
            proof {
                let t = s.take(i + 1);
                assert(t.drop_last() =~= s.take(i as int));
                assert(t.map_values(|o: Opening| o.parts().0.value()).drop_last() =~= s.take(i as int).map_values(|o: Opening| o.parts().0.value()));
                assert(t.map_values(|o: Opening| o.parts().1.value()).drop_last() =~= s.take(i as int).map_values(|o: Opening| o.parts().1.value()));
                assert(t.map_values(|o: Opening| o.parts().2.value()).drop_last() =~= s.take(i as int).map_values(|o: Opening| o.parts().2.value()));
            }
            i += 1;
        }
        proof {
            assert(s.take(s.len() as int) =~= s);
        }
        agg
    }
}

/// Whether two 32-byte strings are equal.
fn bytes_eq(a: &[u8; 32], b: &[u8; 32]) -> (r: bool)
    ensures
        r == (a@ == b@),
{
    let mut i: usize = 0;
    while i < 32
        invariant
            i <= 32,
            a@.len() == 32,
            b@.len() == 32,
            forall|j: int| 0 <= j < i ==> a@[j] == b@[j],
        decreases 32 - i,
    {
        if a[i] != b[i] {
            return false;
        }
        i += 1;
    }
    assert(a@ =~= b@);
    true
}

impl Commitment {
    /// The encoding of the committed point.
    pub closed spec fn point(&self) -> Seq<u8> {
        self.c@
    }

    /// The committed point encodes a Ristretto point, the only one with its logarithm.
    pub closed spec fn wf(&self) -> bool {
        ristretto_valid(self.c@) && log_determines(self.c@)
    }

    /// The commitment to the point encoded by `c`; `None` when `c` encodes no point.
    pub fn new(c: [u8; 32]) -> (r: Option<Self>)
        ensures
            r is Some <==> ristretto_valid(c@),
            r matches Some(m) ==> m.point() == c@ && m.wf(),
    {
        if point_decodes(c) {
            Some(Commitment { c })
        } else {
            None
        }
    }

    /// The Pedersen commitment to the opening.
    pub fn commit(op: &Opening) -> (r: Commitment)
        ensures
            r.wf(),
            r.point() == pedersen(
                op.parts().0.value() % group_order(),
                op.parts().1.value() % group_order(),
                op.parts().2.value() % group_order(),
            ),
            commits_to(r, *op),
    {
        let g1 = generator(&IDX_LABEL);
        let g2 = generator(&RESP_LABEL);
        let a = point_mul_base(op.rnd.to_bytes());
        let b = point_mul(op.idx.to_bytes(), g1);
        let c = point_mul(op.resp.to_bytes(), g2);
        let ab = point_add(a, b);
        let r = Commitment { c: point_add(ab, c) };
        proof {
            let m = group_order() as int;
            let x = op.rnd.value() as int;
            let y = op.idx.value() as int;
            let z = op.resp.value() as int;
            let yg = (y % m) * idx_gen_log();
            let zg = (z % m) * resp_gen_log();
            lemma_small_mod((x % m) as nat, m as nat);
            lemma_add_mod_noop(x % m, yg, m);
            lemma_add_mod_noop(x % m + yg, zg, m);
            lemma_mod_twice(x % m + yg, m);
            lemma_lin_mod(x, y, z, idx_gen_log() as int, resp_gen_log() as int, m);
        }
        r
    }

    /// Whether this is the commitment to the opening.
    pub fn verify(&self, op: &Opening) -> (r: bool)
        ensures
            r == (self.point() == pedersen(
                op.parts().0.value() % group_order(),
                op.parts().1.value() % group_order(),
                op.parts().2.value() % group_order(),
            )),
            self.wf() ==> (r == commits_to(*self, *op)),
    {
        let ground = Self::commit(op);
        bytes_eq(&self.c, &ground.c)
    }

    /// The commitment to the sum of the points of `commits`.
    pub fn aggregate(commits: &[Self]) -> (r: Self)
        requires
            forall|i: int| 0 <= i < commits@.len() ==> (#[trigger] commits@[i]).wf(),
        ensures
            r.wf(),
            r.point() == point_sum(commits@),
            ristretto_log(r.point()) == log_sum(commits@),
    {
        let ghost s = commits@;
        let mut c = point_identity();
        let mut i: usize = 0;
        while i < commits.len()
            invariant
                s == commits@,
                i <= s.len(),
                forall|j: int| 0 <= j < s.len() ==> (#[trigger] s[j]).wf(),
                ristretto_valid(c@),
                log_determines(c@),
                c@ == point_sum(s.take(i as int)),
                ristretto_log(c@) == log_sum(s.take(i as int)),
            decreases s.len() - i,
        {
            proof {
                assert(s.take(i + 1).drop_last() =~= s.take(i as int));
                assert(s[i as int].wf());
            }
            c = point_add(c, commits[i].c);
            i += 1;
        }
        proof {
            assert(s.take(s.len() as int) =~= s);
        }
        Commitment { c }
    }

    /// The canonical encoding of the point.
    pub fn serialize(&self) -> (r: [u8; 32])
        ensures
            r@ == self.point(),
    {
        self.c
    }

    /// The first 32 bytes.
    fn first_32(bytes: &[u8]) -> (r: [u8; 32])
        requires
            bytes@.len() >= 32,
        ensures
            r@ == bytes@.take(32),
    {
        let mut c = [0u8; 32];
        let mut i: usize = 0;
        while i < 32
            invariant
                i <= 32,
                bytes@.len() >= 32,
                c@.len() == 32,
                forall|j: int| 0 <= j < i ==> c@[j] == bytes@[j],
            decreases 32 - i,
        {
            c.set(i, bytes[i]);
            i += 1;
        }
        assert(c@ =~= bytes@.take(32));
        c
    }

    /// The commitment encoded by the first 32 bytes, which must encode a point.
    pub fn deserialize(bytes: &[u8]) -> (r: Self)
        requires
            bytes@.len() >= 32,
            ristretto_valid(bytes@.take(32)),
        ensures
            r.point() == bytes@.take(32),
            r.wf(),
    {
        Self::new(Self::first_32(bytes)).unwrap()
    }

    /// The commitment encoded by the first 32 bytes; `None` when there are fewer or they
    /// encode no point.
    pub fn try_deserialize(bytes: &[u8]) -> (r: Option<Self>)
        ensures
            r is Some <==> (bytes@.len() >= 32 && ristretto_valid(bytes@.take(32))),
            r matches Some(m) ==> m.point() == bytes@.take(32) && m.wf(),
    {
        if bytes.len() < 32 {
            return None;
        }
        if point_decodes(Self::first_32(bytes)) {
            Some(Self::deserialize(bytes))
        } else {
            None
        }
    }
}

/// Reducing the coefficients of `a + b * g1 + c * g2` modulo `m` leaves it unchanged
/// modulo `m`.
proof fn lemma_lin_mod(a: int, b: int, c: int, g1: int, g2: int, m: int)
    requires
        m > 0,
    ensures
        ((a % m) + (b % m) * g1 + (c % m) * g2) % m == (a + b * g1 + c * g2) % m,
{
    lemma_fundamental_div_mod(a, m);
    lemma_fundamental_div_mod(b, m);
    lemma_fundamental_div_mod(c, m);
    let k = a / m + (b / m) * g1 + (c / m) * g2;
    assert(a + b * g1 + c * g2 == m * k + ((a % m) + (b % m) * g1 + (c % m) * g2)) by (nonlinear_arith)
        requires
            a == m * (a / m) + a % m,
            b == m * (b / m) + b % m,
            c == m * (c / m) + c % m,
            k == a / m + (b / m) * g1 + (c / m) * g2,
    ;
    lemma_mod_multiples_vanish(k, (a % m) + (b % m) * g1 + (c % m) * g2, m);
}

/// The first `n` of the commitments, each to the matching parts, sum to a point whose
/// logarithm is that of the commitment to the sums of the first `n` parts.
proof fn lemma_log_sum_prefix(cs: Seq<Commitment>, ps: Seq<(nat, nat, nat)>, n: int)
    requires
        cs.len() == ps.len(),
        1 <= n <= cs.len(),
        forall|i: int| 0 <= i < cs.len() ==> commits_to_parts(#[trigger] cs[i], ps[i].0, ps[i].1, ps[i].2),
    ensures
        log_sum(cs.take(n)) == pedersen_log(
            part_sums(ps.take(n)).0 as int,
            part_sums(ps.take(n)).1 as int,
            part_sums(ps.take(n)).2 as int,
        ),
    decreases n,
{
    let m = group_order() as int;
    let g1 = idx_gen_log() as int;
    let g2 = resp_gen_log() as int;
    let x = ps[n - 1].0 as int;
    let y = ps[n - 1].1 as int;
    let z = ps[n - 1].2 as int;
    let rs = ps.take(n).map_values(|p: (nat, nat, nat)| p.0);
    let is = ps.take(n).map_values(|p: (nat, nat, nat)| p.1);
    let vs = ps.take(n).map_values(|p: (nat, nat, nat)| p.2);
    assert(commits_to_parts(cs[n - 1], ps[n - 1].0, ps[n - 1].1, ps[n - 1].2));
    assert(cs.take(n).last() == cs[n - 1]);
    assert(rs.last() == x && is.last() == y && vs.last() == z);
    if n == 1 {
        assert(cs.take(n).drop_last() =~= Seq::<Commitment>::empty());
        assert(log_sum(cs.take(n).drop_last()) == 0);
        lemma_mod_twice(x + y * g1 + z * g2, m);
    } else {
        lemma_log_sum_prefix(cs, ps, n - 1);
        assert(cs.take(n).drop_last() =~= cs.take(n - 1));
        assert(rs.drop_last() =~= ps.take(n - 1).map_values(|p: (nat, nat, nat)| p.0));
        assert(is.drop_last() =~= ps.take(n - 1).map_values(|p: (nat, nat, nat)| p.1));
        assert(vs.drop_last() =~= ps.take(n - 1).map_values(|p: (nat, nat, nat)| p.2));
        let r0 = scalar_sum(rs.drop_last()) as int;
        let i0 = scalar_sum(is.drop_last()) as int;
        let v0 = scalar_sum(vs.drop_last()) as int;
        lemma_add_mod_noop(r0 + i0 * g1 + v0 * g2, x + y * g1 + z * g2, m);
        assert((r0 + i0 * g1 + v0 * g2) + (x + y * g1 + z * g2)
            == (r0 + x) + (i0 + y) * g1 + (v0 + z) * g2) by (nonlinear_arith);
        lemma_lin_mod(r0 + x, i0 + y, v0 + z, g1, g2, m);
    }
}

/// The aggregate of commitments, each to the matching parts, is the very point of any
/// commitment to parts congruent, modulo the group order, to the part-wise sums.
pub proof fn lemma_aggregate_is_commitment(
    cs: Seq<Commitment>,
    ps: Seq<(nat, nat, nat)>,
    agg: Commitment,
    c: Commitment,
    whole: (nat, nat, nat),
)
    requires
        cs.len() == ps.len(),
        cs.len() > 0,
        forall|i: int| 0 <= i < cs.len() ==> commits_to_parts(#[trigger] cs[i], ps[i].0, ps[i].1, ps[i].2),
        agg.wf(),
        ristretto_log(agg.point()) == log_sum(cs),
        commits_to_parts(c, whole.0, whole.1, whole.2),
        whole.0 % group_order() == part_sums(ps).0 % group_order(),
        whole.1 % group_order() == part_sums(ps).1 % group_order(),
        whole.2 % group_order() == part_sums(ps).2 % group_order(),
    ensures
        commits_to_parts(agg, whole.0, whole.1, whole.2),
        agg.point() == c.point(),
{
    let m = group_order() as int;
    let g1 = idx_gen_log() as int;
    let g2 = resp_gen_log() as int;
    let s = part_sums(ps);
    lemma_log_sum_prefix(cs, ps, cs.len() as int);
    assert(cs.take(cs.len() as int) =~= cs);
    assert(ps.take(ps.len() as int) =~= ps);
    lemma_lin_mod(whole.0 as int, whole.1 as int, whole.2 as int, g1, g2, m);
    lemma_lin_mod(s.0 as int, s.1 as int, s.2 as int, g1, g2, m);
    assert(ristretto_log(agg.point()) == ristretto_log(c.point()));
}

/// The aggregate of commitments, each to the matching opening, is the commitment to the
/// aggregate of the openings: the part-wise sums modulo the group order.
pub proof fn lemma_aggregate_opens(cs: Seq<Commitment>, os: Seq<Opening>, agg: Commitment, o: Opening)
    requires
        cs.len() == os.len(),
        cs.len() > 0,
        forall|i: int| 0 <= i < cs.len() ==> commits_to(#[trigger] cs[i], os[i]),
        agg.wf(),
        ristretto_log(agg.point()) == log_sum(cs),
        o.parts().0.value() == scalar_sum(os.map_values(|o: Opening| o.parts().0.value())),
        o.parts().1.value() == scalar_sum(os.map_values(|o: Opening| o.parts().1.value())),
        o.parts().2.value() == scalar_sum(os.map_values(|o: Opening| o.parts().2.value())),
    ensures
        commits_to(agg, o),
{
    let ps = part_values(os);
    assert forall|i: int| 0 <= i < cs.len() implies commits_to_parts(#[trigger] cs[i], ps[i].0, ps[i].1, ps[i].2) by {
        assert(commits_to(cs[i], os[i]));
    }
    assert(ps.map_values(|p: (nat, nat, nat)| p.0) =~= os.map_values(|o: Opening| o.parts().0.value()));
    assert(ps.map_values(|p: (nat, nat, nat)| p.1) =~= os.map_values(|o: Opening| o.parts().1.value()));
    assert(ps.map_values(|p: (nat, nat, nat)| p.2) =~= os.map_values(|o: Opening| o.parts().2.value()));
    lemma_log_sum_prefix(cs, ps, cs.len() as int);
    assert(cs.take(cs.len() as int) =~= cs);
    assert(ps.take(ps.len() as int) =~= ps);
}

/// Serialising and deserialising a commitment gives it back.
pub proof fn lemma_commitment_round_trip(m: Commitment)
    requires
        m.wf(),
    ensures
        m.point().len() == 32,
        ristretto_valid(m.point().take(32)),
        m.point().take(32) == m.point(),
{
    assert(m.point().take(32) =~= m.point());
}

} // verus!
