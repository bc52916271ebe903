//! The client: shares a query for a record among the servers, and checks the signed
//! commitment that it gets back.
use vstd::prelude::*;
use vstd::arithmetic::power2::pow2;
use ed25519_dalek::{Signature, VerifyingKey};
use crate::rng::{chacha8_scalar, repeated_draws, Draw, SeededRng};
use crate::cor_rnd::scalar::{group_order, le_value, ModScalar};
use crate::cor_rnd::sharing::{ArithValueT, BooleanValue};
use crate::prc::commitment::{commits_to_parts, pedersen, Commitment, Opening};
use crate::prc::config::{is_power_of_two, DBConfig, SystemConfig};
use crate::prc::util::{
    arith_fold, dealt_arith_shares, dealt_bool_shares, secret_share_arith, secret_share_boolean, xor_booleans,
};

verus! {

/// Whether `sig` is a valid Ed25519 signature of `msg` under the key encoded by `pk`, by the
/// strict rules of `ed25519_dalek`.
pub uninterp spec fn ed25519_strict_ok(pk: Seq<u8>, msg: Seq<u8>, sig: Seq<u8>) -> bool;

/// Decodes the key with `VerifyingKey::from_bytes` (an undecodable key verifies nothing) and
/// calls `VerifyingKey::verify_strict` on the signature decoded by `Signature::from_bytes`.
#[verifier::external_body]
fn ed25519_verify(pk: &[u8; 32], msg: &[u8], sig: &[u8; 64]) -> (r: bool)
    ensures
        r == ed25519_strict_ok(pk@, msg@, sig@),
{
    match VerifyingKey::from_bytes(pk) {
        Ok(key) => key.verify_strict(msg, &Signature::from_bytes(sig)).is_ok(),
        Err(_) => false,
    }
}

/// The client: number of servers, database and system configuration.
pub struct PRCClient {
    party_num: usize,
    db_conf: DBConfig,
    sys_conf: SystemConfig,
}

/// What the client keeps of a query to open the commitment: the index and the commitment
/// randomness.
#[derive(Debug, Clone, Copy)]
pub struct PRCClientSt {
    idx: ModScalar,
    crnd: ModScalar,
}

/// The query to one server: boolean shares of the two coordinates of the index and an
/// arithmetic share of the commitment randomness.
#[derive(Debug, Clone, Copy)]
pub struct PRCQuery {
    pub l1_bss: BooleanValue,
    pub l2_bss: BooleanValue,
    pub rnd_ass: ArithValueT,
}

/// The servers' answer: the signature of the aggregated commitment, and the commitment once
/// the client has found the record value it opens to.
#[derive(Debug, Clone, Copy)]
pub struct PRCToken {
    pub commitment: Option<Commitment>,
    pub sig: [u8; 64],
}

/// Why a token does not verify.
#[derive(Debug, Clone, Copy, PartialEq, Eq, Structural)]
pub enum TokenError {
    /// The token carries no commitment.
    MissingValue,
    /// The signature is not a valid signature of the commitment.
    BadSignature,
}

impl PRCClientSt {
    /// The index.
    pub closed spec fn idx(&self) -> ModScalar {
        self.idx
    }

    /// The commitment randomness.
    pub closed spec fn crnd(&self) -> ModScalar {
        self.crnd
    }

    /// The point of the commitment to the query's index with record value `rec_value`.
    pub open spec fn commitment_to(&self, rec_value: nat) -> Seq<u8> {
        pedersen(self.crnd().value() % group_order(), self.idx().value() % group_order(), rec_value)
    }

    /// The commitment to the query's index with record value `rec_value`.
    pub fn get_commitment(&self, rec_value: u32) -> (r: Commitment)
        ensures
            r.wf(),
            r.point() == self.commitment_to(rec_value as nat),
            commits_to_parts(r, self.crnd().value(), self.idx().value(), rec_value as nat),
    {
        let v = ModScalar::from_u32(rec_value);
        let op = Opening::new(self.crnd, self.idx, v);
        proof {
            vstd::arithmetic::div_mod::lemma_small_mod(rec_value as nat, group_order());
        }
        Commitment::commit(&op)
    }
}

impl PRCToken {
    /// Whether the token signs the commitment to the query's index with record value
    /// `rec_val`; if so, the token keeps that commitment.
    pub fn check_for_rec_val(&mut self, st: &PRCClientSt, rec_val: u32, server_pk: &[u8; 32]) -> (r: bool)
        ensures
            r == ed25519_strict_ok(server_pk@, st.commitment_to(rec_val as nat), old(self).sig@),
            r ==> (final(self).commitment matches Some(m) && m.wf() && m.point() == st.commitment_to(rec_val as nat)),
            !r ==> *final(self) == *old(self),
            final(self).sig == old(self).sig,
    {
        let commit = st.get_commitment(rec_val);
        let bytes = commit.serialize();
        if ed25519_verify(server_pk, &bytes, &self.sig) {
            self.commitment = Some(commit);
            return true;
        }
        false
    }

    /// Checks the signature of the token's commitment.
    pub fn verify(&self, server_pk: &[u8; 32]) -> (r: Result<(), TokenError>)
        ensures
            self.commitment is None ==> r == Err::<(), TokenError>(TokenError::MissingValue),
            self.commitment matches Some(m) ==> r == if ed25519_strict_ok(server_pk@, m.point(), self.sig@) {
                Ok::<(), TokenError>(())
            } else {
                Err(TokenError::BadSignature)
            },
    {
        match &self.commitment {
            None => Err(TokenError::MissingValue),
            Some(m) => {
                let bytes = m.serialize();
                if ed25519_verify(server_pk, &bytes, &self.sig) {
                    Ok(())
                } else {
                    Err(TokenError::BadSignature)
                }
            },
        }
    }
}

/// The exponent `k` of the power of two `n == 2^k`.
pub open spec fn log_dim(n: nat) -> nat {
    choose|k: nat| pow2(k) == n
}

proof fn lemma_log_dim(k: nat)
    ensures
        log_dim(pow2(k)) == k,
{
    let j = log_dim(pow2(k));
    assert(pow2(k) == pow2(k));
    if j < k {
        vstd::arithmetic::power2::lemma_pow2_strictly_increases(j, k);
    } else if j > k {
        vstd::arithmetic::power2::lemma_pow2_strictly_increases(k, j);
    }
}

/// The exponent of a power of two below 2^32.
fn log2_of(n: usize) -> (r: u8)
    requires
        is_power_of_two(n as nat),
        n <= 0x8000_0000,
    ensures
        pow2(r as nat) == n,
        r < 32,
{
    let ghost e = choose|k: nat| k < 64 && #[trigger] pow2(k) == n;
    proof {
        vstd::arithmetic::power2::lemma2_to64();
        if e > 31 {
            vstd::arithmetic::power2::lemma_pow2_strictly_increases(31, e);
        }
    }
    let mut m = n;
    let mut k: u8 = 0;
    while m > 1
        invariant
            e < 32,
            k <= e,
            m == pow2((e - k) as nat),
            pow2(e) == n,
        decreases m,
    {
        proof {
            if e - k == 0 {
                vstd::arithmetic::power2::lemma2_to64();
            }
            vstd::arithmetic::power2::lemma_pow2_unfold((e - k) as nat);
        }
        m = m / 2;
        k = k + 1;
    }
    proof {
        if e > k {
            vstd::arithmetic::power2::lemma_pow2_strictly_increases(0, (e - k) as nat);
            vstd::arithmetic::power2::lemma2_to64();
        }
    }
    k
}

impl PRCClient {
    /// The database configuration.
    pub closed spec fn db(&self) -> DBConfig {
        self.db_conf
    }

    /// The system configuration.
    pub closed spec fn sys(&self) -> SystemConfig {
        self.sys_conf
    }

    /// Number of servers that queries are shared among.
    pub closed spec fn parties(&self) -> nat {
        self.party_num as nat
    }

    /// The dimensions are powers of two of at most 2^31 whose product fits a `usize`.
    pub open spec fn dims_ok(&self) -> bool {
        &&& is_power_of_two(self.db().l1())
        &&& is_power_of_two(self.db().l2())
        &&& self.db().l1() <= 0x8000_0000
        &&& self.db().l2() <= 0x8000_0000
        &&& self.db().l1() * self.db().l2() <= usize::MAX
    }

    /// The draws before the arithmetic shares of a query drawn after the draws `d`: two
    /// boolean sharings, each drawing a word for every server but the last.
    pub open spec fn rnd_draws(&self, d: Seq<Draw>) -> Seq<Draw> {
        d + repeated_draws(Draw::Word, (self.parties() - 1) as nat) + repeated_draws(
            Draw::Word,
            (self.parties() - 1) as nat,
        )
    }

    /// `q` is the query to the `k`-th server for record `idx` that is dealt from the
    /// generator seeded with `seed` after the draws `d`: boolean shares of the two coordinates
    /// of the index, then a drawn commitment randomness and its arithmetic shares.
    pub open spec fn query_drawn(&self, idx: nat, seed: Seq<u8>, d: Seq<Draw>, k: int, q: PRCQuery) -> bool {
        let l1 = self.db().l1();
        let l2 = self.db().l2();
        let n = self.parties();
        let dw = d + repeated_draws(Draw::Word, (n - 1) as nat);
        let dr = self.rnd_draws(d);
        &&& q.l1_bss.len() == log_dim(l1)
        &&& q.l2_bss.len() == log_dim(l2)
        &&& q.l1_bss.val() == dealt_bool_shares(seed, d, (idx % l1) as u32, log_dim(l1), n)[k]
        &&& q.l2_bss.val() == dealt_bool_shares(seed, dw, (idx / l1) as u32, log_dim(l2), n)[k]
        &&& q.rnd_ass.val() == dealt_arith_shares(
            seed,
            dr.push(Draw::Scalar),
            le_value(chacha8_scalar(seed, dr)) as int,
            n,
        )[k]
    }

    /// A client sharing queries among `party_num` servers.
    pub fn new(party_num: usize, db_conf: DBConfig, sys_conf: SystemConfig) -> (r: Self)
        ensures
            r.parties() == party_num,
            r.db() == db_conf,
            r.sys() == sys_conf,
    {
        PRCClient { party_num, db_conf, sys_conf }
    }

    /// The base-2 logarithms of the dimensions.
    fn get_logdim(&self) -> (r: (u8, u8))
        requires
            self.dims_ok(),
        ensures
            pow2(r.0 as nat) == self.db().l1(),
            pow2(r.1 as nat) == self.db().l2(),
            r.0 == log_dim(self.db().l1()),
            r.1 == log_dim(self.db().l2()),
            r.0 < 32,
            r.1 < 32,
    {
        let r = (log2_of(self.db_conf.l1_dim()), log2_of(self.db_conf.l2_dim()));
        proof {
            lemma_log_dim(r.0 as nat);
            lemma_log_dim(r.1 as nat);
        }
        r
    }

    /// The dimensions (l1, l2).
    pub fn get_dims(&self) -> (r: (usize, usize))
        ensures
            r.0 == self.db().l1(),
            r.1 == self.db().l2(),
    {
        (self.db_conf.l1_dim(), self.db_conf.l2_dim())
    }

    /// The coordinates (l1, l2) of record `idx`: `idx = l2 * l1_dim + l1`.
    pub fn idx_to_2dim(&self, idx: usize) -> (r: (usize, usize))
        requires
            self.db().l1() * self.db().l2() <= usize::MAX,
            idx < self.db().l1() * self.db().l2(),
        ensures
            r.0 < self.db().l1(),
            r.1 < self.db().l2(),
            idx == r.1 * self.db().l1() + r.0,
            r.0 == idx as nat % self.db().l1(),
            r.1 == idx as nat / self.db().l1(),
    {
        let max = self.db_conf.get_max_size();
        let l1_dim = self.db_conf.l1_dim();
        proof {
            let (a, b) = (self.db().l1() as int, self.db().l2() as int);
            assert(a > 0) by (nonlinear_arith)
                requires
                    0 <= idx < a * b,
                    a >= 0,
                    b >= 0,
            ;
            vstd::arithmetic::div_mod::lemma_fundamental_div_mod(idx as int, l1_dim as int);
            assert(idx as int / a < b) by (nonlinear_arith)
                requires
                    0 <= idx < a * b,
                    a > 0,
            ;
        }
        let l2 = idx / l1_dim;
        let l1 = idx % l1_dim;
        proof {
            assert(l1_dim * l2 == l2 * l1_dim) by (nonlinear_arith);
        }
        (l1, l2)
    }

    /// Number of records.
    pub fn total_db_size(&self) -> (r: usize)
        requires
            self.db().l1() * self.db().l2() <= usize::MAX,
        ensures
            r == self.db().l1() * self.db().l2(),
    {
        self.db_conf.get_max_size()
    }

    /// Boolean shares of the coordinates of record `idx`, one pair per server.
    pub fn _query_index(&self, idx: usize, rng: &mut SeededRng) -> (r: (Vec<BooleanValue>, Vec<BooleanValue>))
        requires
            self.dims_ok(),
            self.parties() >= 1,
            idx < self.db().l1() * self.db().l2(),
        ensures
            r.0@.len() == self.parties(),
            r.1@.len() == self.parties(),
            forall|i: int| 0 <= i < r.0@.len() ==> pow2((#[trigger] r.0@[i]).len()) == self.db().l1(),
            forall|i: int| 0 <= i < r.1@.len() ==> pow2((#[trigger] r.1@[i]).len()) == self.db().l2(),
            forall|i: int| 0 <= i < r.0@.len() ==> (#[trigger] r.0@[i]).len() == log_dim(self.db().l1()),
            forall|i: int| 0 <= i < r.1@.len() ==> (#[trigger] r.1@[i]).len() == log_dim(self.db().l2()),
            xor_booleans(0, r.1@) * self.db().l1() + xor_booleans(0, r.0@) == idx,
            r.0@.map_values(|b: BooleanValue| b.val() as u32) == dealt_bool_shares(
                old(rng).seed(),
                old(rng).draws(),
                (idx as nat % self.db().l1()) as u32,
                log_dim(self.db().l1()),
                self.parties(),
            ),
            r.1@.map_values(|b: BooleanValue| b.val() as u32) == dealt_bool_shares(
                old(rng).seed(),
                old(rng).draws() + repeated_draws(Draw::Word, (self.parties() - 1) as nat),
                (idx as nat / self.db().l1()) as u32,
                log_dim(self.db().l2()),
                self.parties(),
            ),
            final(rng).seed() == old(rng).seed(),
            final(rng).draws() == old(rng).draws() + repeated_draws(Draw::Word, (self.parties() - 1) as nat)
                + repeated_draws(Draw::Word, (self.parties() - 1) as nat),
    {
        let (dim1, dim2) = self.get_logdim();
        let (l1, l2) = self.idx_to_2dim(idx);
        let l1 = BooleanValue::new(dim1, l1 as u32);
        let l2 = BooleanValue::new(dim2, l2 as u32);
        (secret_share_boolean(l1, self.party_num, rng), secret_share_boolean(l2, self.party_num, rng))
    }

    /// A random commitment randomness and its arithmetic shares, one per server.
    pub fn _query_commit_rnd(&self, rng: &mut SeededRng) -> (r: (ArithValueT, Vec<ArithValueT>))
        requires
            self.parties() >= 1,
        ensures
            r.1@.len() == self.parties(),
            arith_fold(0, r.1@) % (group_order() as int) == r.0.val() as int,
            r.0.val() == le_value(chacha8_scalar(old(rng).seed(), old(rng).draws())),
            r.1@.map_values(|a: ArithValueT| a.val() as int) == dealt_arith_shares(
                old(rng).seed(),
                old(rng).draws().push(Draw::Scalar),
                r.0.val() as int,
                self.parties(),
            ),
            final(rng).seed() == old(rng).seed(),
            final(rng).draws() == old(rng).draws().push(Draw::Scalar) + repeated_draws(
                Draw::Scalar,
                (self.parties() - 1) as nat,
            ),
    {
        let rnd = ArithValueT::random(rng);
        let rnd_shares = secret_share_arith(rnd, self.party_num, rng);
        proof {
            vstd::arithmetic::div_mod::lemma_small_mod(rnd.val(), group_order());
        }
        (rnd, rnd_shares)
    }

    /// The queries to all servers for record `idx`, and what the client keeps to open the
    /// commitment.
    pub fn query_all_servers(&self, idx: usize, rng: &mut SeededRng) -> (r: (PRCClientSt, Vec<PRCQuery>))
        requires
            self.dims_ok(),
            self.parties() >= 1,
            self.sys().peers@.len() <= self.parties(),
            idx < self.db().l1() * self.db().l2(),
            idx < 0x1_0000_0000,
        ensures
            r.0.idx().value() == idx,
            r.0.crnd().value() == le_value(chacha8_scalar(old(rng).seed(), self.rnd_draws(old(rng).draws()))),
            r.1@.len() == self.sys().peers@.len(),
            forall|k: int| 0 <= k < r.1@.len() ==> self.query_drawn(idx as nat, old(rng).seed(), old(rng).draws(), k, #[trigger] r.1@[k]),
            final(rng).seed() == old(rng).seed(),
            r.1@.len() == self.parties() ==> xor_booleans(0, r.1@.map_values(|q: PRCQuery| q.l2_bss)) * self.db().l1()
                + xor_booleans(0, r.1@.map_values(|q: PRCQuery| q.l1_bss)) == idx
                && arith_fold(0, r.1@.map_values(|q: PRCQuery| q.rnd_ass)) % (group_order() as int)
                    == r.0.crnd().value(),
    {
        let (l1, l2) = self._query_index(idx, rng);
        let (rnd, rnd_shares) = self._query_commit_rnd(rng);
        let st = PRCClientSt { crnd: rnd.as_scalar(), idx: ModScalar::from_u32(idx as u32) };
        let n = self.sys_conf.get_party_num();
        let mut queries: Vec<PRCQuery> = Vec::with_capacity(n);
        let mut i: usize = 0;
        while i < n
            invariant
                n == self.sys().peers@.len(),
                n <= self.parties(),
                l1@.len() == self.parties(),
                l2@.len() == self.parties(),
                rnd_shares@.len() == self.parties(),
                i <= n,
                queries@.len() == i,
                forall|k: int|
                    0 <= k < i ==> (#[trigger] queries@[k]).l1_bss == l1@[k] && queries@[k].l2_bss == l2@[k]
                        && queries@[k].rnd_ass == rnd_shares@[k],
            decreases n - i,
        {
            queries.push(PRCQuery { l1_bss: l1[i], l2_bss: l2[i], rnd_ass: rnd_shares[i] });
            i += 1;
        }
        proof {
            assert forall|k: int| 0 <= k < queries@.len() implies self.query_drawn(
                idx as nat,
                old(rng).seed(),
                old(rng).draws(),
                k,
                #[trigger] queries@[k],
            ) by {
                assert(l1@.map_values(|b: BooleanValue| b.val() as u32)[k] == l1@[k].val() as u32);
                assert(l2@.map_values(|b: BooleanValue| b.val() as u32)[k] == l2@[k].val() as u32);
                assert(rnd_shares@.map_values(|a: ArithValueT| a.val() as int)[k] == rnd_shares@[k].val() as int);
                l1@[k].lemma_val_u32();
                l2@[k].lemma_val_u32();
            }
            if n == self.parties() {
                assert(queries@.map_values(|q: PRCQuery| q.l1_bss) =~= l1@);
                assert(queries@.map_values(|q: PRCQuery| q.l2_bss) =~= l2@);
                assert(queries@.map_values(|q: PRCQuery| q.rnd_ass) =~= rnd_shares@);
            }
        }
        (st, queries)
    }

    /// The query to server `server_id` for record `idx`, and what the client keeps; `None`
    /// when no peer of the configuration has that id.
    pub fn query_single_server(&self, idx: usize, server_id: usize, rng: &mut SeededRng) -> (r: Option<(PRCClientSt, PRCQuery)>)
        requires
            self.dims_ok(),
            self.parties() >= 1,
            self.sys().peers@.len() <= self.parties(),
            idx < self.db().l1() * self.db().l2(),
            idx < 0x1_0000_0000,
        ensures
            r is Some <==> exists|j: int| 0 <= j < self.sys().peers@.len() && (#[trigger] self.sys().peers@[j]).id == server_id,
            r matches Some((st, q)) ==> st.idx().value() == idx && st.crnd().value() == le_value(
                chacha8_scalar(old(rng).seed(), self.rnd_draws(old(rng).draws())),
            ) && exists|j: int|
                0 <= j < self.sys().peers@.len() && (#[trigger] self.sys().peers@[j]).id == server_id
                    && (forall|i: int| 0 <= i < j ==> (#[trigger] self.sys().peers@[i]).id != server_id)
                    && self.query_drawn(idx as nat, old(rng).seed(), old(rng).draws(), j, q),
            final(rng).seed() == old(rng).seed(),
    {
        let (st, queries) = self.query_all_servers(idx, rng);
        match self.sys_conf.get_peer_idx(server_id) {
            Some(peer_idx) => Some((st, queries[peer_idx])),
            None => None,
        }
    }
}

} // verus!
