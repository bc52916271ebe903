//! A PRC server: one party of the MPC that retrieves the queried record from its copy of the
//! database, converts the record and the index to arithmetic shares, commits to them, and
//! signs the aggregated commitment. The exchanges with the other parties happen between the
//! steps below.
use vstd::prelude::*;
use vstd::arithmetic::power2::pow2;
use ed25519_dalek::{Signer, SigningKey};
use crate::cor_rnd::sharing::{join_boolean, ArithValueT, BooleanValue};
use crate::prc::client::{PRCClientSt, PRCQuery, PRCToken};
use crate::prc::commitment::{
    commits_to_parts, lemma_aggregate_is_commitment, log_sum, part_sums, pedersen, ristretto_log, Commitment, Opening,
};
use crate::prc::config::{beaver_bits_per_query, valid_db_dims, SystemConfig};
use crate::prc::db::{pir_bit, PRCDatabase};
use crate::prc::layer::{and_ops, src_bit, src_buf, src_len, src_ok, Layer, LayerSource, MpcOperation};
use crate::prc::mpc::{engines_ran, is_party, layer_shape, lemma_plan_bytes, ohe_bytes, shape_bytes, layers_laid, lemma_ohe_encodes_grow, lemma_ohe_one_hot_run, lemma_ohe_placed_grow, src_bits, xor_nats, ohe_encodes, ohe_plan, ohe_placed, ohe_src, MpcProvider};
use crate::cor_rnd::scalar::group_order;
use crate::simd_array::bit_array::{bits_fit, BitArray};
use crate::simd_array::bit_spec::{ceil8, seq_parity, xor_bools};

verus! {

/// The Ed25519 public key of the secret key `sk`.
pub uninterp spec fn ed25519_public(sk: Seq<u8>) -> Seq<u8>;

/// The Ed25519 signature of `msg` with the secret key `sk`.
pub uninterp spec fn ed25519_signature(sk: Seq<u8>, msg: Seq<u8>) -> Seq<u8>;

/// Calls `SigningKey::from_bytes` and `verifying_key`, and encodes the key.
#[verifier::external_body]
fn public_key_of(sk: &[u8; 32]) -> (r: [u8; 32])
    ensures
        r@ == ed25519_public(sk@),
{
    SigningKey::from_bytes(sk).verifying_key().to_bytes()
}

/// Calls `SigningKey::from_bytes` and `Signer::sign`, and encodes the signature. Whether
/// such a signature passes strict verification is left unsaid: `verify_strict` rejects a
/// signature whose nonce point `r * B` has small order, which happens when the nonce `r`, a
/// hash reduced modulo the group order, is zero; signing does not rule that out.
#[verifier::external_body]
fn sign_with(sk: &[u8; 32], msg: &[u8]) -> (r: [u8; 64])
    ensures
        r@ == ed25519_signature(sk@, msg@),
{
    SigningKey::from_bytes(sk).sign(msg).to_bytes()
}

/// A PRC server.
pub struct PRCServer {
    pub id: usize,
    pub config: SystemConfig,
    pub db: PRCDatabase,
    pub pk: [u8; 32],
    mpc_provider: MpcProvider,
    sk: [u8; 32],
}

impl PRCServer {
    /// The MPC engine.
    pub closed spec fn mpc(&self) -> MpcProvider {
        self.mpc_provider
    }

    /// The secret signing key.
    pub closed spec fn secret(&self) -> Seq<u8> {
        self.sk@
    }

    /// The server's id.
    pub closed spec fn server_id(&self) -> usize {
        self.id
    }

    /// The configuration.
    pub closed spec fn configuration(&self) -> SystemConfig {
        self.config
    }

    /// The database.
    pub closed spec fn database(&self) -> PRCDatabase {
        self.db
    }

    /// The public key.
    pub closed spec fn public_key(&self) -> Seq<u8> {
        self.pk@
    }

    /// The database holds one-bit records, the engine is well formed and party 0 adds the
    /// constants, and the public key is that of the secret key.
    pub closed spec fn wf(&self) -> bool {
        &&& self.db.wf()
        &&& self.db.rsize() == 1
        &&& self.mpc().wf()
        &&& self.mpc().is_const() == (self.id == 0)
        &&& self.pk@ == ed25519_public(self.secret())
    }

    pub proof fn lemma_wf(&self)
        requires
            self.wf(),
        ensures
            self.database().wf(),
            self.database().rsize() == 1,
            self.mpc().wf(),
            self.mpc().is_const() == (self.server_id() == 0),
            self.public_key() == ed25519_public(self.secret()),
    {
    }

    /// Server `id` of the configuration, with its database, its correlated randomness for
    /// `expected_query_num` queries and the signing key `sk`.
    pub fn new_with_secret_key(id: usize, config: SystemConfig, expected_query_num: usize, sk: [u8; 32]) -> (r: Self)
        requires
            valid_db_dims(1, config.db_config.l2(), config.db_config.l1()),
            config.db_config.record_size_spec() == 1,
            config.db_config.seed() is Some,
            id < config.peers@.len(),
            id == 0 ==> config.peers@.len() >= 2,
            expected_query_num > 0,
            5 * config.db_config.l2() + 3 * config.db_config.l1() + 200 <= usize::MAX,
            expected_query_num * beaver_bits_per_query(config.db_config.l1(), config.db_config.l2()) <= usize::MAX,
            bits_fit((expected_query_num * beaver_bits_per_query(config.db_config.l1(), config.db_config.l2())) as nat),
            expected_query_num * 36 <= usize::MAX,
        ensures
            r.wf(),
            r.server_id() == id,
            r.configuration() == config,
            r.secret() == sk@,
            r.mpc().layers().len() == 0,
            r.mpc().output() is None,
            r.database().drawn_from(config.db_config.seed()->0@),
            config.setup_of(id as nat, expected_query_num as nat, (r.mpc().beaver(), r.mpc().dabit())),
    {
        let db = PRCDatabase::from_config(&config.db_config);
        let (beaver, dabit) = config.init_seeded_correlated_randomness(id, expected_query_num);
        let mpc_provider = MpcProvider::new(id == 0, beaver, dabit);
        let pk = public_key_of(&sk);
        PRCServer { id, config, db, pk, mpc_provider, sk }
    }

    /// The MPC engine, to run its layers and conversions.
    pub fn mpc_mut(&mut self) -> (r: &mut MpcProvider)
        ensures
            *r == old(self).mpc(),
            final(self).mpc() == *final(r),
            final(self).server_id() == old(self).server_id(),
            final(self).configuration() == old(self).configuration(),
            final(self).database() == old(self).database(),
            final(self).public_key() == old(self).public_key(),
            final(self).secret() == old(self).secret(),
            old(self).wf() && final(r).wf() && final(r).is_const() == old(self).mpc().is_const() ==> final(self).wf(),
    {
        &mut self.mpc_provider
    }

    /// Requests the one-hot encoding of the shared index: the source of its output once the
    /// layers have run.
    pub fn ohe_request(&mut self, idx_bshare: BooleanValue) -> (r: LayerSource)
        requires
            old(self).wf(),
            old(self).mpc().layers().len() == 0,
            idx_bshare.len() >= 1,
            bits_fit(pow2(idx_bshare.len()) * 8),
        ensures
            final(self).wf(),
            ohe_src(r, 0, idx_bshare.len(), old(self).server_id() == 0, idx_bshare.val()),
            ohe_encodes(final(self).mpc(), r, 0, idx_bshare.len(), old(self).server_id() == 0, idx_bshare.val()),
            ohe_placed(
                final(self).mpc(),
                ohe_plan(layer_shape(old(self).mpc()), 0, idx_bshare.len()).0,
                r,
                0,
                idx_bshare.len(),
                old(self).server_id() == 0,
                idx_bshare.val(),
            ),
            layer_shape(final(self).mpc()) == ohe_plan(layer_shape(old(self).mpc()), 0, idx_bshare.len()).1,
            layers_laid(final(self).mpc()),
            ohe_request_made(*old(self), *final(self), r, idx_bshare),
            final(self).server_id() == old(self).server_id(),
            final(self).database() == old(self).database(),
    {
        proof {
            crate::simd_array::bit_spec::lemma_ceil8(pow2(idx_bshare.len()) * 8);
        }
        self.mpc_provider.ohe_vec(idx_bshare)
    }

    /// The output of `src` after the run, and the engine cleared; `None` when the run left no
    /// such output.
    pub fn take_output(&mut self, src: LayerSource) -> (r: Option<BitArray>)
        requires
            old(self).wf(),
            src matches LayerSource::Input(d) ==> d.wf(),
        ensures
            final(self).wf(),
            final(self).mpc().layers().len() == 0,
            final(self).mpc().output() is None,
            final(self).server_id() == old(self).server_id(),
            final(self).database() == old(self).database(),
            r is Some <==> src_ok(&src, old(self).mpc().output_ref()),
            r matches Some(a) ==> a.wf() && a.nbits() == src_len(&src, old(self).mpc().output_ref()) && forall|j: int|
                0 <= j < a.nbits() ==> #[trigger] a.bit(j) == src_bit(&src, old(self).mpc().output_ref(), j),
            r matches Some(a) ==> a.buf() == src_buf(&src, old(self).mpc().output_ref()),
    {
        if !self.mpc_provider.output_ready(&src) {
            self.mpc_provider.clear();
            return None;
        }
        let out = self.mpc_provider.get_output(src);
        self.mpc_provider.clear();
        Some(out)
    }

    /// Requests the one-hot encodings of the two shared coordinates of the index.
    pub fn rec_retrieve_request(&mut self, l1_idx_share: BooleanValue, l2_idx_share: BooleanValue) -> (r: (LayerSource, LayerSource))
        requires
            old(self).wf(),
            old(self).mpc().layers().len() == 0,
            l1_idx_share.len() >= 1,
            l2_idx_share.len() >= 1,
            bits_fit((pow2(l1_idx_share.len()) + pow2(l2_idx_share.len())) * 8),
        ensures
            final(self).wf(),
            final(self).server_id() == old(self).server_id(),
            final(self).database() == old(self).database(),
            ohe_src(r.0, 0, l1_idx_share.len(), old(self).server_id() == 0, l1_idx_share.val()),
            ohe_src(r.1, 0, l2_idx_share.len(), old(self).server_id() == 0, l2_idx_share.val()),
            ohe_encodes(final(self).mpc(), r.0, 0, l1_idx_share.len(), old(self).server_id() == 0, l1_idx_share.val()),
            ohe_encodes(final(self).mpc(), r.1, 0, l2_idx_share.len(), old(self).server_id() == 0, l2_idx_share.val()),
            ({
                let p1 = ohe_plan(layer_shape(old(self).mpc()), 0, l1_idx_share.len());
                let p2 = ohe_plan(p1.1, 0, l2_idx_share.len());
                &&& ohe_placed(final(self).mpc(), p1.0, r.0, 0, l1_idx_share.len(), old(self).server_id() == 0, l1_idx_share.val())
                &&& ohe_placed(final(self).mpc(), p2.0, r.1, 0, l2_idx_share.len(), old(self).server_id() == 0, l2_idx_share.val())
                &&& layer_shape(final(self).mpc()) == p2.1
            }),
            layers_laid(final(self).mpc()),
            retrieve_request_made(*old(self), *final(self), r, l1_idx_share, l2_idx_share),
    {
        proof {
            crate::simd_array::bit_spec::lemma_ceil8((pow2(l1_idx_share.len()) + pow2(l2_idx_share.len())) * 8);
            vstd::arithmetic::power2::lemma_pow2_pos(l2_idx_share.len());
        }
        let l1_src = self.mpc_provider.ohe_vec(l1_idx_share);
        proof {
            assert forall|i: int| 0 <= i implies bits_fit(
                ((#[trigger] self.mpc().layer_size(i)) + pow2(l2_idx_share.len())) * 8,
            ) by {
                crate::simd_array::bit_spec::lemma_ceil8(((self.mpc().layer_size(i)) + pow2(l2_idx_share.len())) * 8);
            }
        }
        let ghost m1 = self.mpc();
        let l2_src = self.mpc_provider.ohe_vec(l2_idx_share);
        proof {
            assert forall|i: int| 0 <= i implies (#[trigger] m1.layer_ops(i)).is_prefix_of(self.mpc().layer_ops(i)) by {
                assert(self.mpc().layer_size(i) <= m1.layer_size(i) + pow2(l2_idx_share.len()));
            }
            lemma_ohe_encodes_grow(m1, self.mpc(), l1_src, 0, l1_idx_share.len(), old(self).server_id() == 0, l1_idx_share.val());
            lemma_ohe_placed_grow(
                m1,
                self.mpc(),
                ohe_plan(layer_shape(old(self).mpc()), 0, l1_idx_share.len()).0,
                l1_src,
                0,
                l1_idx_share.len(),
                old(self).server_id() == 0,
                l1_idx_share.val(),
            );
        }
        (l1_src, l2_src)
    }

    /// From the one-hot encodings of the coordinates, answers the first-level PIR on the
    /// database and requests the AND of that answer with the second encoding; `None` when
    /// the encodings are missing or their sizes do not fit the database.
    pub fn rec_retrieve_combine(&mut self, l1_src: LayerSource, l2_src: LayerSource) -> (r: Option<LayerSource>)
        requires
            old(self).wf(),
            l1_src matches LayerSource::Input(d) ==> d.wf(),
            l2_src matches LayerSource::Input(d) ==> d.wf(),
        ensures
            final(self).wf(),
            final(self).server_id() == old(self).server_id(),
            final(self).database() == old(self).database(),
            r is Some <==> (src_ok(&l1_src, old(self).mpc().output_ref()) && src_ok(&l2_src, old(self).mpc().output_ref())
                && src_len(&l1_src, old(self).mpc().output_ref()) == old(self).database().l1()
                && src_len(&l2_src, old(self).mpc().output_ref()) == old(self).database().l2()),
            final(self).mpc().output() is None,
            final(self).mpc().is_const() == old(self).mpc().is_const(),
            final(self).mpc().beaver() == old(self).mpc().beaver(),
            final(self).mpc().dabit() == old(self).mpc().dabit(),
            r is None ==> final(self).mpc().layers().len() == 0,
            r matches Some(LayerSource::TakeZ(t)) ==> t.layer() == 0 && t.st() == 0 && t.end() == old(self).database().l2()
                && final(self).mpc().layers().len() == 1 && final(self).mpc().layer_size(0) == ceil8(old(self).database().l2()),
            r matches Some(s) ==> s is TakeZ,
            r matches Some(LayerSource::TakeZ(t)) ==> exists|q: BitArray, a: BitArray, b: BitArray|
                #[trigger] final(self).mpc().layer_ops(0) == and_ops(LayerSource::Input(a), LayerSource::Input(b), t)
                    && q.wf() && q.nbits() == old(self).database().l1()
                    && (forall|j: int| 0 <= j < q.nbits() ==> #[trigger] q.bit(j) == src_bit(&l1_src, old(self).mpc().output_ref(), j))
                    && q.buf() == src_buf(&l1_src, old(self).mpc().output_ref())
                    && a.wf() && a.nbits() == old(self).database().l2()
                    && (forall|i: int| 0 <= i < a.nbits() ==> #[trigger] a.bit(i) == pir_bit(q.buf(), old(self).database().row(0, i).buf()))
                    && b.wf() && b.nbits() == old(self).database().l2()
                    && (forall|j: int| 0 <= j < b.nbits() ==> #[trigger] b.bit(j) == src_bit(&l2_src, old(self).mpc().output_ref(), j))
                    && b.buf() == src_buf(&l2_src, old(self).mpc().output_ref()),
    {
        if !(self.mpc_provider.output_ready(&l1_src) && self.mpc_provider.output_ready(&l2_src)) {
            self.mpc_provider.clear();
            return None;
        }
        let l1_ohe = self.mpc_provider.get_output(l1_src);
        let l2_ohe = self.mpc_provider.get_output(l2_src);
        self.mpc_provider.clear();
        proof {
            self.db.lemma_wf();
        }
        let (l1, l2) = self.db.get_dims();
        if l1_ohe.bit_size() != l1 || l2_ohe.bit_size() != l2 {
            return None;
        }
        let l1_pir_ans = self.db.lvl1_pir_retrieve(&l1_ohe);
        proof {
            crate::simd_array::bit_spec::lemma_ceil8(self.db.l2());
            crate::prc::db::lemma_power_of_two_pos(self.db.l2());
            l1_pir_ans.lemma_wf();
        }
        let bits = l1_pir_ans.bit_size();
        let ghost (gq, ga, gb) = (l1_ohe, l1_pir_ans, l2_ohe);
        let src = self.mpc_provider.and(bits, LayerSource::Input(l1_pir_ans), LayerSource::Input(l2_ohe));
        proof {
            if let LayerSource::TakeZ(t) = src {
                assert(Seq::<MpcOperation>::empty() + and_ops(LayerSource::Input(ga), LayerSource::Input(gb), t)
                    =~= and_ops(LayerSource::Input(ga), LayerSource::Input(gb), t));
                assert(self.mpc().layer_ops(0) == and_ops(LayerSource::Input(ga), LayerSource::Input(gb), t));
            }
        }
        Some(src)
    }

    /// The server's share of the record bit: the parity of its share of the AND of the
    /// first-level answer with the second encoding; `None` when the run left no such output.
    pub fn rec_retrieve_answer(&mut self, src: LayerSource) -> (r: Option<bool>)
        requires
            old(self).wf(),
            src matches LayerSource::Input(d) ==> d.wf(),
        ensures
            final(self).wf(),
            final(self).server_id() == old(self).server_id(),
            final(self).database() == old(self).database(),
            final(self).mpc().layers().len() == 0,
            r is Some <==> src_ok(&src, old(self).mpc().output_ref()),
            r matches Some(b) ==> b == seq_parity(src_buf(&src, old(self).mpc().output_ref())),
    {
        match self.take_output(src) {
            Some(ans) => Some(ans.parity()),
            None => None,
        }
    }

    /// The values to convert to arithmetic shares: the index, its two coordinates joined,
    /// and the record bit.
    pub fn b2a_inputs(query: &PRCQuery, record_share: bool) -> (r: Vec<BooleanValue>)
        requires
            query.l1_bss.len() + query.l2_bss.len() <= 32,
        ensures
            r@.len() == 2,
            r@[0].len() == query.l1_bss.len() + query.l2_bss.len(),
            r@[0].val() == query.l1_bss.val() + query.l2_bss.val() * pow2(query.l1_bss.len()),
            r@[1].len() == 1,
            r@[1].val() == if record_share {
                1nat
            } else {
                0nat
            },
    {
        proof {
            vstd::arithmetic::power2::lemma2_to64();
        }
        let idx = join_boolean(query.l1_bss, query.l2_bss);
        let rec = BooleanValue::new(1, if record_share { 1 } else { 0 });
        vec![idx, rec]
    }

    /// This server's commitment: to its share of the randomness, the index and the record.
    pub fn share_commitment(query: &PRCQuery, arith: &Vec<ArithValueT>) -> (r: Commitment)
        requires
            arith@.len() >= 2,
        ensures
            r.wf(),
            r.point() == pedersen(
                query.rnd_ass.val() % group_order(),
                arith@[0].val() % group_order(),
                arith@[1].val() % group_order(),
            ),
            commits_to_parts(r, query.rnd_ass.val(), arith@[0].val(), arith@[1].val()),
    {
        let opening = Opening::new(query.rnd_ass.as_scalar(), arith[0].as_scalar(), arith[1].as_scalar());
        Commitment::commit(&opening)
    }

    /// The token of the aggregated commitment, signed by this server; `None` without one.
    pub fn sign_token(&self, agg_commit: Option<Commitment>) -> (r: Option<PRCToken>)
        requires
            self.wf(),
        ensures
            r is Some <==> agg_commit is Some,
            r matches Some(t) ==> (agg_commit matches Some(m) && t.commitment is None && t.sig@ == ed25519_signature(
                self.secret(),
                m.point(),
            )),
    {
        match agg_commit {
            Some(commit) => {
                let bytes = commit.serialize();
                let sig = sign_with(&self.sk, &bytes);
                Some(PRCToken { commitment: None, sig })
            },
            None => None,
        }
    }

    /// The bits of Beaver triplets and the daBits used since the last report.
    pub fn get_preproc_stat(&mut self) -> (r: (usize, usize))
        requires
            old(self).wf(),
        ensures
            final(self).wf(),
            final(self).server_id() == old(self).server_id(),
            final(self).database() == old(self).database(),
            r.0 == (old(self).mpc().beaver().used_bytes() - old(self).mpc().beaver().reported_bytes()) * 8,
            r.1 == old(self).mpc().dabit().used_count() - old(self).mpc().dabit().reported_count(),
    {
        self.mpc_provider.get_preproc_stat()
    }
}

/// What `ohe_request` states of the request of the one-hot encoding of `share` by the server
/// `old`, which became `new` and returned `src`.
pub open spec fn ohe_request_made(old: PRCServer, new: PRCServer, src: LayerSource, share: BooleanValue) -> bool {
    &&& ohe_placed(
        new.mpc(),
        ohe_plan(layer_shape(old.mpc()), 0, share.len()).0,
        src,
        0,
        share.len(),
        old.server_id() == 0,
        share.val(),
    )
    &&& layer_shape(new.mpc()) == ohe_plan(layer_shape(old.mpc()), 0, share.len()).1
    &&& layers_laid(new.mpc())
}

/// What `rec_retrieve_request` states of the request of the one-hot encodings of `l1` and
/// `l2` by the server `old`, which became `new` and returned `srcs`.
pub open spec fn retrieve_request_made(
    old: PRCServer,
    new: PRCServer,
    srcs: (LayerSource, LayerSource),
    l1: BooleanValue,
    l2: BooleanValue,
) -> bool {
    let p1 = ohe_plan(layer_shape(old.mpc()), 0, l1.len());
    let p2 = ohe_plan(p1.1, 0, l2.len());
    &&& ohe_placed(new.mpc(), p1.0, srcs.0, 0, l1.len(), old.server_id() == 0, l1.val())
    &&& ohe_placed(new.mpc(), p2.0, srcs.1, 0, l2.len(), old.server_id() == 0, l2.val())
    &&& layer_shape(new.mpc()) == p2.1
    &&& layers_laid(new.mpc())
}

/// The first source of each pair.
pub open spec fn first_sources(srcs: Seq<(LayerSource, LayerSource)>) -> Seq<LayerSource> {
    Seq::new(srcs.len(), |p: int| srcs[p].0)
}

/// The second source of each pair.
pub open spec fn second_sources(srcs: Seq<(LayerSource, LayerSource)>) -> Seq<LayerSource> {
    Seq::new(srcs.len(), |p: int| srcs[p].1)
}

/// The engines of the servers, in order.
pub open spec fn server_engines(ss: Seq<PRCServer>) -> Seq<MpcProvider> {
    Seq::new(ss.len(), |p: int| ss[p].mpc())
}

/// The values of boolean shares.
pub open spec fn share_values(shares: Seq<BooleanValue>) -> Seq<nat> {
    Seq::new(shares.len(), |p: int| shares[p].val())
}

/// The servers, numbered in order, start with no layers.
pub open spec fn servers_fresh(olds: Seq<PRCServer>) -> bool {
    &&& olds.len() > 0
    &&& forall|p: int| 0 <= p < olds.len() ==> (#[trigger] olds[p]).server_id() == p && olds[p].mpc().layers().len() == 0
}

/// Layers with nothing reserved and no operations, as fresh engines have.
proof fn lemma_fresh_shape(m: MpcProvider)
    requires
        m.layers().len() == 0,
    ensures
        layer_shape(m) == (|i: int| (0nat, 0nat)),
{
    assert(layer_shape(m) =~= (|i: int| (0nat, 0nat)));
}

/// One-hot law of `ohe_request`: servers numbered in order and without layers each requested
/// the one-hot encoding of their `bits`-bit share of an index, as `ohe_request` states; once
/// they have run all layers of their engines, their outputs of the returned sources xor to
/// the vector that is one exactly at the xor of the shares, the shared index.
pub proof fn lemma_ohe_request_one_hot(
    olds: Seq<PRCServer>,
    news: Seq<PRCServer>,
    fs: Seq<Seq<Layer>>,
    srcs: Seq<LayerSource>,
    shares: Seq<BooleanValue>,
    bits: nat,
)
    requires
        servers_fresh(olds),
        news.len() == olds.len(),
        srcs.len() == olds.len(),
        shares.len() == olds.len(),
        1 <= bits <= 32,
        forall|p: int| 0 <= p < olds.len() ==> (#[trigger] shares[p]).len() == bits && shares[p].val() < pow2(bits),
        forall|p: int| 0 <= p < olds.len() ==> #[trigger] ohe_request_made(olds[p], news[p], srcs[p], shares[p]),
        engines_ran(server_engines(news), fs),
    ensures
        forall|j: int|
            0 <= j < pow2(bits) ==> xor_bools(#[trigger] src_bits(srcs, fs, 0, j)) == (j == xor_nats(share_values(shares))),
{
    let n = olds.len();
    let ms = server_engines(news);
    let idxs = share_values(shares);
    let sh = |i: int| (0nat, 0nat);
    assert forall|p: int| 0 <= p < n implies #[trigger] ohe_placed(ms[p], ohe_plan(sh, 0, bits).0, srcs[p], 0, bits, is_party(p, 0), idxs[p])
        && layers_laid(ms[p]) && layer_shape(ms[p]) == ohe_plan(sh, 0, bits).1 by {
        assert(ohe_request_made(olds[p], news[p], srcs[p], shares[p]));
        assert(olds[p].server_id() == p && olds[p].mpc().layers().len() == 0);
        lemma_fresh_shape(olds[p].mpc());
    }
    assert forall|p: int| 0 <= p < n implies #[trigger] layers_laid(ms[p]) by {
        assert(ohe_placed(ms[p], ohe_plan(sh, 0, bits).0, srcs[p], 0, bits, is_party(p, 0), idxs[p]));
    }
    assert forall|p: int| 0 <= p < n implies #[trigger] layer_shape(ms[p]) == layer_shape(ms[0]) by {
        assert(ohe_placed(ms[p], ohe_plan(sh, 0, bits).0, srcs[p], 0, bits, is_party(p, 0), idxs[p]));
        assert(ohe_placed(ms[0], ohe_plan(sh, 0, bits).0, srcs[0], 0, bits, is_party(0, 0), idxs[0]));
    }
    assert forall|p: int| 0 <= p < n implies #[trigger] idxs[p] < pow2(bits) by {
        assert(shares[p].len() == bits && shares[p].val() < pow2(bits));
    }
    lemma_ohe_one_hot_run(sh, ms, fs, srcs, bits, 0, idxs);
}

/// One-hot law of `rec_retrieve_request`: servers numbered in order and without layers each
/// requested the one-hot encodings of their shares of the two coordinates of an index, of
/// `b1` and `b2` bits, as `rec_retrieve_request` states; once they have run all layers of
/// their engines, their outputs of the first returned source xor to the vector that is one
/// exactly at the first shared coordinate, and those of the second source to the vector that
/// is one exactly at the second.
pub proof fn lemma_retrieve_request_one_hot(
    olds: Seq<PRCServer>,
    news: Seq<PRCServer>,
    fs: Seq<Seq<Layer>>,
    srcs: Seq<(LayerSource, LayerSource)>,
    l1s: Seq<BooleanValue>,
    l2s: Seq<BooleanValue>,
    b1: nat,
    b2: nat,
)
    requires
        servers_fresh(olds),
        news.len() == olds.len(),
        srcs.len() == olds.len(),
        l1s.len() == olds.len(),
        l2s.len() == olds.len(),
        1 <= b1 <= 32,
        1 <= b2 <= 32,
        forall|p: int| 0 <= p < olds.len() ==> (#[trigger] l1s[p]).len() == b1 && l1s[p].val() < pow2(b1),
        forall|p: int| 0 <= p < olds.len() ==> (#[trigger] l2s[p]).len() == b2 && l2s[p].val() < pow2(b2),
        forall|p: int| 0 <= p < olds.len() ==> #[trigger] retrieve_request_made(olds[p], news[p], srcs[p], l1s[p], l2s[p]),
        engines_ran(server_engines(news), fs),
    ensures
        forall|j: int|
            0 <= j < pow2(b1) ==> xor_bools(#[trigger] src_bits(first_sources(srcs), fs, 0, j)) == (j
                == xor_nats(share_values(l1s))),
        forall|j: int|
            0 <= j < pow2(b2) ==> xor_bools(#[trigger] src_bits(second_sources(srcs), fs, 0, j)) == (j
                == xor_nats(share_values(l2s))),
{
    let n = olds.len();
    let ms = server_engines(news);
    let sh = |i: int| (0nat, 0nat);
    let p1 = ohe_plan(sh, 0, b1);
    let s1 = first_sources(srcs);
    let s2 = second_sources(srcs);
    let i1 = share_values(l1s);
    let i2 = share_values(l2s);
    assert forall|p: int| 0 <= p < n implies #[trigger] ohe_placed(ms[p], p1.0, s1[p], 0, b1, is_party(p, 0), i1[p])
        && ohe_placed(ms[p], ohe_plan(p1.1, 0, b2).0, s2[p], 0, b2, is_party(p, 0), i2[p]) && layers_laid(ms[p])
        && layer_shape(ms[p]) == ohe_plan(p1.1, 0, b2).1 by {
        assert(retrieve_request_made(olds[p], news[p], srcs[p], l1s[p], l2s[p]));
        assert(olds[p].server_id() == p && olds[p].mpc().layers().len() == 0);
        lemma_fresh_shape(olds[p].mpc());
    }
    assert forall|p: int| 0 <= p < n implies #[trigger] ohe_placed(ms[p], ohe_plan(p1.1, 0, b2).0, s2[p], 0, b2, is_party(p, 0), i2[p]) by {
        assert(ohe_placed(ms[p], p1.0, s1[p], 0, b1, is_party(p, 0), i1[p]));
    }
    assert forall|p: int| 0 <= p < n implies #[trigger] layers_laid(ms[p]) by {
        assert(ohe_placed(ms[p], p1.0, s1[p], 0, b1, is_party(p, 0), i1[p]));
    }
    assert forall|p: int| 0 <= p < n implies #[trigger] layer_shape(ms[p]) == layer_shape(ms[0]) by {
        assert(ohe_placed(ms[p], p1.0, s1[p], 0, b1, is_party(p, 0), i1[p]));
        assert(ohe_placed(ms[0], p1.0, s1[0], 0, b1, is_party(0, 0), i1[0]));
    }
    assert forall|p: int| 0 <= p < n implies #[trigger] i1[p] < pow2(b1) by {
        assert(l1s[p].len() == b1 && l1s[p].val() < pow2(b1));
    }
    assert forall|p: int| 0 <= p < n implies #[trigger] i2[p] < pow2(b2) by {
        assert(l2s[p].len() == b2 && l2s[p].val() < pow2(b2));
    }
    lemma_ohe_one_hot_run(sh, ms, fs, s1, b1, 0, i1);
    lemma_ohe_one_hot_run(p1.1, ms, fs, s2, b2, 0, i2);
}

/// Layers with nothing reserved reserve no bytes.
proof fn lemma_zero_shape_bytes(d: nat)
    ensures
        shape_bytes(|i: int| (0nat, 0nat), d) == 0,
    decreases d,
{
    if d > 0 {
        lemma_zero_shape_bytes((d - 1) as nat);
    }
}

/// A server without layers that requests the one-hot encodings of the two coordinates of an
/// index, of `b1` and `b2` bits, as `rec_retrieve_request` states, reserves exactly the bytes
/// of the two encodings, `ohe_bytes(b1) + ohe_bytes(b2)`, all on its first 64 layers; with the
/// gates of the AND that `rec_retrieve_combine` adds, that is `retrieval_bytes(b1, b2)`.
pub proof fn lemma_retrieve_request_bytes(
    old: PRCServer,
    new: PRCServer,
    srcs: (LayerSource, LayerSource),
    l1: BooleanValue,
    l2: BooleanValue,
)
    requires
        old.mpc().layers().len() == 0,
        l1.len() <= 32,
        l2.len() <= 32,
        retrieve_request_made(old, new, srcs, l1, l2),
    ensures
        shape_bytes(layer_shape(new.mpc()), 64) == ohe_bytes(l1.len()) + ohe_bytes(l2.len()),
        forall|i: int| 64 <= i ==> #[trigger] new.mpc().layer_size(i) == 0,
{
    let sh = |i: int| (0nat, 0nat);
    lemma_fresh_shape(old.mpc());
    let p1 = ohe_plan(sh, 0, l1.len());
    lemma_plan_bytes(sh, 0, l1.len(), 64);
    lemma_plan_bytes(p1.1, 0, l2.len(), 64);
    lemma_zero_shape_bytes(64);
    assert forall|i: int| 64 <= i implies #[trigger] new.mpc().layer_size(i) == 0 by {
        assert(layer_shape(new.mpc())(i).0 == new.mpc().layer_size(i));
        assert(p1.1(i).0 == sh(i).0);
    }
}

/// The servers' share commitments, each to its server's shares of the commitment randomness,
/// the index and the record value, aggregate to the very commitment that the client checks
/// for the record value when the shares sum to the client's randomness, index and that value
/// modulo the group order; a token signed over the aggregate signs that commitment.
pub proof fn lemma_token_signs_client_commitment(
    shares: Seq<Commitment>,
    parts: Seq<(nat, nat, nat)>,
    agg: Commitment,
    st: PRCClientSt,
    rec_value: nat,
    client_commit: Commitment,
    sk: Seq<u8>,
    token: PRCToken,
)
    requires
        shares.len() == parts.len(),
        shares.len() > 0,
        forall|i: int|
            0 <= i < shares.len() ==> commits_to_parts(#[trigger] shares[i], parts[i].0, parts[i].1, parts[i].2),
        agg.wf(),
        ristretto_log(agg.point()) == log_sum(shares),
        st.crnd().value() % group_order() == part_sums(parts).0 % group_order(),
        st.idx().value() % group_order() == part_sums(parts).1 % group_order(),
        rec_value % group_order() == part_sums(parts).2 % group_order(),
        client_commit.point() == st.commitment_to(rec_value),
        commits_to_parts(client_commit, st.crnd().value(), st.idx().value(), rec_value),
        token.sig@ == ed25519_signature(sk, agg.point()),
    ensures
        agg.point() == st.commitment_to(rec_value),
        token.sig@ == ed25519_signature(sk, st.commitment_to(rec_value)),
{
    lemma_aggregate_is_commitment(
        shares,
        parts,
        agg,
        client_commit,
        (st.crnd().value(), st.idx().value(), rec_value),
    );
}

} // verus!
