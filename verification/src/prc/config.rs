//! Configuration of the parties and of the database.
use vstd::prelude::*;
use vstd::arithmetic::power2::pow2;
use crate::cor_rnd::beaver::{
    beaver_relation, dealer_triplets, lemma_seeded_beaver_relation, seeded_triplets, BeaverProvider,
};
use crate::cor_rnd::dabit::{
    dabit_column, dabit_relation, dealer_dabits, drawn_dabits, lemma_seeded_dabit_relation, DaBitProvider,
};
use crate::rng::Draw;
use crate::simd_array::bit_array::bits_fit;
use crate::simd_array::bit_spec::{ceil8, lemma_ceil8};
use crate::prc::mpc::{lemma_ohe_bytes_bound, ohe_bytes};

verus! {

/// Whether `n` is a power of two below 2^64.
pub open spec fn is_power_of_two(n: nat) -> bool {
    exists|k: nat| k < 64 && #[trigger] pow2(k) == n
}

/// Dimensions that a database accepts: powers of two with `l1_dim >= l2_dim` and
/// `l1_dim >= 8`, records of at most 32 bits, and sizes that fit the machine.
pub open spec fn valid_db_dims(record_size: nat, l2_dim: nat, l1_dim: nat) -> bool {
    &&& is_power_of_two(l1_dim)
    &&& is_power_of_two(l2_dim)
    &&& l1_dim >= l2_dim
    &&& l1_dim >= 8
    &&& record_size <= 32
    &&& l1_dim * l2_dim <= usize::MAX
    &&& bits_fit(l1_dim)
    &&& bits_fit(l2_dim)
}

/// A peer of the multiparty computation: its id, address and the seed of its correlated
/// randomness.
#[derive(Debug, Clone)]
pub struct PeerInfo {
    pub id: usize,
    pub ip_addr: String,
    pub port: u16,
    pub seed: [u8; 32],
}

/// Database configuration.
#[derive(Debug, Clone)]
pub struct DBConfig {
    db_record_size: usize,
    l1_dim: usize,
    l2_dim: usize,
    db_seed: Option<[u8; 32]>,
}

impl DBConfig {
    /// Bits per record.
    pub closed spec fn record_size_spec(&self) -> nat {
        self.db_record_size as nat
    }

    /// First dimension: bits per row.
    pub closed spec fn l1(&self) -> nat {
        self.l1_dim as nat
    }

    /// Second dimension: rows per bit of a record.
    pub closed spec fn l2(&self) -> nat {
        self.l2_dim as nat
    }

    /// The seed of the database.
    pub closed spec fn seed(&self) -> Option<[u8; 32]> {
        self.db_seed
    }

    /// A configuration with the given parameters; they are checked when a database is
    /// created from it.
    pub fn new(db_record_size: usize, l1_dim: usize, l2_dim: usize, db_seed: Option<[u8; 32]>) -> (r: Self)
        ensures
            r.record_size_spec() == db_record_size,
            r.l1() == l1_dim,
            r.l2() == l2_dim,
            r.seed() == db_seed,
    {
        DBConfig { db_record_size, l1_dim, l2_dim, db_seed }
    }

    /// Bits per record.
    pub fn db_record_size(&self) -> (r: usize)
        ensures
            r == self.record_size_spec(),
    {
        self.db_record_size
    }

    /// First dimension.
    pub fn l1_dim(&self) -> (r: usize)
        ensures
            r == self.l1(),
    {
        self.l1_dim
    }

    /// Second dimension.
    pub fn l2_dim(&self) -> (r: usize)
        ensures
            r == self.l2(),
    {
        self.l2_dim
    }

    /// Number of records: the product of the dimensions.
    pub fn get_max_size(&self) -> (r: usize)
        requires
            self.l1() * self.l2() <= usize::MAX,
        ensures
            r == self.l1() * self.l2(),
    {
        self.l1_dim * self.l2_dim
    }

    /// Whether the seed of the database is set.
    pub fn has_seed(&self) -> (r: bool)
        ensures
            r == self.seed() is Some,
    {
        self.db_seed.is_some()
    }

    /// The seed of the database; it must be set.
    pub fn db_seed(&self) -> (r: &[u8; 32])
        requires
            self.seed() is Some,
        ensures
            Some(*r) == self.seed(),
    {
        self.db_seed.as_ref().unwrap()
    }
}

/// The peers and the database configuration.
#[derive(Debug, Clone)]
pub struct SystemConfig {
    pub peers: Vec<PeerInfo>,
    pub db_config: DBConfig,
}

/// The bytes of AND gates that one record retrieval on a database of `2^b1` columns and
/// `2^b2` rows runs: the one-hot encodings of the two coordinates, then the AND of the
/// second encoding with the first-level PIR answer, one gate per row.
pub open spec fn retrieval_bytes(b1: nat, b2: nat) -> nat {
    ohe_bytes(b1) + ohe_bytes(b2) + ceil8(pow2(b2))
}

/// Number of Beaver triplet bits reserved per query for databases of the given
/// dimensions: ceil(2.5 l2) + ceil(1.5 l1) + 96.
pub open spec fn beaver_bits_per_query(l1: nat, l2: nat) -> nat {
    ((5 * l2 + 1) / 2 + (3 * l1 + 1) / 2 + 96) as nat
}

/// The Beaver triplets set aside for one query cover the AND gates of one record retrieval.
pub proof fn lemma_retrieval_budget(b1: nat, b2: nat)
    ensures
        8 * retrieval_bytes(b1, b2) <= beaver_bits_per_query(pow2(b1), pow2(b2)),
{
    lemma_ohe_bytes_bound(b1);
    lemma_ohe_bytes_bound(b2);
    lemma_ceil8(pow2(b2));
}

impl SystemConfig {
    /// The seeds of every peer but the first, in order.
    pub open spec fn later_seeds(&self) -> Seq<Seq<u8>> {
        Seq::new((self.peers@.len() - 1) as nat, |k: int| self.peers@[k + 1].seed@)
    }

    /// `r` is the correlated randomness of party `id` for `q` queries: Beaver triplets of
    /// `q * beaver_bits_per_query` bits and `36 q` daBits, drawn from the party's seed, or,
    /// for the dealer (party 0), completed against what the other parties draw from theirs.
    pub open spec fn setup_of(&self, id: nat, q: nat, r: (BeaverProvider, DaBitProvider)) -> bool {
        let n = q * beaver_bits_per_query(self.db_config.l1(), self.db_config.l2());
        let m = q * 36;
        &&& r.0.wf()
        &&& r.1.wf()
        &&& r.0.used_bytes() == 0 && r.0.reported_bytes() == 0
        &&& r.1.used_count() == 0 && r.1.reported_count() == 0
        &&& if id == 0 {
            &&& r.0.storage() matches Some(d) && dealer_triplets(d, self.peers@[0].seed@, self.later_seeds(), n)
            &&& r.1.storage() matches Some(v) && dealer_dabits(v, self.later_seeds(), m)
        } else {
            &&& r.0.storage() matches Some(d) && seeded_triplets(d, self.peers@[id as int].seed@, n)
            &&& r.1.storage() matches Some(v) && v.len() == m && drawn_dabits(v, self.peers@[id as int].seed@, Seq::<Draw>::empty())
        }
    }

    /// A configuration with the given peers and database configuration.
    pub fn new(peers: Vec<PeerInfo>, db_config: DBConfig) -> (r: Self)
        ensures
            r.peers@ == peers@,
            r.db_config == db_config,
    {
        SystemConfig { peers, db_config }
    }

    /// The first peer with id `id`, if any.
    pub fn get_peer_info(&self, id: usize) -> (r: Option<&PeerInfo>)
        ensures
            r is None <==> forall|j: int| 0 <= j < self.peers@.len() ==> (#[trigger] self.peers@[j]).id != id,
            r matches Some(p) ==> exists|i: int|
                0 <= i < self.peers@.len() && *p == self.peers@[i] && p.id == id && forall|j: int|
                    0 <= j < i ==> (#[trigger] self.peers@[j]).id != id,
    {
        match self.get_peer_idx(id) {
            Some(i) => Some(&self.peers[i]),
            None => None,
        }
    }

    /// The position of the first peer with id `id`, if any.
    pub fn get_peer_idx(&self, id: usize) -> (r: Option<usize>)
        ensures
            match r {
                Some(i) => i < self.peers@.len() && self.peers@[i as int].id == id && forall|j: int|
                    0 <= j < i ==> (#[trigger] self.peers@[j]).id != id,
                None => forall|j: int| 0 <= j < self.peers@.len() ==> (#[trigger] self.peers@[j]).id != id,
            },
    {
        let mut i: usize = 0;
        while i < self.peers.len()
            invariant
                i <= self.peers@.len(),
                forall|j: int| 0 <= j < i ==> (#[trigger] self.peers@[j]).id != id,
            decreases self.peers@.len() - i,
        {
            if self.peers[i].id == id {
                return Some(i);
            }
            i += 1;
        }
        None
    }

    /// Number of peers.
    pub fn get_party_num(&self) -> (r: usize)
        ensures
            r == self.peers@.len(),
    {
        self.peers.len()
    }

    /// Correlated randomness for party `id` (the position of its peer): Beaver triplets
    /// and daBits for `expected_query_num` queries. Party 0 is the dealer.
    pub fn init_seeded_correlated_randomness(&self, id: usize, expected_query_num: usize) -> (r: (BeaverProvider, DaBitProvider))
        requires
            id < self.peers@.len(),
            id == 0 ==> self.peers@.len() >= 2,
            expected_query_num > 0,
            5 * self.db_config.l2() + 3 * self.db_config.l1() + 200 <= usize::MAX,
            expected_query_num * beaver_bits_per_query(self.db_config.l1(), self.db_config.l2())
                <= usize::MAX,
            bits_fit((expected_query_num * beaver_bits_per_query(self.db_config.l1(), self.db_config.l2())) as nat),
            expected_query_num * 36 <= usize::MAX,
        ensures
            r.0.wf(),
            r.1.wf(),
            r.0.storage() matches Some(d) && d@[0].nbits() == expected_query_num
                * beaver_bits_per_query(self.db_config.l1(), self.db_config.l2()),
            forall|b1: nat, b2: nat|
                pow2(b1) == self.db_config.l1() && pow2(b2) == self.db_config.l2() ==> (r.0.storage() matches Some(d)
                    && expected_query_num * (8 * #[trigger] retrieval_bytes(b1, b2)) <= d@[0].nbits()),
            r.1.storage() matches Some(v) && v.len() == expected_query_num * 36,
            self.setup_of(id as nat, expected_query_num as nat, r),
    {
        let l2 = self.db_config.l2_dim;
        let l1 = self.db_config.l1_dim;
        let beaver_per_q = (5 * l2 + 1) / 2 + (3 * l1 + 1) / 2 + 3 * 32;
        let beaver_max_bitsize = expected_query_num * beaver_per_q;
        assert(beaver_max_bitsize > 0) by (nonlinear_arith)
            requires
                expected_query_num > 0,
                beaver_per_q >= 96,
                beaver_max_bitsize == expected_query_num * beaver_per_q,
        ;
        let dabit_max_size = expected_query_num * 36;
        let beaver_provider = self.gen_beaver_provider(id, beaver_max_bitsize);
        let dabit_provider = self.gen_dabit_provider(id, dabit_max_size);
        proof {
            let q = expected_query_num as int;
            let per = beaver_bits_per_query(self.db_config.l1(), self.db_config.l2()) as int;
            assert forall|b1: nat, b2: nat|
                pow2(b1) == self.db_config.l1() && pow2(b2) == self.db_config.l2() implies expected_query_num * (8
                    * #[trigger] retrieval_bytes(b1, b2)) <= expected_query_num * beaver_bits_per_query(
                    self.db_config.l1(),
                    self.db_config.l2(),
                ) by {
                lemma_retrieval_budget(b1, b2);
                let need = (8 * retrieval_bytes(b1, b2)) as int;
                assert(q * need <= q * per) by (nonlinear_arith)
                    requires
                        need <= per,
                        q >= 0,
                ;
            }
        }
        (beaver_provider, dabit_provider)
    }

    /// The seeds of every peer but the first, in order.
    fn other_seeds(&self) -> (r: Vec<&[u8; 32]>)
        requires
            self.peers@.len() > 0,
        ensures
            r@.len() == self.peers@.len() - 1,
            r@.map_values(|s: &[u8; 32]| s@) == self.later_seeds(),
    {
        let mut out: Vec<&[u8; 32]> = Vec::new();
        let mut i: usize = 1;
        while i < self.peers.len()
            invariant
                1 <= i <= self.peers@.len(),
                out@.len() == i - 1,
                forall|k: int| 0 <= k < i - 1 ==> (#[trigger] out@[k])@ == self.peers@[k + 1].seed@,
            decreases self.peers@.len() - i,
        {
            out.push(&self.peers[i].seed);
            i += 1;
        }
        assert(out@.map_values(|s: &[u8; 32]| s@) =~= self.later_seeds());
        out
    }

    fn gen_beaver_provider(&self, id: usize, bit_num: usize) -> (r: BeaverProvider)
        requires
            id < self.peers@.len(),
            id == 0 ==> self.peers@.len() >= 2,
            bit_num > 0,
            bits_fit(bit_num as nat),
        ensures
            r.wf(),
            r.storage() matches Some(d) && d@[0].nbits() == bit_num,
            r.used_bytes() == 0 && r.reported_bytes() == 0,
            id == 0 ==> (r.storage() matches Some(d) && dealer_triplets(d, self.peers@[0].seed@, self.later_seeds(), bit_num as nat)),
            id != 0 ==> (r.storage() matches Some(d) && seeded_triplets(d, self.peers@[id as int].seed@, bit_num as nat)),
    {
        let mut beaver_provider = BeaverProvider::new();
        if id == 0 {
            let others_seed = self.other_seeds();
            beaver_provider.generate_as_dealer(bit_num, &self.peers[0].seed, others_seed);
        } else {
            beaver_provider.generate_with_seed(bit_num, &self.peers[id].seed);
        }
        beaver_provider
    }

    fn gen_dabit_provider(&self, id: usize, bit_num: usize) -> (r: DaBitProvider)
        requires
            id < self.peers@.len(),
        ensures
            r.wf(),
            r.storage() matches Some(v) && v.len() == bit_num,
            r.used_count() == 0 && r.reported_count() == 0,
            id == 0 ==> (r.storage() matches Some(v) && dealer_dabits(v, self.later_seeds(), bit_num as nat)),
            id != 0 ==> (r.storage() matches Some(v) && drawn_dabits(v, self.peers@[id as int].seed@, Seq::<Draw>::empty())),
    {
        let mut dabit_provider = DaBitProvider::new();
        if id == 0 {
            let others_seed = self.other_seeds();
            dabit_provider.generate_as_dealer(bit_num, &self.peers[0].seed, others_seed);
        } else {
            dabit_provider.generate_with_seed(bit_num, &self.peers[id].seed);
        }
        dabit_provider
    }
}

/// The correlated randomness that `init_seeded_correlated_randomness` gives all parties of a
/// configuration is correct over the parties: the Beaver triplets of the dealer (party 0)
/// and of the others satisfy the Beaver relation, and at every position their daBits xor
/// to the bit that their arithmetic parts sum to.
pub proof fn lemma_setup_correlated(config: SystemConfig, q: nat, setups: Seq<(BeaverProvider, DaBitProvider)>)
    requires
        setups.len() == config.peers@.len(),
        setups.len() >= 2,
        forall|p: int| 0 <= p < setups.len() ==> config.setup_of(p as nat, q, #[trigger] setups[p]),
    ensures
        ({
            let others = Seq::new((setups.len() - 1) as nat, |k: int| setups[k + 1].0.storage()->0);
            setups[0].0.storage() matches Some(d) && beaver_relation(d, others)
        }),
        ({
            let others = Seq::new((setups.len() - 1) as nat, |k: int| setups[k + 1].1.storage()->0);
            setups[0].1.storage() matches Some(v) && forall|i: int|
                0 <= i < q * 36 ==> dabit_relation(#[trigger] v[i], dabit_column(others, i))
        }),
{
    let n = q * beaver_bits_per_query(config.db_config.l1(), config.db_config.l2());
    let m = q * 36;
    let seeds = config.later_seeds();
    assert(config.setup_of(0, q, setups[0]));
    let triplets = Seq::new((setups.len() - 1) as nat, |k: int| setups[k + 1].0.storage()->0);
    assert forall|k: int| 0 <= k < triplets.len() implies seeded_triplets(#[trigger] triplets[k], seeds[k], n) by {
        assert(config.setup_of((k + 1) as nat, q, setups[k + 1]));
    }
    lemma_seeded_beaver_relation(setups[0].0.storage()->0, config.peers@[0].seed@, seeds, n, triplets);
    let dabits = Seq::new((setups.len() - 1) as nat, |k: int| setups[k + 1].1.storage()->0);
    assert forall|k: int| 0 <= k < dabits.len() implies (#[trigger] dabits[k]).len() == m && drawn_dabits(
        dabits[k],
        seeds[k],
        Seq::<Draw>::empty(),
    ) by {
        assert(config.setup_of((k + 1) as nat, q, setups[k + 1]));
    }
    lemma_seeded_dabit_relation(setups[0].1.storage()->0, seeds, m, dabits);
}

/// `p` is the `i`-th peer on localhost from `base_port`: id `i`, address 127.0.0.1, port
/// `base_port + i` and the seed of 32 bytes `(100 + i) mod 256`.
pub open spec fn is_localhost_peer(p: PeerInfo, i: int, base_port: u16) -> bool {
    &&& p.id == i
    &&& p.port == base_port + i
    &&& p.seed@ == Seq::new(32, |k: int| ((100 + i) % 256) as u8)
    &&& p.ip_addr@ == "127.0.0.1"@
}

/// `party_num` peers on localhost with consecutive ports from `base_port`; peer `i` has
/// id `i` and the seed of 32 bytes `(100 + i) mod 256`.
pub fn localhost_peer_config(party_num: usize, base_port: u16) -> (r: Vec<PeerInfo>)
    requires
        base_port + party_num <= 0x1_0000,
    ensures
        r@.len() == party_num,
        forall|i: int| 0 <= i < party_num ==> is_localhost_peer(#[trigger] r@[i], i, base_port),
{
    let mut peers: Vec<PeerInfo> = Vec::new();
    let mut i: usize = 0;
    while i < party_num
        invariant
            base_port + party_num <= 0x1_0000,
            i <= party_num,
            peers@.len() == i,
            forall|j: int|
                0 <= j < i ==> (#[trigger] peers@[j]).id == j && peers@[j].port == base_port + j
                    && peers@[j].seed@ == Seq::new(32, |k: int| ((100 + j) % 256) as u8) && peers@[j].ip_addr@ == "127.0.0.1"@,
        decreases party_num - i,
    {
        let b: u8 = ((100 + i) % 256) as u8;
        let seed: [u8; 32] = [b; 32];
        assert(seed@ =~= Seq::new(32, |k: int| ((100 + i) % 256) as u8));
        let peer = PeerInfo {
            id: i,
            ip_addr: String::from_str("127.0.0.1"),
            port: base_port + (i as u16),
            seed,
        };
        peers.push(peer);
        i += 1;
    }
    peers
}

/// A configuration of `party_num` peers on localhost and a database of one-bit records with
/// `l1_dim = db_dims.1`, `l2_dim = db_dims.0` and seed 42.
pub fn basic_system_config(party_num: usize, base_port: u16, db_dims: (usize, usize)) -> (r: SystemConfig)
    requires
        base_port + party_num <= 0x1_0000,
    ensures
        r.peers@.len() == party_num,
        forall|i: int| 0 <= i < party_num ==> is_localhost_peer(#[trigger] r.peers@[i], i, base_port),
        r.db_config.record_size_spec() == 1,
        r.db_config.l1() == db_dims.1,
        r.db_config.l2() == db_dims.0,
        r.db_config.seed() matches Some(s) && s@ == Seq::new(32, |k: int| 42u8),
{
    let seed: [u8; 32] = [42u8; 32];
    assert(seed@ =~= Seq::new(32, |k: int| 42u8));
    SystemConfig {
        peers: localhost_peer_config(party_num, base_port),
        db_config: DBConfig { db_record_size: 1, l1_dim: db_dims.1, l2_dim: db_dims.0, db_seed: Some(seed) },
    }
}

} // verus!
