use ed25519_dalek::{Signer, SigningKey};
use priv_rec_cert::cor_rnd::{ArithValueT, BeaverProvider, BooleanValue, ModScalar};
use priv_rec_cert::prc::b2a_conv::ConvLayer;
use priv_rec_cert::prc::client::{PRCClient, PRCToken, TokenError};
use priv_rec_cert::prc::commitment::{generator, Commitment, Opening};
use priv_rec_cert::prc::config::{basic_system_config, localhost_peer_config, DBConfig, SystemConfig};
use priv_rec_cert::prc::connection::{decode_cmd, Cmd, NetStat, Received};
use priv_rec_cert::prc::layer::{Layer, LayerDest, LayerSource, MpcOperation};
use priv_rec_cert::prc::mpc::MpcProvider;
use priv_rec_cert::prc::util::{reconstruct_arith, reconstruct_boolean, secret_share_arith, secret_share_boolean};
use priv_rec_cert::prc::PRCDatabase;
use priv_rec_cert::simd_array::{BitArray, D2BitArray};
use priv_rec_cert::rng::SeededRng;


#[test]
fn test_commitment_and_opening() {
    let mut rng = SeededRng::from_seed([42u8; 32]);
    for _ in 0..10 {
        let rnd = ModScalar::random(&mut rng);
        let idx = ModScalar::random(&mut rng);
        let resp = ModScalar::random(&mut rng);
        let opening = Opening::new(rnd, idx, resp);
        let commitment = Commitment::commit(&opening);

        assert!(commitment.verify(&opening));
    }
}

#[test]
fn test_commitment_verify_fails_with_wrong_opening() {
    let mut rng = SeededRng::from_seed([12u8; 32]);
    let one = ModScalar::from_u32(1);
    for _ in 0..10 {
        let rnd = ModScalar::random(&mut rng);
        let idx = ModScalar::random(&mut rng);
        let resp = ModScalar::random(&mut rng);
        let opening = Opening::new(rnd, idx, resp);
        let commitment = Commitment::commit(&opening);

        assert!(!commitment.verify(&Opening::new(rnd, idx, resp.add(&one))));
        assert!(!commitment.verify(&Opening::new(rnd, idx.add(&one), resp)));
        assert!(!commitment.verify(&Opening::new(rnd.sub(&one), idx, resp)));
    }
}

#[test]
fn test_aggregate_commitments() {
    let mut rng = SeededRng::from_seed([4u8; 32]);
    for _ in 0..10 {
        let mut openings = Vec::new();
        let mut commitments = Vec::new();

        for _ in 0..5 {
            let opening = Opening::new(
                ModScalar::random(&mut rng),
                ModScalar::random(&mut rng),
                ModScalar::random(&mut rng),
            );
            let commitment = Commitment::commit(&opening);
            openings.push(opening);
            commitments.push(commitment);
        }

        let agg_commitment = Commitment::aggregate(&commitments);
        let agg_opening = Opening::aggregate(&openings);

        assert!(agg_commitment.verify(&agg_opening));
    }
}

#[test]
fn aggregate_is_the_commitment_to_summed_openings() {
    let o1 = Opening::new(ModScalar::from_u32(1), ModScalar::from_u32(2), ModScalar::from_u32(3));
    let o2 = Opening::new(ModScalar::from_u32(4), ModScalar::from_u32(5), ModScalar::from_u32(6));
    let agg = Commitment::aggregate(&[Commitment::commit(&o1), Commitment::commit(&o2)]);
    let whole = Opening::new(ModScalar::from_u32(5), ModScalar::from_u32(7), ModScalar::from_u32(9));
    assert_eq!(agg, Commitment::commit(&whole));
    assert!(agg.verify(&whole));
    assert!(!agg.verify(&o1));
}

#[test]
fn commitment_serialization_round_trip() {
    let op = Opening::new(ModScalar::from_u32(7), ModScalar::from_u32(11), ModScalar::from_u32(1));
    let c = Commitment::commit(&op);
    let bytes = c.serialize();
    let back = Commitment::deserialize(&bytes);
    assert_eq!(back, c);
    assert!(back.verify(&op));
    assert!(Commitment::try_deserialize(&bytes[..31]).is_none());
    let mut bad = bytes;
    bad[0] ^= 1;
    assert!(Commitment::try_deserialize(&bad).is_none());
    assert!(Commitment::new([0u8; 32]).is_some());
    assert_eq!(Commitment::aggregate(&[]).serialize(), [0u8; 32]);
}

#[test]
fn test_lvl1_pir_retrieve() {
    let record_size = 1;
    let column_num = 64;
    let row_num = 8192;
    let base_seed = [42u8; 32];

    let db1 = PRCDatabase::from_seed(record_size, column_num, row_num, &base_seed);
    let db2 = PRCDatabase::from_seed(record_size, column_num, row_num, &base_seed);

    for idx in 0..db1.total_size() {
        assert_eq!(
            db1.get_record_bit(idx, 0),
            db2.get_record_bit(idx, 0),
            "Databases should be identical when initialized with the same seed"
        );
    }

    let mut rng = SeededRng::from_seed([0u8; 32]);
    let mut random_indexes = Vec::new();
    for _ in 0..100 {
        random_indexes.push((rng.next_u32() as usize) % row_num);
    }

    for idx in random_indexes {
        let mut ohe = BitArray::new(row_num);
        ohe.set_bit(idx % row_num, true);

        let q1 = BitArray::from_seed(row_num, [13u8; 32]);
        let mut q2 = q1.clone();
        q2.inplace_xor(&ohe);

        let result_ss1 = db1.lvl1_pir_retrieve(&q1);
        let result_ss2 = db2.lvl1_pir_retrieve(&q2);
        let result = BitArray::xor(&result_ss1, &result_ss2);

        for i in 0..column_num {
            let expected = db1.get_record_bit(i * row_num + idx, 0);
            assert_eq!(result.get(i), expected, "Mismatch at index {}", i);
        }
    }
}

#[test]
fn test_mock_gmw_and() {
    let max_byte_size = 1024;
    let mut beaver_provider1 = BeaverProvider::new();
    let mut beaver_provider2 = BeaverProvider::new();
    beaver_provider1.generate_as_dealer(max_byte_size * 8, &[1; 32], vec![&[2; 32]]);
    beaver_provider2.generate_with_seed(max_byte_size * 8, &[2; 32]);

    let mut rng = SeededRng::from_seed([42; 32]);
    let bit_size = 256 + 32;

    let x = BitArray::random(bit_size, &mut rng);
    let y = BitArray::random(bit_size, &mut rng);
    let expected = BitArray::and(&x, &y);

    let mut x1 = x.clone();
    let mut y1 = y.clone();
    let x2 = x1.inplace_secret_share(2, &mut rng).pop().unwrap();
    let y2 = y1.inplace_secret_share(2, &mut rng).pop().unwrap();

    {
        let mut x_rec = x1.clone();
        let mut y_rec = y1.clone();
        x_rec.inplace_reconstruct(&[x2.clone()]);
        y_rec.inplace_reconstruct(&[y2.clone()]);
        assert_eq!(x, x_rec, "Reconstructed x does not match original");
        assert_eq!(y, y_rec, "Reconstructed y does not match original");
    }

    let mut layer1 = Layer::new(true, 1);
    let mut layer2 = Layer::new(false, 1);

    let ticket1 = layer1.request_ticket(x1.bit_size());
    let ticket2 = layer2.request_ticket(x2.bit_size());
    layer1.add_operation(MpcOperation::Copy {
        inp: LayerSource::Input(x1),
        out: LayerDest::Relay { ticket: ticket1, stream: 0 },
    });
    layer1.add_operation(MpcOperation::Copy {
        inp: LayerSource::Input(y1),
        out: LayerDest::Relay { ticket: ticket1, stream: 1 },
    });
    layer2.add_operation(MpcOperation::Copy {
        inp: LayerSource::Input(x2),
        out: LayerDest::Relay { ticket: ticket2, stream: 0 },
    });
    layer2.add_operation(MpcOperation::Copy {
        inp: LayerSource::Input(y2),
        out: LayerDest::Relay { ticket: ticket2, stream: 1 },
    });

    layer1.end_ticketing_phase(&mut beaver_provider1);
    layer2.end_ticketing_phase(&mut beaver_provider2);

    layer1.execute_operations(None);
    layer2.execute_operations(None);

    layer1.blind_and_with_beaver();
    layer2.blind_and_with_beaver();

    let l1_out = layer1.get_beaver_out_shares();
    let l2_out = layer2.get_beaver_out_shares();

    layer1.recons_beaver_uv(vec![l2_out]);
    layer2.recons_beaver_uv(vec![l1_out]);

    layer1.finish_and_exchange();
    layer2.finish_and_exchange();

    let output1 = layer1.read_output(&ticket1);
    let output2 = layer2.read_output(&ticket2);

    let mut result = output1.clone();
    result.inplace_reconstruct(&[output2]);

    assert_eq!(expected, result, "GMW AND operation failed");
}

/// MPC engines of `n` parties with the correlated randomness of a basic configuration.
fn engines(n: usize) -> Vec<MpcProvider> {
    let config = basic_system_config(n, 9000, (64, 64));
    let mut out = Vec::new();
    for id in 0..n {
        let (beaver, dabit) = config.init_seeded_correlated_randomness(id, 4);
        out.push(MpcProvider::new(id == 0, beaver, dabit));
    }
    out
}

/// Runs the layers of all parties, exchanging the blinded shares in memory.
fn run_all(mpcs: &mut [MpcProvider]) {
    let n = mpcs.len();
    let mut prevs: Vec<Option<Layer>> = (0..n).map(|_| None).collect();
    loop {
        let mut layers: Vec<Layer> = Vec::new();
        for m in mpcs.iter_mut() {
            match m.pop_layer() {
                Some(l) => layers.push(l),
                None => break,
            }
        }
        if layers.len() < n {
            assert!(layers.is_empty(), "parties disagree on the number of layers");
            break;
        }
        let mut outs: Vec<D2BitArray> = Vec::new();
        for p in 0..n {
            let out = layers[p]
                .prepare_exchange(prevs[p].as_ref(), mpcs[p].beaver_provider_mut())
                .expect("layer cannot run");
            outs.push(out);
        }
        for p in 0..n {
            let others: Vec<D2BitArray> = (0..n).filter(|q| *q != p).map(|q| outs[q].clone()).collect();
            assert!(layers[p].complete_exchange(others));
        }
        prevs = layers.into_iter().map(Some).collect();
    }
    for (p, m) in mpcs.iter_mut().enumerate() {
        m.set_output_layer(prevs[p].take());
    }
}

#[test]
fn mpc_and_of_shared_inputs() {
    for n in [2usize, 3] {
        let mut mpcs = engines(n);
        let mut rng = SeededRng::from_seed([8u8; 32]);
        let bits = 100;
        let x = BitArray::random(bits, &mut rng);
        let y = BitArray::random(bits, &mut rng);
        let xs = x.secret_share(n, &mut rng);
        let ys = y.secret_share(n, &mut rng);
        let mut srcs = Vec::new();
        for p in 0..n {
            srcs.push(mpcs[p].and(bits, LayerSource::Input(xs[p].clone()), LayerSource::Input(ys[p].clone())));
        }
        run_all(&mut mpcs);
        let mut outs = Vec::new();
        for (p, src) in srcs.into_iter().enumerate() {
            outs.push(mpcs[p].get_output(src));
        }
        let z = BitArray::reconstruct(outs);
        assert_eq!(z.bit_size(), bits);
        for i in 0..bits {
            assert_eq!(z.get(i), x.get(i) && y.get(i), "AND of {} parties wrong at {}", n, i);
        }
    }
}

#[test]
fn mpc_one_hot_encoding() {
    for (n, bits, idx) in [(2usize, 1u8, 1u32), (2, 1, 0), (2, 3, 5), (3, 4, 11), (2, 6, 42), (3, 7, 100)] {
        let mut mpcs = engines(n);
        let mut rng = SeededRng::from_seed([idx as u8; 32]);
        let shares = secret_share_boolean(BooleanValue::new(bits, idx), n, &mut rng);
        let mut srcs = Vec::new();
        for p in 0..n {
            srcs.push(mpcs[p].ohe_vec(shares[p]));
        }
        run_all(&mut mpcs);
        let mut outs = Vec::new();
        for (p, src) in srcs.into_iter().enumerate() {
            outs.push(mpcs[p].get_output(src));
        }
        let ohe = BitArray::reconstruct(outs);
        assert_eq!(ohe.bit_size(), 1usize << bits);
        for i in 0..(1usize << bits) {
            assert_eq!(ohe.get(i), i == idx as usize, "OHE({}) over {} bits wrong at {}", idx, bits, i);
        }
        let (bt, _) = mpcs[0].get_preproc_stat();
        assert_eq!(bt > 0, bits > 1);
        mpcs[0].clear();
    }
}

#[test]
fn b2a_conversion_of_shared_values() {
    let n = 3;
    let mut mpcs = engines(n);
    let mut rng = SeededRng::from_seed([21u8; 32]);
    let values = [(8u8, 200u32), (1, 1), (13, 4321)];
    let mut per_party: Vec<Vec<BooleanValue>> = (0..n).map(|_| Vec::new()).collect();
    for &(len, v) in values.iter() {
        let s = secret_share_boolean(BooleanValue::new(len, v), n, &mut rng);
        for p in 0..n {
            per_party[p].push(s[p]);
        }
    }
    let mut blinded = Vec::new();
    for p in 0..n {
        let conv = ConvLayer::new(p == 0);
        blinded.push(conv.prepare(&per_party[p], mpcs[p].dabit_provider_mut()).unwrap());
    }
    let opened_parts: Vec<BitArray> = blinded.iter().map(|(e, _)| e.clone()).collect();
    let mut arith: Vec<Vec<ArithValueT>> = Vec::new();
    for p in 0..n {
        let mut e = opened_parts[p].clone();
        let others: Vec<BitArray> = (0..n).filter(|q| *q != p).map(|q| opened_parts[q].clone()).collect();
        e.inplace_reconstruct(&others);
        let conv = ConvLayer::new(p == 0);
        arith.push(conv.finish(per_party[p].clone(), &blinded[p].1, &e));
    }
    for (k, &(_, v)) in values.iter().enumerate() {
        let shares: Vec<ArithValueT> = (0..n).map(|p| arith[p][k]).collect();
        assert_eq!(reconstruct_arith(&shares).as_u32(), v);
    }
    assert_eq!(mpcs[0].get_preproc_stat().1, 22);
}

#[test]
fn boolean_and_arith_sharing() {
    let mut rng = SeededRng::from_seed([3u8; 32]);
    let s = secret_share_boolean(BooleanValue::new(10, 777), 4, &mut rng);
    assert_eq!(s.len(), 4);
    assert_eq!(reconstruct_boolean(&s), 777);
    let a = secret_share_arith(ArithValueT::from_u32(123456), 3, &mut rng);
    assert_eq!(reconstruct_arith(&a).as_u32(), 123456);
}

#[test]
fn cmd_wire_round_trip() {
    let a = [1u8, 2, 3];
    let b = [4u8, 5, 6];
    let cmd = Cmd::BeaverExchange { sender_id: 2, beaver_bit_size: 20, beaver_data_a: &a, beaver_data_b: &b };
    let wire = cmd.serialize();
    assert_eq!(wire, vec![0, 2, 20, 0, 0, 0, 1, 2, 3, 4, 5, 6]);
    match Cmd::deserialize(&wire) {
        Cmd::BeaverExchange { sender_id, beaver_bit_size, beaver_data_a, beaver_data_b } => {
            assert_eq!((sender_id, beaver_bit_size), (2, 20));
            assert_eq!(beaver_data_a, &a);
            assert_eq!(beaver_data_b, &b);
        }
        _ => panic!("wrong command"),
    }
    let d = [9u8; 2];
    let wire = Cmd::DabitExchange { sender_id: 1, dabit_bit_size: 16, dabit_bool_data: &d }.serialize();
    assert!(matches!(Cmd::try_deserialize(&wire), Some(Cmd::DabitExchange { sender_id: 1, dabit_bit_size: 16, .. })));
    let wire = Cmd::Handshake { peer_id: 7 }.serialize();
    assert_eq!(wire, vec![1, 7]);
    assert!(matches!(Cmd::try_deserialize(&wire), Some(Cmd::Handshake { peer_id: 7 })));
    let c = Commitment::commit(&Opening::new(ModScalar::from_u32(1), ModScalar::from_u32(2), ModScalar::from_u32(3)));
    let wire = Cmd::AggCommit { sender_id: 3, commit: c }.serialize();
    assert_eq!(wire.len(), 34);
    match Cmd::deserialize(&wire) {
        Cmd::AggCommit { sender_id, commit } => {
            assert_eq!(sender_id, 3);
            assert_eq!(commit, c);
        }
        _ => panic!("wrong command"),
    }
    assert!(Cmd::try_deserialize(&[0, 2, 20, 0, 0, 0, 1, 2, 3, 4, 5]).is_none());
    assert!(Cmd::try_deserialize(&[4, 0]).is_none());
    assert!(Cmd::try_deserialize(&[1]).is_none());
}

#[test]
fn decoding_received_commands() {
    let a = [0xFFu8, 0x0F];
    let b = [0x01u8, 0x00];
    let cmd = Cmd::BeaverExchange { sender_id: 1, beaver_bit_size: 12, beaver_data_a: &a, beaver_data_b: &b };
    match decode_cmd(cmd, 0) {
        Some(Received::Beaver(d)) => {
            assert_eq!(d.array_num(), 2);
            assert_eq!(d.get_array(0).bit_size(), 12);
            assert!(d.get_array(0).get(11) && !d.get_array(1).get(11) && d.get_array(1).get(0));
        }
        _ => panic!("expected Beaver shares"),
    }
    let own = Cmd::DabitExchange { sender_id: 0, dabit_bit_size: 8, dabit_bool_data: &a };
    assert!(decode_cmd(own, 0).is_none());
    assert!(decode_cmd(Cmd::Handshake { peer_id: 1 }, 0).is_none());
    let short = Cmd::DabitExchange { sender_id: 1, dabit_bit_size: 24, dabit_bool_data: &a };
    assert!(decode_cmd(short, 0).is_none());
}

#[test]
fn net_stat_sums() {
    let s = NetStat::new(10, 20).add(NetStat::new(1, 2));
    assert_eq!(s.get_sent(), 11);
    assert_eq!(s.get_received(), 22);
}

#[test]
fn layer_tickets_are_byte_aligned() {
    let mut layer = Layer::new(false, 3);
    let t1 = layer.request_ticket(5);
    let t2 = layer.request_ticket(17);
    assert_eq!(t1.st_byte(), 0);
    assert_eq!(t1.end_byte(), 1);
    assert_eq!(t2.st_byte(), 1);
    assert_eq!(t2.end_byte(), 4);
    assert!(!layer.ticket_accepted(&t1));
    let mut bp = BeaverProvider::new();
    bp.generate_with_seed(64, &[1u8; 32]);
    layer.end_ticketing_phase(&mut bp);
    assert!(layer.ticket_accepted(&t2));
    layer.check_ticket(&t2);
    let other = Layer::new(false, 4).request_ticket(5);
    assert!(!layer.ticket_accepted(&other));
}

#[test]
fn client_queries_share_the_index() {
    let config = basic_system_config(3, 9100, (16, 64));
    let client = PRCClient::new(3, config.db_config.clone(), config.clone());
    assert_eq!(client.get_dims(), (64, 16));
    assert_eq!(client.total_db_size(), 1024);
    assert_eq!(client.idx_to_2dim(200), (8, 3));
    let mut rng = SeededRng::from_seed([77u8; 32]);
    let (st, queries) = client.query_all_servers(200, &mut rng);
    assert_eq!(queries.len(), 3);
    let l1: Vec<BooleanValue> = queries.iter().map(|q| q.l1_bss).collect();
    let l2: Vec<BooleanValue> = queries.iter().map(|q| q.l2_bss).collect();
    assert_eq!(reconstruct_boolean(&l2) as usize * 64 + reconstruct_boolean(&l1) as usize, 200);
    assert_eq!(l1[0].bit_len(), 6);
    assert_eq!(l2[0].bit_len(), 4);

    let sk = SigningKey::from_bytes(&[7u8; 32]);
    let pk = sk.verifying_key().to_bytes();
    let rnds: Vec<ArithValueT> = queries.iter().map(|q| q.rnd_ass).collect();
    let rnd = reconstruct_arith(&rnds);
    let commit = Commitment::commit(&Opening::new(rnd.as_scalar(), ModScalar::from_u32(200), ModScalar::from_u32(1)));
    assert_eq!(st.get_commitment(1), commit);
    let sig = sk.sign(&commit.serialize()).to_bytes();

    let mut token = PRCToken { commitment: None, sig };
    assert_eq!(token.verify(&pk), Err(TokenError::MissingValue));
    assert!(!token.check_for_rec_val(&st, 0, &pk));
    assert!(token.commitment.is_none());
    assert!(token.check_for_rec_val(&st, 1, &pk));
    assert_eq!(token.verify(&pk), Ok(()));
    let other_pk = SigningKey::from_bytes(&[8u8; 32]).verifying_key().to_bytes();
    assert_eq!(token.verify(&other_pk), Err(TokenError::BadSignature));

    let (st2, q2) = client.query_single_server(200, 2, &mut rng).unwrap();
    assert_eq!(q2.l1_bss.bit_len(), 6);
    let _ = st2;
    assert!(client.query_single_server(200, 9, &mut rng).is_none());
}

#[test]
fn single_server_query_is_that_servers_share() {
    let config = basic_system_config(3, 9100, (16, 64));
    let client = PRCClient::new(3, config.db_config.clone(), config.clone());
    let (_, queries) = client.query_all_servers(200, &mut SeededRng::from_seed([5u8; 32]));
    for server_id in 0..3 {
        let (_, q) = client.query_single_server(200, server_id, &mut SeededRng::from_seed([5u8; 32])).unwrap();
        let expected = &queries[server_id];
        assert_eq!(q.l1_bss, expected.l1_bss);
        assert_eq!(q.l2_bss, expected.l2_bss);
        assert_eq!(q.rnd_ass.as_scalar(), expected.rnd_ass.as_scalar());
    }
    assert_ne!(queries[0].rnd_ass.as_scalar(), queries[2].rnd_ass.as_scalar());
}

#[test]
fn basic_config_peers_are_localhost() {
    let config = basic_system_config(2, 8000, (4, 8));
    assert_eq!(config.peers.len(), 2);
    assert_eq!(config.peers[1].id, 1);
    assert_eq!(config.peers[1].port, 8001);
    assert_eq!(config.peers[1].ip_addr, "127.0.0.1");
    assert_eq!(config.peers[0].seed, [100u8; 32]);
    assert_eq!(config.db_config.l1_dim(), 8);
    assert_eq!(config.db_config.l2_dim(), 4);
}

/// Runs the pending layers of two engines, deepest first, each completing its AND exchange
/// with the other's blinded Beaver shares.
fn run_two_parties(m0: &mut MpcProvider, m1: &mut MpcProvider) {
    let mut prev0: Option<Layer> = None;
    let mut prev1: Option<Layer> = None;
    while let (Some(mut l0), Some(mut l1)) = (m0.pop_layer(), m1.pop_layer()) {
        let o0 = l0.prepare_exchange(prev0.as_ref(), m0.beaver_provider_mut()).unwrap();
        let o1 = l1.prepare_exchange(prev1.as_ref(), m1.beaver_provider_mut()).unwrap();
        assert!(l0.complete_exchange(vec![o1]));
        assert!(l1.complete_exchange(vec![o0]));
        prev0 = Some(l0);
        prev1 = Some(l1);
    }
    m0.set_output_layer(prev0);
    m1.set_output_layer(prev1);
}

#[test]
fn two_party_one_hot_encoding() {
    let config = basic_system_config(2, 8000, (128, 256));
    let mut engines: Vec<MpcProvider> = (0..2)
        .map(|id| {
            let (bp, dp) = config.init_seeded_correlated_randomness(id, 2);
            MpcProvider::new(id == 0, bp, dp)
        })
        .collect();
    for (bits, shares, expected) in [(5u8, [4u32, 9u32], 13usize), (6u8, [4u32, 8u32], 12usize)] {
        let (first, rest) = engines.split_at_mut(1);
        let (m0, m1) = (&mut first[0], &mut rest[0]);
        let s0 = m0.ohe_vec(BooleanValue::new(bits, shares[0]));
        let s1 = m1.ohe_vec(BooleanValue::new(bits, shares[1]));
        run_two_parties(m0, m1);
        assert!(m0.output_ready(&s0) && m1.output_ready(&s1));
        let a0 = m0.get_output(s0);
        let a1 = m1.get_output(s1);
        m0.clear();
        m1.clear();
        let onehot = BitArray::xor(&a0, &a1);
        assert_eq!(onehot.bit_size(), 1 << bits);
        for j in 0..(1usize << bits) {
            assert_eq!(onehot.get(j), j == expected, "bit {} of the {}-bit encoding", j, bits);
        }
    }
}

#[test]
fn config_lookups() {
    let peers = localhost_peer_config(3, 7000);
    assert_eq!(peers[2].port, 7002);
    assert_eq!(peers[1].seed, [101u8; 32]);
    let config = SystemConfig::new(peers, DBConfig::new(1, 64, 16, Some([1u8; 32])));
    assert_eq!(config.get_party_num(), 3);
    assert_eq!(config.get_peer_idx(1), Some(1));
    assert_eq!(config.get_peer_idx(5), None);
    assert_eq!(config.get_peer_info(2).unwrap().port, 7002);
    assert_eq!(config.db_config.get_max_size(), 1024);
}

#[test]
fn database_records_and_plain_lookup() {
    let config = DBConfig::new(3, 64, 16, Some([5u8; 32]));
    let db = PRCDatabase::from_config(&config);
    assert_eq!(db.get_dims(), (64, 16));
    assert_eq!(db.get_logdim(), (6, 4));
    assert_eq!(db.total_size(), 1024);
    for idx in [0usize, 1, 63, 64, 500, 1023] {
        let r = db.get_record(idx);
        let mut expected = 0u32;
        for b in 0..3 {
            if db.get_record_bit(idx, b) {
                expected |= 1 << b;
            }
        }
        assert_eq!(r, expected);
    }
    let db1 = PRCDatabase::from_seed(1, 16, 64, &[6u8; 32]);
    let plain = db1._lvl1_plain_idx(10);
    for i in 0..16 {
        assert_eq!(plain.get(i), db1.get_record_bit(i * 64 + 10, 0));
    }
}

#[test]
fn lvl1_pir_with_three_parties() {
    let (l2, l1) = (16usize, 128usize);
    let db = PRCDatabase::from_seed(1, l2, l1, &[31u8; 32]);
    let mut rng = SeededRng::from_seed([32u8; 32]);
    for idx in [0usize, 5, 77, 127] {
        let mut ohe = BitArray::new(l1);
        ohe.set_bit(idx, true);
        let shares = ohe.secret_share(3, &mut rng);
        let answers: Vec<BitArray> = shares.iter().map(|q| db.lvl1_pir_retrieve(q)).collect();
        let result = BitArray::reconstruct(answers);
        for i in 0..l2 {
            assert_eq!(result.get(i), db.get_record_bit(i * l1 + idx, 0), "row {} index {}", i, idx);
        }
    }
}

#[test]
fn test_generators() {
    let msg = b"test";
    let g1 = generator(msg);
    let h = generator(b"msg2");
    assert_ne!(g1, h);
    let g1_2 = generator(msg);
    assert_eq!(g1_2, g1);
    assert_ne!(g1_2, h);
}
