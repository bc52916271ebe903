use priv_rec_cert::cor_rnd::{join_boolean, ArithValue, ArithValueT, BeaverProvider, BooleanValue, DaBit, DaBitProvider};
use priv_rec_cert::simd_array::{BitArray, D2BitArray};

#[test]
fn test_beaver_generation_with_2_parties() {
    let bit_num = 1024;
    let seed1 = [0u8; 32];
    let seed2 = [1u8; 32];

    let mut provider1 = BeaverProvider::new();
    let mut provider2 = BeaverProvider::new();

    provider1.generate_as_dealer(bit_num, &seed1, vec![&seed2]);
    provider2.generate_with_seed(bit_num, &seed2);

    let reconstructed = D2BitArray::reconstruct(vec![
        provider1.beaver_storage().clone().unwrap(),
        provider2.beaver_storage().clone().unwrap(),
    ]);

    let expected_c = BitArray::and(reconstructed.get_array(0), reconstructed.get_array(1));

    assert_eq!(
        reconstructed.get_array(2),
        &expected_c,
        "Beaver relation does not hold for 2 parties"
    );
}

#[test]
fn test_beaver_generation_with_3_parties() {
    let bit_num = 1024;
    let seed1 = [0u8; 32];
    let seed2 = [1u8; 32];
    let seed3 = [2u8; 32];

    let mut provider1 = BeaverProvider::new();
    let mut provider2 = BeaverProvider::new();
    let mut provider3 = BeaverProvider::new();

    provider1.generate_as_dealer(bit_num, &seed1, vec![&seed2, &seed3]);
    provider2.generate_with_seed(bit_num, &seed2);
    provider3.generate_with_seed(bit_num, &seed3);

    let reconstructed = D2BitArray::reconstruct(vec![
        provider1.beaver_storage().clone().unwrap(),
        provider2.beaver_storage().clone().unwrap(),
        provider3.beaver_storage().clone().unwrap(),
    ]);

    let expected_c = BitArray::and(reconstructed.get_array(0), reconstructed.get_array(1));

    assert_eq!(
        reconstructed.get_array(2),
        &expected_c,
        "Beaver relation does not hold for 2 parties"
    );
}

#[test]
fn test_dabit_generation_with_2_parties() {
    let bit_num = 1024;
    let seed1 = [0u8; 32];
    let seed2 = [1u8; 32];

    let mut provider1 = DaBitProvider::new();
    let mut provider2 = DaBitProvider::new();

    provider1.generate_as_dealer(bit_num, &seed1, vec![&seed2]);
    provider2.generate_with_seed(bit_num, &seed2);

    let dabits1 = provider1.take(bit_num);
    let dabits2 = provider2.take(bit_num);

    let rec: Vec<DaBit> = dabits1
        .iter()
        .zip(dabits2.iter())
        .map(|(d1, d2)| {
            let mut reconstructed = d1.clone();
            reconstructed.add(d2);
            reconstructed
        })
        .collect();

    for (i, r) in rec.iter().enumerate() {
        assert_eq!(
            r.r_z2 as u32,
            r.r_zp.as_u32(),
            "DaBit relation does not hold for 2 parties at index {}",
            i
        );
    }
}

#[test]
fn test_arithvalue_u32_add_sub_mul() {
    let mut a = ArithValue::<u32>::from_u32(10);
    let b = ArithValue::<u32>::from_u32(20);
    a.add(&b);
    assert_eq!(a.as_u32(), 30);

    a.sub(&ArithValue::<u32>::from_u32(5));
    assert_eq!(a.as_u32(), 25);

    a.mul(&ArithValue::<u32>::from_u32(2));
    assert_eq!(a.as_u32(), 50);
}

#[test]
fn test_arithvalue_scalar_add_sub_mul() {
    let mut a = ArithValueT::from_u32(10);
    let b = ArithValueT::from_u32(20);
    a.add(&b);
    assert_eq!(a.as_u32(), 30);

    a.sub(&ArithValueT::from_u32(5));
    assert_eq!(a.as_u32(), 25);

    a.mul(&ArithValueT::from_u32(2));
    assert_eq!(a.as_u32(), 50);
}

#[test]
fn test_append_boolean() {
    let l = BooleanValue::new(4, 0b1010);
    let h = BooleanValue::new(4, 0b1100);
    let appended = join_boolean(l, h);
    assert_eq!(appended.bit_len(), 8);
    assert_eq!(appended.value(), 0b11001010);
}

#[test]
fn arithvalue_u32_wraps_modulo_2_32() {
    let mut a = ArithValue::<u32>::from_u32(u32::MAX);
    a.add(&ArithValue::<u32>::from_u32(2));
    assert_eq!(a.as_u32(), 1);
    a.sub(&ArithValue::<u32>::from_u32(3));
    assert_eq!(a.as_u32(), u32::MAX - 1);
    a.mul(&ArithValue::<u32>::from_u32(2));
    assert_eq!(a.as_u32(), u32::MAX - 3);
}

#[test]
fn arithvalue_scalar_wraps_modulo_group_order() {
    // 0 - 1 is l - 1; adding 1 back gives 0, and (l - 1) * (l - 1) = 1.
    let mut a = ArithValueT::zero();
    a.sub(&ArithValueT::from_u32(1));
    let mut sq = a;
    sq.mul(&a);
    assert_eq!(sq.as_u32(), 1);
    a.add(&ArithValueT::from_u32(1));
    assert_eq!(a.as_u32(), 0);
}

#[test]
fn join_boolean_of_full_width_parts() {
    let l = BooleanValue::new(16, 0xBEEF);
    let h = BooleanValue::new(16, 0xDEAD);
    let j = join_boolean(l, h);
    assert_eq!(j.bit_len(), 32);
    assert_eq!(j.value(), 0xDEADBEEF);
    let z = join_boolean(BooleanValue::new(0, 0), BooleanValue::new(3, 5));
    assert_eq!(z.bit_len(), 3);
    assert_eq!(z.value(), 5);
    let w = join_boolean(BooleanValue::new(32, 5), BooleanValue::new(0, 0));
    assert_eq!(w.bit_len(), 32);
    assert_eq!(w.value(), 5);
}

#[test]
fn dabit_dealer_relation_with_3_parties() {
    let bit_num = 200;
    let mut p1 = DaBitProvider::new();
    let mut p2 = DaBitProvider::new();
    let mut p3 = DaBitProvider::new();
    p1.generate_as_dealer(bit_num, &[5u8; 32], vec![&[6u8; 32], &[7u8; 32]]);
    p2.generate_with_seed(bit_num, &[6u8; 32]);
    p3.generate_with_seed(bit_num, &[7u8; 32]);
    let d1 = p1.take(bit_num);
    let d2 = p2.take(bit_num);
    let d3 = p3.take(bit_num);
    for i in 0..bit_num {
        let r = DaBit::reconstruct(vec![d1[i].clone(), d2[i].clone(), d3[i].clone()]);
        assert_eq!(r.r_z2 as u32, r.r_zp.as_u32(), "daBit {} does not reconstruct", i);
    }
    assert_eq!(p1.report_dabit_usage_then_reset(), bit_num);
    assert_eq!(p1.report_dabit_usage_then_reset(), 0);
}

#[test]
fn beaver_take_advances_and_reports_usage() {
    let mut p = BeaverProvider::new();
    p.generate_with_seed(1024, &[3u8; 32]);
    let all = p.beaver_storage().clone().unwrap();
    let first = p.take(16);
    let second = p.take(8);
    assert_eq!(first.get_array(0).bit_size(), 128);
    assert_eq!(second, all.to_slice(16, 24));
    assert_eq!(p.report_beaver_usage_then_reset(), 24 * 8);
    assert_eq!(p.report_beaver_usage_then_reset(), 0);
    assert!(p.can_take(128 - 24));
    assert!(!p.can_take(128 - 23));
}

#[test]
fn same_seed_providers_take_the_same_triplets() {
    let mut p = BeaverProvider::new();
    let mut q = BeaverProvider::new();
    p.generate_with_seed(512, &[6u8; 32]);
    q.generate_with_seed(512, &[6u8; 32]);
    assert_eq!(p.take(16), q.take(16));
    assert_eq!(p.take(48), q.take(48));
    let mut other = BeaverProvider::new();
    other.generate_with_seed(512, &[7u8; 32]);
    assert_ne!(p.beaver_storage(), other.beaver_storage());
}

#[test]
fn setup_correlated_randomness_holds_over_parties() {
    let config = priv_rec_cert::prc::config::basic_system_config(3, 9100, (64, 64));
    let mut setups: Vec<(BeaverProvider, DaBitProvider)> =
        (0..3).map(|id| config.init_seeded_correlated_randomness(id, 1)).collect();
    let triplets: Vec<D2BitArray> = setups.iter().map(|s| s.0.beaver_storage().clone().unwrap()).collect();
    let rec = D2BitArray::reconstruct(triplets);
    assert_eq!(rec.get_array(2), &BitArray::and(rec.get_array(0), rec.get_array(1)));
    let dabits: Vec<Vec<DaBit>> = setups.iter_mut().map(|s| s.1.take(36)).collect();
    for i in 0..36 {
        let r = DaBit::reconstruct(vec![dabits[0][i].clone(), dabits[1][i].clone(), dabits[2][i].clone()]);
        assert_eq!(r.r_z2 as u32, r.r_zp.as_u32(), "daBit {} does not reconstruct", i);
    }
}

#[test]
fn seeded_draws_repeat() {
    let a = BitArray::from_seed(300, [9u8; 32]);
    let b = BitArray::from_seed(300, [9u8; 32]);
    let c = BitArray::from_seed(300, [10u8; 32]);
    assert_eq!(a.get_inner_memref(), b.get_inner_memref());
    assert_ne!(a.get_inner_memref(), c.get_inner_memref());
    let d = D2BitArray::from_seed(3, 77, &[4u8; 32]);
    let e = D2BitArray::from_seed(3, 77, &[4u8; 32]);
    assert_eq!(d, e);
    let mut r1 = priv_rec_cert::rng::SeededRng::from_seed([1u8; 32]);
    let mut r2 = priv_rec_cert::rng::SeededRng::from_seed([1u8; 32]);
    assert_eq!(r1.next_u32(), r2.next_u32());
}
