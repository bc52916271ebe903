use priv_rec_cert::simd_array::{AU8Array, BitArray, D2BitArray};
use priv_rec_cert::rng::SeededRng;

const BIT_SIZE_CHECK_LIST: [usize; 7] = [16, 32, 64, 128, 256, 256 + 16, 1024];
const D2_BIT_SIZE_CHECK_LIST: [usize; 7] = [8, 32, 64, 128, 256, 256 + 16, 1024];

#[test]
fn test_new_box_len_and_alignment() {
    let len = 100;
    let b = AU8Array::new(len);
    assert_eq!(b.len(), len);
    // The storage is a plain vector: its address is not aligned to `ALIGN`, so only the
    // length is checked here.
}

#[test]
fn test_index_and_index_mut() {
    let mut b = AU8Array::new(8);
    for i in 0..8 {
        b.set(i, i as u8);
    }
    for i in 0..8 {
        assert_eq!(b.get(i), i as u8);
    }
}

#[test]
fn test_deref_and_deref_mut() {
    let mut b = AU8Array::new(4);
    b.set(0, 10);
    b.set(1, 20);
    b.set(2, 30);
    b.set(3, 40);
    let slice: &[u8] = b.as_ref();
    assert_eq!(slice, &[10, 20, 30, 40]);
    b.set(2, 99);
    assert_eq!(b.get(2), 99);
}

#[test]
fn test_as_ref_and_as_mut() {
    let mut b = AU8Array::new(3);
    b.set(0, 1);
    b.set(1, 2);
    b.set(2, 3);
    let r: &[u8] = b.as_ref();
    assert_eq!(r, &[1, 2, 3]);
    b.set(1, 42);
    assert_eq!(b.get(1), 42);
}

#[test]
fn test_alignment_for_various_lengths() {
    // The storage is a plain vector, not aligned in memory to `ALIGN`; what the library
    // keeps is a padded length that is a multiple of `ALIGN`.
    for len in [1, 16, 31, 32, 33, 64, 100, 128] {
        let b = AU8Array::new(len);
        assert_eq!(b.len(), len);
    }
}

#[test]
fn padded_length_is_a_multiple_of_align() {
    for len in [1, 16, 31, 32, 33, 64, 100, 128] {
        let b = AU8Array::new(len);
        assert_eq!(b.aligned_len() % AU8Array::ALIGN, 0);
        assert!(b.aligned_len() >= len && b.aligned_len() < len + AU8Array::ALIGN);
    }
}

#[test]
fn aligned_array_padding_and_copies() {
    let b = AU8Array::from_slice(&[1, 2, 3]);
    assert_eq!(b.len(), 3);
    assert_eq!(b.aligned_len(), 32);
    assert_eq!(b.as_ref(), &[1, 2, 3]);
    for i in 3..32 {
        assert_eq!(b.get(i), 0);
    }
    let c = b.clone();
    assert_eq!(c.as_ref(), b.as_ref());
    let o = AU8Array::ones(33);
    assert_eq!(o.aligned_len(), 64);
    for i in 0..64 {
        assert_eq!(o.get(i), 0xFF);
    }
    let e = AU8Array::empty();
    assert_eq!(e.len(), 0);
    assert_eq!(e.aligned_len(), 0);
}

#[test]
fn test_random_bit_set_and_get() {
    for &bit_size in &BIT_SIZE_CHECK_LIST {
        let mut array = BitArray::from_seed(bit_size, [42; 32]);
        for i in 0..bit_size {
            array.set_bit(i, i % 2 == 0);
        }
        for i in 0..bit_size {
            let expected = i % 2 == 0;
            assert_eq!(
                array.get(i),
                expected,
                "Final verification mismatch at bit index {} for bit_size {}",
                i,
                bit_size
            );
        }
    }
}

#[test]
fn test_bitwise_and() {
    let mut seed_base = 0;
    for bit_size in [5usize, 8, 16, 32, 64, 65, 68, 256, 264, 322, 400, 512] {
        let a = BitArray::from_seed(bit_size, [seed_base; 32]);
        let b = BitArray::from_seed(bit_size, [seed_base + 1; 32]);
        let c = BitArray::and(&a, &b);
        for i in 0..bit_size {
            let expected = a.get(i) & b.get(i);
            assert_eq!(
                c.get(i),
                expected,
                "Mismatch at bit index {} when running and on {bit_size}-bit arrays",
                i
            );
        }
        seed_base += 2
    }
}

#[test]
fn test_simd_bitarray_equality() {
    for &bit_size in &BIT_SIZE_CHECK_LIST {
        let array1 = BitArray::from_seed(bit_size, [42u8; 32]);
        let mut array2 = array1.clone();

        assert_eq!(array1, array2, "SimdBitArray equality failed for identical arrays");

        for idx in 0..(std::cmp::min(bit_size, 16)) {
            array2.set_bit(idx, !array1.get(idx));
            assert_ne!(array1, array2, "SimdBitArray neq failed after modification of bit {idx}");
            array2.set_bit(idx, array1.get(idx));
            assert_eq!(array1, array2, "SimdBitArray eq failed after modify and revert of bit {idx}");
        }

        array2.set_bit(1, !array1.get(1));
        array2.set_bit(3, !array1.get(3));
        assert_ne!(array1, array2, "SimdBitArray neq failed after two bit modification [1,3]");
        array2.set_bit(4, !array1.get(4));
        assert_ne!(array1, array2, "SimdBitArray neq failed after three bit modification [1,3,4]");

        let array3 = BitArray::from_seed(bit_size + 8, [42u8; 32]);
        assert_ne!(array1, array3, "SimdBitArray inequality failed for arrays with different sizes");
    }
}

#[test]
fn test_secret_share_and_reconstruct() {
    let mut rng = SeededRng::from_seed([42; 32]);
    for &bit_size in &BIT_SIZE_CHECK_LIST {
        let mut x = BitArray::random(bit_size, &mut rng);
        let original = x.clone();

        let shares = x.inplace_secret_share(3, &mut rng);

        assert_eq!(shares.len(), 2, "Expected 2 shares for 3 parties, but got {}", shares.len());

        x.inplace_reconstruct(&shares);

        assert_eq!(original, x, "Reconstructed array does not match the original",);
    }
}

#[test]
fn test_secret_share_randomness() {
    let mut rng = SeededRng::from_seed([42; 32]);
    let mut x1 = BitArray::random(32, &mut rng);
    let mut x2 = x1.clone();

    let ss1 = x1.inplace_secret_share(3, &mut rng);
    let ss2 = x2.inplace_secret_share(3, &mut rng);

    assert_ne!(ss1[0], ss1[1], "Shares twice should result in different shares for recipients");
    assert_ne!(x1, x2, "Sharing a value twice should lead to different original arrays");
    assert_ne!(ss1[0], ss2[0], "Shares twice without having the same seed should be different");
}

#[test]
fn bit_array_xor_parity_and_inner_product() {
    let mut a = BitArray::new(12);
    a.set_bit(0, true);
    a.set_bit(5, true);
    a.set_bit(11, true);
    assert!(a.parity());
    let mut b = BitArray::new(12);
    b.set_bit(5, true);
    b.set_bit(11, true);
    assert!(!b.parity());
    let x = BitArray::xor(&a, &b);
    assert!(x.get(0) && !x.get(5) && !x.get(11));
    assert!(!BitArray::inner_prod(&a, &b));
    b.set_bit(7, true);
    b.set_bit(0, true);
    assert!(BitArray::inner_prod(&a, &b));
    let ones = BitArray::ones(12);
    assert_eq!(ones.byte_size(), 2);
    for i in 0..12 {
        assert!(ones.get(i));
    }
}

#[test]
fn bit_array_copy_slice_and_shrink() {
    let src = BitArray::from_byte_slice(&[0b1010_1100, 0xFF], 12);
    assert_eq!(src.bit_size(), 12);
    assert_eq!(src.get_inner_memref(), &[0b1010_1100, 0xFF]);
    let mut dst = BitArray::new(40);
    dst.copy_from(3, &src);
    for i in 0..12 {
        assert_eq!(dst.get(3 + i), src.get(i));
    }
    assert!(!dst.get(0) && !dst.get(2) && !dst.get(15));
    let mut s = dst.to_slice(0, 2);
    assert_eq!(s.bit_size(), 16);
    s.shrink_to_partial_last_byte(10);
    assert_eq!(s.bit_size(), 10);
    assert_eq!(s.byte_size(), 2);
    let mut m = BitArray::new(8);
    m.mut_and(&BitArray::ones(8), &src.to_slice(0, 1));
    assert_eq!(m.get_inner_memref(), &[0b1010_1100]);
}

#[test]
fn bit_array_secret_share_reconstructs() {
    let mut rng = SeededRng::from_seed([9; 32]);
    let x = BitArray::random(100, &mut rng);
    let shares = x.secret_share(4, &mut rng);
    assert_eq!(shares.len(), 4);
    assert_eq!(BitArray::reconstruct(shares), x);
}

#[test]
fn test_d2array_creation() {
    for array_size in [1, 3, 5] {
        for &bit_size in &D2_BIT_SIZE_CHECK_LIST {
            let a = D2BitArray::from_seed(array_size, bit_size, &[42u8; 32]);
            assert_eq!(a.array_num(), array_size, "Array size mismatch");
            for i in 0..a.array_num() {
                assert_eq!(a.get_array(i).bit_size(), bit_size, "Bit size mismatch");
            }
            for i in 0..a.array_num() {
                for j in (i + 1)..a.array_num() {
                    assert!(a.get_array(i) != a.get_array(j), "Duplicate BitArray found in D2Array");
                }
            }
        }
    }
}

#[test]
fn test_d2array_inplace_xor() {
    for array_size in [1, 3, 5] {
        for &bit_size in &D2_BIT_SIZE_CHECK_LIST {
            let mut a = D2BitArray::from_seed(array_size, bit_size, &[42u8; 32]);
            let b = D2BitArray::from_seed(array_size, bit_size, &[13u8; 32]);

            let mut expected = a.clone();
            for i in 0..expected.array_num() {
                expected.get_mut_array(i).inplace_xor(b.get_array(i));
            }

            a.inplace_xor(&b);
            assert_eq!(a, expected, "Mismatch in inplace_xor result");
        }
    }
}

#[test]
fn test_d2array_reconstruction() {
    for array_size in [1, 3, 5] {
        for &bit_size in &D2_BIT_SIZE_CHECK_LIST {
            let share1 = D2BitArray::from_seed(array_size, bit_size, &[42u8; 32]);
            let share2 = D2BitArray::from_seed(array_size, bit_size, &[13u8; 32]);
            let mut expected = share1.clone();
            expected.inplace_xor(&share2);

            let reconstructed = D2BitArray::reconstruct(vec![share1, share2]);
            assert_eq!(reconstructed, expected, "Mismatch in reconstruction result");
        }
    }
}

#[test]
fn test_d2array_push() {
    for array_size in [1, 3, 5] {
        for &bit_size in &D2_BIT_SIZE_CHECK_LIST {
            let mut d2array = D2BitArray::empty();
            for i in 0..array_size {
                let array = BitArray::from_seed(bit_size, [i as u8; 32]);
                d2array.push(array.clone());
                assert_eq!(d2array.array_num(), i + 1, "Array size mismatch after push");
                assert_eq!(d2array.get_array(i), &array, "Mismatch in pushed array");
            }
        }
    }
}

#[test]
fn test_d2array_to_slice_additional_cases() {
    for array_size in [1, 3, 5] {
        for &bit_size in &D2_BIT_SIZE_CHECK_LIST {
            let d2array = D2BitArray::from_seed(array_size, bit_size, &[42u8; 32]);
            let byte_size = bit_size.div_ceil(8);

            let test_cases = vec![
                (0, byte_size / 2),
                (byte_size / 4, 3 * byte_size / 4),
                (byte_size / 2, byte_size),
            ];

            for &(start_byte, end_byte) in &test_cases {
                let sliced = d2array.to_slice(start_byte, end_byte);

                assert_eq!(
                    sliced.array_num(),
                    d2array.array_num(),
                    "Mismatch in number of arrays in sliced D2Array"
                );

                for i in 0..d2array.array_num() {
                    let original = d2array.get_array(i);
                    let sliced_array = sliced.get_array(i);
                    let expected_data = &original.to_slice(start_byte, end_byte);
                    assert_eq!(
                        sliced_array, expected_data,
                        "Mismatch in sliced data for range {}..{}",
                        start_byte, end_byte
                    );
                    assert_eq!(
                        sliced_array.bit_size(),
                        (end_byte - start_byte) * 8,
                        "Mismatch in bit size for sliced array"
                    );
                    assert_eq!(
                        sliced_array.byte_size(),
                        end_byte - start_byte,
                        "Mismatch in byte size for sliced array"
                    );
                }
            }
        }
    }
}

#[test]
fn d2array_beaver_unpacking() {
    let mut d = D2BitArray::zeros(3, 16);
    assert_eq!(d.inner_byte_size(), 2);
    {
        let (a, b, c) = d.unpack_as_mut_beaver();
        a.set_bit(0, true);
        b.set_bit(1, true);
        c.set_bit(2, true);
    }
    let (a, b, c) = d.unpack_as_beaver();
    assert!(a.get(0) && b.get(1) && c.get(2));
    let mut share = D2BitArray::zeros(2, 16);
    share.get_mut_array(0).set_bit(0, true);
    share.get_mut_array(1).set_bit(5, true);
    d.beaver_xor_d2(&share);
    assert!(!d.get_array(0).get(0));
    assert!(d.get_array(1).get(5) && d.get_array(1).get(1));
    assert!(d.get_array(2).get(2));
}
