use aplorandom::rng::{murmur2, transform_u32_to_array_of_u8, MD5RNG, MurMur2RNG};
use aplorandom::tools::{
    biguint_into_u16, biguint_into_u32, biguint_into_u64, biguint_into_u8, cast_slice_to_array,
};

/// MurmurHash2 as the hashing scheme describes it, written independently.
fn reference_murmur2(data: &[u8], len: u64) -> u32 {
    let m: u32 = 0x5bd1e995;
    let mut h: u32 = len as u32;
    let mut round = 0usize;
    while len >= (round as u64) * 4 + 4 {
        let mut k = u32::from_le_bytes([
            data[round * 4],
            data[round * 4 + 1],
            data[round * 4 + 2],
            data[round * 4 + 3],
        ]);
        k = k.wrapping_mul(m);
        k ^= k >> 24;
        k = k.wrapping_mul(m);
        h = h.wrapping_mul(m);
        h ^= k;
        round += 1;
    }
    match len - (round as u64) * 4 {
        1 => {
            h ^= data[(len - 1) as usize] as u32;
            h = h.wrapping_mul(m);
        }
        2 => h ^= (data[(len - 1) as usize] as u32) << 8,
        3 => h ^= (data[(len - 1) as usize] as u32) << 16,
        _ => {}
    }
    h ^= h >> 13;
    h = h.wrapping_mul(m);
    h ^= h >> 15;
    h
}

#[test]
fn murmur2_of_nothing_is_zero() {
    let mut data: [u8; 0] = [];
    assert_eq!(murmur2(&mut data, 0), 0);
}

#[test]
fn murmur2_matches_reference_on_all_tail_lengths() {
    let bytes: Vec<u8> = (0u8..23).map(|x| x.wrapping_mul(37).wrapping_add(11)).collect();
    for len in 0..=bytes.len() {
        let mut copy = bytes.clone();
        let h = murmur2(&mut copy, len as u64);
        assert_eq!(h, reference_murmur2(&bytes, len as u64), "length {}", len);
        assert_eq!(copy, bytes);
    }
}

#[test]
fn murmur2_reads_only_the_given_length() {
    let mut a = [1u8, 2, 3, 4, 5, 6, 7];
    let mut b = [1u8, 2, 3, 4, 5, 99, 100];
    assert_eq!(murmur2(&mut a, 5), murmur2(&mut b, 5));
    assert_ne!(murmur2(&mut a, 6), murmur2(&mut b, 6));
}

#[test]
fn murmur2_single_byte_tail_mixes_the_byte() {
    let mut a = [0x41u8];
    assert_eq!(murmur2(&mut a, 1), reference_murmur2(&[0x41], 1));
}

#[test]
fn u32_split_is_big_endian() {
    assert_eq!(transform_u32_to_array_of_u8(0x0102_0304), [1, 2, 3, 4]);
    assert_eq!(transform_u32_to_array_of_u8(0xdead_beef), [0xde, 0xad, 0xbe, 0xef]);
}

#[test]
fn murmur_generator_chains_hashes_of_its_state() {
    let mut seed_data = [9u8, 8, 7, 6, 5];
    let mut g = MurMur2RNG::get_generator(&mut seed_data, 5);
    let seed = reference_murmur2(&[9, 8, 7, 6, 5], 5);
    assert_eq!(g.seed(), seed);
    let first = g.generate();
    assert_eq!(first, reference_murmur2(&seed.to_be_bytes(), 4));
    assert_eq!(g.seed(), first);
    let second = g.generate();
    assert_eq!(second, reference_murmur2(&first.to_be_bytes(), 4));
}

#[test]
fn md5_generator_is_seeded_with_the_digest() {
    let mut data = *b"abc";
    let g = MD5RNG::get_generator(&mut data);
    let expected: [u8; 16] = md5::compute(b"abc").into();
    assert_eq!(g.seed(), expected);
    assert_eq!(data, *b"abc");
}

#[test]
fn md5_generator_draws_the_digest_of_its_state() {
    let mut data = *b"abc";
    let mut g = MD5RNG::get_generator(&mut data);
    let s1: [u8; 16] = md5::compute(b"abc").into();
    let s2: [u8; 16] = md5::compute(s1).into();
    let s3: [u8; 16] = md5::compute(s2).into();
    assert_eq!(g.generate(), u128::from_be_bytes(s2));
    assert_eq!(g.seed(), s2);
    assert_eq!(g.generate(), u128::from_be_bytes(s3));
}

#[test]
fn md5_of_empty_input() {
    let mut data: [u8; 0] = [];
    let g = MD5RNG::get_generator(&mut data);
    assert_eq!(
        g.seed(),
        [
            0xd4, 0x1d, 0x8c, 0xd9, 0x8f, 0x00, 0xb2, 0x04, 0xe9, 0x80, 0x09, 0x98, 0xec, 0xf8,
            0x42, 0x7e
        ]
    );
}

#[test]
fn narrowing_keeps_low_bytes() {
    let x: u128 = 0x0011_2233_4455_6677_8899_aabb_ccdd_eeff;
    assert_eq!(biguint_into_u64(x), 0x8899_aabb_ccdd_eeff);
    assert_eq!(biguint_into_u32(x), 0xccdd_eeff);
    assert_eq!(biguint_into_u16(x), 0xeeff);
    assert_eq!(biguint_into_u8(x), 0xff);
    assert_eq!(biguint_into_u8(0), 0);
    assert_eq!(biguint_into_u16(0x1_0005), 5);
}

#[test]
fn slice_to_array() {
    assert_eq!(cast_slice_to_array(&[1, 2, 3, 4, 5, 6, 7, 8]), [1, 2, 3, 4, 5, 6, 7, 8]);
}
