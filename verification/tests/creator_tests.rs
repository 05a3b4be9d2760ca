use aplorandom::algorithm_creator::{
    create_algorithm, generate_lookup_table, lookup_table_from_codes, split_algorithm, AlgorithmCreator,
    ZERO_DIVISOR_MESSAGE,
};
use num_bigint::BigUint;

/// An MD5 chain generator drawing `BigUint`s, written independently.
struct Chain {
    seed: [u8; 16],
}

impl Chain {
    fn new(data: &[u8]) -> Chain {
        Chain { seed: md5::compute(data).into() }
    }
    fn draw(&mut self) -> BigUint {
        self.seed = md5::compute(self.seed).into();
        BigUint::from_bytes_be(&self.seed)
    }
}

fn low_u64(n: &BigUint) -> u64 {
    let mut bytes = n.to_bytes_le();
    bytes.resize(8, 0);
    u64::from_le_bytes([bytes[0], bytes[1], bytes[2], bytes[3], bytes[4], bytes[5], bytes[6], bytes[7]])
}

fn reference_table(seed: &[u8]) -> [u16; 49] {
    let mut rng = Chain::new(seed);
    let mut table = [0u16; 49];
    for i in 0..49 {
        let code = low_u64(&(rng.draw() % 65536u32)) as u16;
        if !table[..i].contains(&code) {
            table[i] = code;
        }
    }
    table
}

/// Program derivation as the hashing scheme describes it, written
/// independently.
fn reference_algorithm(seed: &[u8], max: usize, statics_amount: usize, statics_max_size: usize) -> Vec<u8> {
    reference_body(&mut Chain::new(seed), max, statics_amount, statics_max_size)
}

/// A whole program as the hashing scheme describes it: the header (the
/// smallest input size plus a draw modulo 1000, as a little-endian u64),
/// then the instructions.
fn reference_program(
    seed: &[u8],
    min_size: usize,
    max: usize,
    statics_amount: usize,
    statics_max_size: usize,
) -> Vec<u8> {
    let mut rng = Chain::new(seed);
    let header = (min_size as u64).wrapping_add(low_u64(&(rng.draw() % 1000u32)));
    let mut out = header.to_le_bytes().to_vec();
    out.extend(reference_body(&mut rng, max, statics_amount, statics_max_size));
    out
}

fn reference_body(rng: &mut Chain, max: usize, statics_amount: usize, statics_max_size: usize) -> Vec<u8> {
    let mut out: Vec<u8> = Vec::new();
    let mut count = 0;
    let mut statics = 0;
    while count < max {
        let op = low_u64(&(rng.draw() % 49u32)) as u8;
        match op {
            0 | 1 => {
                if statics >= statics_amount {
                    continue;
                }
                statics += 1;
                out.push(op);
                let n = (low_u64(&(rng.draw() % statics_max_size)) as u16).wrapping_add(1);
                out.extend_from_slice(&n.to_be_bytes());
                let mut left = n;
                while left > 0 {
                    let c = if left >= 8 { 8 } else if left >= 4 { 4 } else if left >= 2 { 2 } else { 1 };
                    let v = low_u64(&rng.draw()).to_be_bytes();
                    out.extend_from_slice(&v[8 - c as usize..]);
                    left -= c;
                }
            }
            2..=5 => {
                out.push(op);
                let n = (1 + low_u64(&(rng.draw() % 100u32)) as u16) * 4;
                out.extend_from_slice(&n.to_be_bytes());
            }
            6 | 7 => {
                out.push(op);
                let n = 1 + low_u64(&(rng.draw() % 100u32)) as u16;
                out.extend_from_slice(&n.to_be_bytes());
            }
            8..=15 => {
                out.push(op);
                out.extend_from_slice(&(low_u64(&rng.draw()) as u32).to_be_bytes());
            }
            16..=23 => {
                out.push(op);
                out.extend_from_slice(&low_u64(&rng.draw()).to_be_bytes());
            }
            32..=35 => {
                out.push(op);
                out.push((low_u64(&rng.draw()) as u8) % 16);
            }
            24..=46 => out.push(op),
            _ => continue,
        }
        count += 1;
    }
    out.push(46);
    out.push(47);
    out
}

fn derive(seed: &[u8], max: usize, statics_amount: usize, statics_max_size: usize) -> Vec<u8> {
    let mut s = seed.to_vec();
    let mut c = AlgorithmCreator::new(&mut s, 1000, statics_amount, statics_max_size);
    while c.instructions() < max {
        c.step().unwrap();
    }
    c.finish()
}

#[test]
fn lookup_table_matches_reference() {
    for seed in [&b"abc"[..], &b""[..], &[0xff; 20][..]] {
        let mut s = seed.to_vec();
        assert_eq!(generate_lookup_table(&mut s), reference_table(seed));
        assert_eq!(s, seed.to_vec());
    }
}

#[test]
fn lookup_table_zeroes_repeated_codes() {
    let mut codes = [0u16; 49];
    for (i, c) in codes.iter_mut().enumerate() {
        *c = (i as u16) % 5 + 1;
    }
    let t = lookup_table_from_codes(&codes);
    assert_eq!(&t[..5], &[1, 2, 3, 4, 5]);
    assert!(t[5..].iter().all(|&x| x == 0));
}

#[test]
fn lookup_table_of_distinct_codes_is_unchanged() {
    let mut codes = [0u16; 49];
    for (i, c) in codes.iter_mut().enumerate() {
        *c = 1000 - i as u16;
    }
    assert_eq!(lookup_table_from_codes(&codes), codes);
}

#[test]
fn lookup_table_nonzero_entries_are_distinct() {
    let mut s = b"distinct".to_vec();
    let t = generate_lookup_table(&mut s);
    for i in 0..49 {
        for j in (i + 1)..49 {
            assert!(t[j] == 0 || t[i] != t[j]);
        }
    }
}

#[test]
fn program_without_literals_matches_reference() {
    for seed in [&b"seed one"[..], &b"x"[..]] {
        assert_eq!(derive(seed, 200, 0, 15), reference_algorithm(seed, 200, 0, 15));
    }
}

#[test]
fn program_with_literals_matches_reference() {
    for seed in [&b"literal"[..], &b"abc"[..], &[0u8; 20][..]] {
        assert_eq!(derive(seed, 300, 5, 40), reference_algorithm(seed, 300, 5, 40));
    }
}

#[test]
fn program_ends_with_rotation_and_emission() {
    let p = derive(b"end", 10, 0, 15);
    assert_eq!(&p[p.len() - 2..], &[46, 47]);
    assert_eq!(derive(b"none", 0, 0, 15), vec![46, 47]);
}

#[test]
fn literal_length_reduced_by_zero_is_refused() {
    // Find a seed whose first draw picks a literal opcode.
    for k in 0u32..1000 {
        let seed = k.to_be_bytes();
        let mut chain = Chain::new(&seed);
        let op = low_u64(&(chain.draw() % 49u32));
        if op <= 1 {
            let mut s = seed.to_vec();
            let mut c = AlgorithmCreator::new(&mut s, 0, 1, 0);
            assert_eq!(c.step(), None);
            let mut s = seed.to_vec();
            let mut c = AlgorithmCreator::new(&mut s, 0, 0, 0);
            assert_eq!(c.step(), Some(false));
            assert_eq!(c.instructions(), 0);
            return;
        }
    }
    panic!("no seed found");
}

#[test]
fn block_size_estimate_for_a_fixed_program() {
    let mut s = b"blocks".to_vec();
    let mut c = AlgorithmCreator::new(&mut s, 100, 0, 15);
    let before = c.block_size();
    let emitted = c.step().unwrap();
    let p = c.algorithm();
    if emitted {
        let op = p[0];
        let expected: i64 = match op {
            2..=5 => {
                let n = u16::from_be_bytes([p[1], p[2]]);
                let q = n / 8;
                -((if q == 0 || q % 8 != 0 { q + 1 } else { q }) as i64)
            }
            6 | 7 => -(u16::from_be_bytes([p[1], p[2]]) as i64),
            8..=15 => -4,
            16..=23 => -8,
            24..=29 => -16,
            30 | 31 => -2,
            32 | 33 => (p[1] / 8) as i64,
            34 | 35 => -((p[1] / 8) as i64),
            36..=39 => -4,
            40 | 41 => -16,
            42 | 43 => -24,
            44 | 45 => -32,
            _ => 0,
        };
        assert_eq!(c.block_size() as i64, before as i64 + expected);
    } else {
        assert_eq!(c.block_size(), before);
    }
}

#[test]
fn create_algorithm_matches_reference() {
    for seed in [&b"create"[..], &[0xff; 20][..]] {
        let mut s = seed.to_vec();
        let program = create_algorithm(&mut s, 209715200, 1024, 250, 4, 15).unwrap();
        assert_eq!(program, reference_program(seed, 1024, 250, 4, 15));
        assert_eq!(s, seed.to_vec());
    }
}

#[test]
fn create_algorithm_of_no_instructions_is_the_header_and_closing_pair() {
    let mut s = b"empty".to_vec();
    let p = create_algorithm(&mut s, 0, 500, 0, 0, 0).unwrap();
    assert_eq!(p.len(), 10);
    assert_eq!(&p[8..], &[46, 47]);
    let mut chain = Chain::new(b"empty");
    let want = 500 + low_u64(&(chain.draw() % 1000u32));
    assert_eq!(u64::from_le_bytes([p[0], p[1], p[2], p[3], p[4], p[5], p[6], p[7]]), want);
    assert_eq!(split_algorithm(&p), Some((want, vec![46, 47])));
}

#[test]
fn header_wraps_around_u64() {
    let mut s = b"wrap".to_vec();
    let p = create_algorithm(&mut s, 0, usize::MAX, 0, 0, 0).unwrap();
    let mut chain = Chain::new(b"wrap");
    let want = (usize::MAX as u64).wrapping_add(low_u64(&(chain.draw() % 1000u32)));
    assert_eq!(split_algorithm(&p).unwrap().0, want);
}

#[test]
fn split_refuses_short_programs() {
    assert_eq!(split_algorithm(&[1, 2, 3, 4, 5, 6, 7]), None);
    assert_eq!(split_algorithm(&[1, 0, 0, 0, 0, 0, 0, 0]), Some((1, vec![])));
}

#[test]
fn create_algorithm_refuses_literals_reduced_by_zero() {
    // With literals allowed and a zero maximum literal size, the first
    // literal opcode drawn ends the derivation.
    let mut s = b"zero size".to_vec();
    assert_eq!(create_algorithm(&mut s, 100, 0, 1000, 1000, 0), Err(ZERO_DIVISOR_MESSAGE));
}

/// The length of the instruction at `p[i]`, immediates included.
fn instruction_length(p: &[u8], i: usize) -> usize {
    match p[i] {
        0 | 1 => 3 + u16::from_be_bytes([p[i + 1], p[i + 2]]) as usize,
        2..=7 => 3,
        8..=15 => 5,
        16..=23 => 9,
        32..=35 => 2,
        _ => 1,
    }
}

#[test]
fn derived_programs_are_whole_instructions() {
    for (seed, statics) in [(&b"whole"[..], 6usize), (&[7u8; 20][..], 0)] {
        let mut s = seed.to_vec();
        let p = create_algorithm(&mut s, 4096, 64, 300, statics, 15).unwrap();
        let mut i = 8;
        let mut count = 0;
        while i < p.len() {
            assert!(p[i] <= 48);
            i += instruction_length(&p, i);
            count += 1;
        }
        assert_eq!(i, p.len());
        assert_eq!(count, 302);
    }
}
