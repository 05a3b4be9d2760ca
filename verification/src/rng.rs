//! Pseudo-random generators: a MurmurHash2 (32 bit) chain and an MD5 chain.

use vstd::prelude::*;

use crate::bytes::{be_u128, be_value};

verus! {

/// The MurmurHash2 multiplier.
pub const MURMUR_M: u32 = 0x5bd1e995;

/// `x * m` modulo 2^32.
pub open spec fn mul_m(x: u32) -> u32 {
    ((x as nat * 0x5bd1e995nat) % 0x1_0000_0000nat) as u32
}

/// The little-endian 32-bit word made of `data[i..i + 4]`.
pub open spec fn le_word(data: Seq<u8>, i: int) -> u32 {
    (data[i] as u32) | ((data[i + 1] as u32) << 8u32) | ((data[i + 2] as u32) << 16u32) | ((
    data[i + 3] as u32) << 24u32)
}

/// The scrambling that MurmurHash2 applies to each input word.
pub open spec fn mix_word(k: u32) -> u32 {
    let a = mul_m(k);
    mul_m(a ^ (a >> 24u32))
}

/// The hash state after the first `rounds` full words of `data`, starting from `h`.
pub open spec fn murmur_body(data: Seq<u8>, h: u32, rounds: nat) -> u32
    decreases rounds,
{
    if rounds == 0 {
        h
    } else {
        mul_m(murmur_body(data, h, (rounds - 1) as nat)) ^ mix_word(
            le_word(data, 4 * (rounds - 1)),
        )
    }
}

/// The treatment of the one to three bytes after the last full word: only the
/// last byte of the input is mixed in, at a position that depends on how many
/// bytes are left over.
pub open spec fn murmur_tail(data: Seq<u8>, len: nat, h: u32) -> u32 {
    let rest = len % 4;
    if rest == 1 {
        mul_m(h ^ (data[len - 1] as u32))
    } else if rest == 2 {
        h ^ ((data[len - 1] as u32) << 8u32)
    } else if rest == 3 {
        h ^ ((data[len - 1] as u32) << 16u32)
    } else {
        h
    }
}

/// The final avalanche.
pub open spec fn murmur_final(h: u32) -> u32 {
    let a = h ^ (h >> 13u32);
    let b = mul_m(a);
    b ^ (b >> 15u32)
}

/// The hash of the first `len` bytes of `data`, seeded with 0.
pub open spec fn spec_murmur2(data: Seq<u8>, len: u64) -> u32 {
    murmur_final(
        murmur_tail(data, len as nat, murmur_body(data, len as u32, (len / 4) as nat)),
    )
}

proof fn lemma_murmur_body_prefix(data: Seq<u8>, len: nat, h: u32, rounds: nat)
    requires
        len <= data.len(),
        4 * rounds <= len,
    ensures
        murmur_body(data, h, rounds) == murmur_body(data.subrange(0, len as int), h, rounds),
    decreases rounds,
{
    if rounds > 0 {
        lemma_murmur_body_prefix(data, len, h, (rounds - 1) as nat);
        let i = 4 * (rounds - 1);
        assert(le_word(data, i) == le_word(data.subrange(0, len as int), i));
    }
}

/// The hash of the first `len` bytes does not depend on the bytes after them.
pub proof fn law_murmur2_reads_prefix(data: Seq<u8>, len: u64)
    requires
        len <= data.len(),
    ensures
        spec_murmur2(data, len) == spec_murmur2(data.subrange(0, len as int), len),
{
    lemma_murmur_body_prefix(data, len as nat, len as u32, (len / 4) as nat);
}

fn wrapping_mul_m(x: u32) -> (r: u32)
    ensures
        r == mul_m(x),
{
    x.wrapping_mul(MURMUR_M)
}

/// MurmurHash2 (32 bit, seed 0) of the first `data_length` bytes of `data`.
///
/// Multiplications wrap modulo 2^32.
pub fn murmur2(data: &mut [u8], data_length: u64) -> (h: u32)
    requires
        data_length <= old(data)@.len(),
    ensures
        final(data)@ == old(data)@,
        h == spec_murmur2(old(data)@, data_length),
{
    let ghost d = data@;
    let n = data.len();
    let mut h: u32 = #[verifier::truncate] (data_length as u32);
    let mut round: usize = 0;
    while data_length - (round as u64) * 4 >= 4
        invariant
            d == data@,
            n == data@.len(),
            data_length <= data@.len(),
            round as nat * 4 <= data_length,
            h == murmur_body(d, data_length as u32, round as nat),
        decreases data_length - round * 4,
    {
        let base = round * 4;
        let mut k: u32 = data[base] as u32;
        k = k | ((data[base + 1] as u32) << 8u32);
        k = k | ((data[base + 2] as u32) << 16u32);
        k = k | ((data[base + 3] as u32) << 24u32);
        assert(k == le_word(d, 4 * round as int));
        k = wrapping_mul_m(k);
        k = k ^ (k >> 24u32);
        k = wrapping_mul_m(k);
        h = wrapping_mul_m(h);
        h = h ^ k;
        round = round + 1;
    }
    assert(round as nat == (data_length / 4) as nat);
    let length_diff = data_length - (round as u64) * 4;
    if length_diff == 1 {
        h = h ^ (data[(data_length - 1) as usize] as u32);
        h = wrapping_mul_m(h);
    } else if length_diff == 2 {
        h = h ^ ((data[(data_length - 1) as usize] as u32) << 8u32);
    } else if length_diff == 3 {
        h = h ^ ((data[(data_length - 1) as usize] as u32) << 16u32);
    }
    h = h ^ (h >> 13u32);
    h = wrapping_mul_m(h);
    h = h ^ (h >> 15u32);
    h
}

/// The four bytes of `x`, most significant first.
pub open spec fn be_bytes_u32(x: u32) -> Seq<u8> {
    seq![
        ((x >> 24u32) & 0xff) as u8,
        ((x >> 16u32) & 0xff) as u8,
        ((x >> 8u32) & 0xff) as u8,
        (x & 0xff) as u8,
    ]
}

/// Splits `x` into its four bytes, most significant first.
pub fn transform_u32_to_array_of_u8(x: u32) -> (r: [u8; 4])
    ensures
        r@ == be_bytes_u32(x),
{
    let b1: u8 = ((x >> 24u32) & 0xff) as u8;
    let b2: u8 = ((x >> 16u32) & 0xff) as u8;
    let b3: u8 = ((x >> 8u32) & 0xff) as u8;
    let b4: u8 = (x & 0xff) as u8;
    let r = [b1, b2, b3, b4];
    assert(r@ =~= be_bytes_u32(x));
    r
}

/// The successor of a MurmurHash2 generator state: the hash of its own
/// big-endian bytes.
pub open spec fn murmur_next(seed: u32) -> u32 {
    spec_murmur2(be_bytes_u32(seed), 4)
}

/// A generator whose state is replaced by the MurmurHash2 of its big-endian
/// bytes on every draw.
pub struct MurMur2RNG {
    seed: u32,
}

impl MurMur2RNG {
    /// The current state of the generator.
    pub closed spec fn state(&self) -> u32 {
        self.seed
    }

    /// Draws the next value; the value drawn is also the new state.
    pub fn generate(&mut self) -> (r: u32)
        ensures
            r == murmur_next(old(self).state()),
            final(self).state() == r,
    {
        let mut converted = transform_u32_to_array_of_u8(self.seed);
        self.seed = murmur2(&mut converted, 4);
        self.seed
    }

    /// A generator seeded with the MurmurHash2 of the first `data_length`
    /// bytes of `data`.
    pub fn get_generator(data: &mut [u8], data_length: u64) -> (g: MurMur2RNG)
        requires
            data_length <= old(data)@.len(),
        ensures
            final(data)@ == old(data)@,
            g.state() == spec_murmur2(old(data)@, data_length),
    {
        let seed = murmur2(data, data_length);
        MurMur2RNG { seed: seed }
    }

    /// The current state of the generator.
    pub fn seed(&self) -> (s: u32)
        ensures
            s == self.state(),
    {
        self.seed
    }
}

/// The MD5 digest of `data` (sixteen bytes).
pub uninterp spec fn md5_digest(data: Seq<u8>) -> Seq<u8>;

/// Calls `md5::compute` on `data` and returns the sixteen digest bytes.
/// Claimed: the bytes are the MD5 digest of exactly the bytes of `data`, a
/// function of those bytes alone.
#[verifier::external_body]
fn md5_compute(data: &[u8]) -> (r: [u8; 16])
    ensures
        r@ == md5_digest(data@),
{
    md5::compute(data).into()
}

/// A generator whose sixteen-byte state is replaced by its own MD5 digest on
/// every draw; a draw yields the new state read as a big-endian number.
pub struct MD5RNG {
    seed: [u8; 16],
}

impl MD5RNG {
    /// The current sixteen-byte state.
    pub closed spec fn state(&self) -> Seq<u8> {
        self.seed@
    }

    /// A generator whose state is the MD5 digest of `data`.
    pub fn get_generator(data: &mut [u8]) -> (g: MD5RNG)
        ensures
            final(data)@ == old(data)@,
            g.state() == md5_digest(old(data)@),
    {
        let seed = md5_compute(data);
        MD5RNG { seed: seed }
    }

    /// Replaces the state by its MD5 digest and returns the new state as a
    /// big-endian number (the digest is sixteen bytes, so it fits in `u128`).
    pub fn generate(&mut self) -> (r: u128)
        ensures
            final(self).state() == md5_digest(old(self).state()),
            final(self).state().len() == 16,
            r == be_value(final(self).state()),
    {
        self.seed = md5_compute(&self.seed);
        be_u128(&self.seed)
    }

    /// The current state.
    pub fn seed(&self) -> (s: [u8; 16])
        ensures
            s@ == self.state(),
    {
        self.seed
    }
}

} // verus!
