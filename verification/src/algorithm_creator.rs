//! Derivation of opcode tables and of VM programs from an MD5 generator.

use vstd::prelude::*;

use crate::bytes::{
    be_fixed, be_fixed_bytes, be_u128, be_value, copy_range, extend_bytes, law_be_fixed_value, reversed,
};
use crate::instructions::{imm16, instruction_len, well_formed_from};
use crate::rng::{md5_digest, MD5RNG};
use crate::tools::{biguint_into_u16, biguint_into_u32, biguint_into_u64, biguint_into_u8};

verus! {

/// The number of entries of an opcode table.
pub const AMOUNT_OF_INSTRUCTIONS: usize = 49;

/// The number of opcodes that programs are drawn from.
pub const AMOUNT_OF_EXE_INSTRUCTIONS: usize = 49;

/// The state of an MD5 generator after `k` draws from `seed`.
pub open spec fn md5_iter(seed: Seq<u8>, k: nat) -> Seq<u8>
    decreases k,
{
    if k == 0 {
        seed
    } else {
        md5_digest(md5_iter(seed, (k - 1) as nat))
    }
}

/// The opcode table of `codes`: entry `i` is `codes[i]` unless that code
/// already stands at an earlier entry, in which case it is 0.
pub open spec fn dedup_codes(codes: Seq<u16>, n: nat) -> Seq<u16>
    decreases n,
{
    if n == 0 {
        Seq::empty()
    } else {
        let p = dedup_codes(codes, (n - 1) as nat);
        if p.contains(codes[n - 1]) {
            p.push(0)
        } else {
            p.push(codes[n - 1])
        }
    }
}

/// The codes drawn for an opcode table from a generator in state `seed`: the
/// low 16 bits of each of 49 draws.
pub open spec fn table_codes(seed: Seq<u8>) -> Seq<u16> {
    Seq::new(49, |k: int| (be_value(md5_iter(seed, (k + 1) as nat)) % 0x1_0000) as u16)
}

/// The opcode table of `codes` (see [`dedup_codes`]).
pub fn lookup_table_from_codes(codes: &[u16; 49]) -> (r: [u16; 49])
    ensures
        r@ == dedup_codes(codes@, 49),
{
    let mut to_return: [u16; 49] = [0u16; 49];
    let mut instruction_number: usize = 0;
    while instruction_number < AMOUNT_OF_INSTRUCTIONS
        invariant
            instruction_number <= 49,
            to_return@.len() == 49,
            to_return@.subrange(0, instruction_number as int) == dedup_codes(
                codes@,
                instruction_number as nat,
            ),
            forall|j: int| instruction_number <= j < 49 ==> to_return@[j] == 0,
        decreases 49 - instruction_number,
    {
        let instruction_code = codes[instruction_number];
        let mut found = false;
        let mut i: usize = 0;
        while i < instruction_number
            invariant
                i <= instruction_number < 49,
                to_return@.len() == 49,
                found <==> to_return@.subrange(0, i as int).contains(instruction_code),
            decreases instruction_number - i,
        {
            if to_return[i] == instruction_code {
                found = true;
                assert(to_return@.subrange(0, i as int + 1)[i as int] == instruction_code);
            }
            assert(to_return@.subrange(0, i as int + 1) =~= to_return@.subrange(0, i as int).push(
                to_return@[i as int],
            ));
            i = i + 1;
        }
        let ghost prefix = to_return@.subrange(0, instruction_number as int);
        if !found {
            to_return[instruction_number] = instruction_code;
        }
        assert(to_return@.subrange(0, instruction_number as int + 1) =~= if prefix.contains(
            instruction_code,
        ) {
            prefix.push(0)
        } else {
            prefix.push(instruction_code)
        });
        instruction_number = instruction_number + 1;
    }
    assert(to_return@.subrange(0, 49) =~= to_return@);
    to_return
}

/// The opcode table derived from `seed`: the table of 49 codes drawn from an
/// MD5 generator seeded with `seed`.
pub fn generate_lookup_table(seed: &mut [u8]) -> (r: [u16; 49])
    ensures
        final(seed)@ == old(seed)@,
        r@ == dedup_codes(table_codes(md5_digest(old(seed)@)), 49),
{
    let mut rng = MD5RNG::get_generator(seed);
    let ghost s0 = rng.state();
    let mut codes: [u16; 49] = [0u16; 49];
    let mut k: usize = 0;
    while k < AMOUNT_OF_INSTRUCTIONS
        invariant
            k <= 49,
            codes@.len() == 49,
            rng.state() == md5_iter(s0, k as nat),
            forall|j: int| 0 <= j < k ==> codes@[j] == table_codes(s0)[j],
        decreases 49 - k,
    {
        let v = rng.generate();
        codes[k] = biguint_into_u16(v % 65536);
        k = k + 1;
    }
    assert(codes@ =~= table_codes(s0));
    lookup_table_from_codes(&codes)
}

/// No code stands twice in an opcode table, except 0.
pub proof fn law_table_entries_distinct(codes: Seq<u16>, n: nat)
    requires
        n <= codes.len(),
    ensures
        dedup_codes(codes, n).len() == n,
        forall|i: int, j: int|
            0 <= i < j < n ==> dedup_codes(codes, n)[j] == 0 || dedup_codes(codes, n)[i]
                != dedup_codes(codes, n)[j],
    decreases n,
{
    if n > 0 {
        law_table_entries_distinct(codes, (n - 1) as nat);
        let p = dedup_codes(codes, (n - 1) as nat);
        let t = dedup_codes(codes, n);
        assert forall|i: int, j: int| 0 <= i < j < n implies t[j] == 0 || t[i] != t[j] by {
            if j == n - 1 {
                if t[j] != 0 && t[i] == t[j] {
                    assert(p[i] == codes[n - 1]);
                    assert(p.contains(codes[n - 1]));
                }
            } else {
                assert(t[i] == p[i] && t[j] == p[j]);
            }
        }
    }
}

// ---------------------------------------------------------------------------
// Programs
// ---------------------------------------------------------------------------

/// The value of the next draw of a generator in state `seed`.
pub open spec fn draw(seed: Seq<u8>) -> nat {
    be_value(md5_digest(seed))
}

/// The `n` literal bytes of opcodes 0 and 1 drawn from a generator in state
/// `seed`: eight bytes per draw while at least eight are missing, then four,
/// two and one; each chunk is the big-endian low part of a draw. Also the
/// generator state afterwards.
pub open spec fn literal_data(seed: Seq<u8>, n: nat) -> (Seq<u8>, Seq<u8>)
    decreases n,
{
    if n == 0 {
        (Seq::empty(), seed)
    } else {
        let c: nat = if n >= 8 {
            8
        } else if n >= 4 {
            4
        } else if n >= 2 {
            2
        } else {
            1
        };
        let (rest, s2) = literal_data(md5_digest(seed), (n - c) as nat);
        (be_fixed(c, draw(seed)) + rest, s2)
    }
}

/// `x` reduced modulo 2^`usize::BITS`.
pub open spec fn wrap_usize(x: int) -> usize {
    (x % (usize::MAX + 1)) as usize
}

/// [`wrap_usize`] of a sum is `usize` wrapping addition.
pub proof fn lemma_wrap_add(x: usize, y: usize)
    ensures
        wrap_usize(x + y) == vstd::wrapping::usize_specs::wrapping_add(x, y),
{
    if x + y > usize::MAX {
        assert((x + y) % (usize::MAX + 1) == x + y - (usize::MAX + 1)) by (nonlinear_arith)
            requires
                usize::MAX < x + y <= 2 * usize::MAX,
        ;
    } else {
        assert((x + y) % (usize::MAX + 1) == x + y) by (nonlinear_arith)
            requires
                0 <= x + y <= usize::MAX,
        ;
    }
}

/// [`wrap_usize`] of a difference is `usize` wrapping subtraction.
pub proof fn lemma_wrap_sub(x: usize, y: usize)
    ensures
        wrap_usize(x - y) == vstd::wrapping::usize_specs::wrapping_sub(x, y),
{
    if x - y < 0 {
        assert((x - y) % (usize::MAX + 1) == x - y + (usize::MAX + 1)) by (nonlinear_arith)
            requires
                -usize::MAX <= x - y < 0,
        ;
    } else {
        assert((x - y) % (usize::MAX + 1) == x - y) by (nonlinear_arith)
            requires
                0 <= x - y <= usize::MAX,
        ;
    }
}

/// The state of a program derivation.
pub ghost struct CreatorState {
    /// The generator state.
    pub seed: Seq<u8>,
    /// The program so far.
    pub algorithm: Seq<u8>,
    /// The running block-size estimate (it wraps around).
    pub block_size: usize,
    /// The number of instructions emitted.
    pub instructions: nat,
    /// The number of literal instructions (opcodes 0 and 1) emitted.
    pub static_counter: nat,
    pub statics_amount: nat,
    pub statics_max_size: nat,
}

/// One round of program derivation. A draw modulo 49 picks an opcode:
/// literal opcodes 0 and 1 are skipped once `statics_amount` of them were
/// emitted, and opcodes 47 and 48 are always skipped; every other round
/// appends the opcode and its immediate bytes, counts the instruction and
/// updates the block-size estimate. `None` where the length of a literal
/// would be reduced modulo a zero `statics_max_size`.
pub open spec fn creator_step(v: CreatorState) -> Option<CreatorState> {
    let s1 = md5_digest(v.seed);
    let op = (be_value(s1) % 49) as u8;
    let s2 = md5_digest(s1);
    let d = draw(s1);
    if op <= 1 {
        if v.static_counter >= v.statics_amount {
            Some(CreatorState { seed: s1, ..v })
        } else if v.statics_max_size == 0 {
            None
        } else {
            let n = ((1 + (d % v.statics_max_size) % 0x1_0000) % 0x1_0000) as nat;
            let (data, s3) = literal_data(s2, n);
            Some(
                CreatorState {
                    seed: s3,
                    algorithm: v.algorithm + seq![op] + be_fixed(2, n) + data,
                    block_size: wrap_usize(v.block_size + n),
                    instructions: v.instructions + 1,
                    static_counter: v.static_counter + 1,
                    ..v
                },
            )
        }
    } else if op <= 5 {
        let n = (1 + d % 100) * 4;
        let q = n / 8;
        let min_amount = if q == 0 || q % 8 != 0 {
            q + 1
        } else {
            q
        };
        Some(
            CreatorState {
                seed: s2,
                algorithm: v.algorithm + seq![op] + be_fixed(2, n),
                block_size: wrap_usize(v.block_size - min_amount),
                instructions: v.instructions + 1,
                ..v
            },
        )
    } else if op <= 7 {
        let n = 1 + d % 100;
        Some(
            CreatorState {
                seed: s2,
                algorithm: v.algorithm + seq![op] + be_fixed(2, n),
                block_size: wrap_usize(v.block_size - n),
                instructions: v.instructions + 1,
                ..v
            },
        )
    } else if op <= 23 {
        let w: nat = if op <= 15 {
            4
        } else {
            8
        };
        let x = if op <= 15 {
            d % 0x1_0000_0000
        } else {
            d % 0x1_0000_0000_0000_0000
        };
        Some(
            CreatorState {
                seed: s2,
                algorithm: v.algorithm + seq![op] + be_fixed(w, x),
                block_size: wrap_usize(v.block_size - w),
                instructions: v.instructions + 1,
                ..v
            },
        )
    } else if op <= 35 {
        let shift = ((d % 256) % 16) as u8;
        let delta: int = if op <= 29 {
            -16
        } else if op <= 31 {
            -2
        } else if op <= 33 {
            (shift / 8) as int
        } else {
            -((shift / 8) as int)
        };
        Some(
            CreatorState {
                seed: if op <= 31 {
                    s1
                } else {
                    s2
                },
                algorithm: if op <= 31 {
                    v.algorithm + seq![op]
                } else {
                    v.algorithm + seq![op, shift]
                },
                block_size: wrap_usize(v.block_size + delta),
                instructions: v.instructions + 1,
                ..v
            },
        )
    } else if op <= 46 {
        let delta: int = if op <= 39 {
            -4
        } else if op <= 41 {
            -16
        } else if op <= 43 {
            -24
        } else if op <= 45 {
            -32
        } else {
            0
        };
        Some(
            CreatorState {
                seed: s1,
                algorithm: v.algorithm + seq![op],
                block_size: wrap_usize(v.block_size + delta),
                instructions: v.instructions + 1,
                ..v
            },
        )
    } else {
        Some(CreatorState { seed: s1, ..v })
    }
}

/// The value of a program's header, for a generator in state `seed`: the
/// smallest input size `min_block_size` plus the next draw modulo 1000,
/// modulo 2^64.
pub open spec fn header_value(seed: Seq<u8>, min_block_size: nat) -> nat {
    (min_block_size + draw(seed) % 1000) % 0x1_0000_0000_0000_0000
}

/// A program's header: [`header_value`] as eight little-endian bytes.
pub open spec fn header_bytes(seed: Seq<u8>, min_block_size: nat) -> Seq<u8> {
    be_fixed(8, header_value(seed, min_block_size)).reverse()
}

/// Read back as a little-endian number, the header gives its value.
pub proof fn law_header_value(seed: Seq<u8>, min_block_size: nat)
    ensures
        header_bytes(seed, min_block_size).len() == 8,
        be_value(header_bytes(seed, min_block_size).reverse()) == header_value(seed, min_block_size),
{
    let x = header_value(seed, min_block_size);
    law_be_fixed_value(8, x);
    assert(header_bytes(seed, min_block_size).reverse() =~= be_fixed(8, x));
    assert(crate::bytes::pow256(8) == 0x1_0000_0000_0000_0000) by {
        reveal_with_fuel(crate::bytes::pow256, 9);
    }
}

/// A program being derived (see [`creator_step`]).
pub struct AlgorithmCreator {
    rng: MD5RNG,
    algorithm: Vec<u8>,
    block_size: usize,
    instructions: usize,
    static_counter: usize,
    statics_amount: usize,
    statics_max_size: usize,
}

impl AlgorithmCreator {
    /// The state of the derivation.
    pub closed spec fn state(&self) -> CreatorState {
        CreatorState {
            seed: self.rng.state(),
            algorithm: self.algorithm@,
            block_size: self.block_size,
            instructions: self.instructions as nat,
            static_counter: self.static_counter as nat,
            statics_amount: self.statics_amount as nat,
            statics_max_size: self.statics_max_size as nat,
        }
    }

    /// Starts a derivation with a generator seeded with the MD5 digest of
    /// `seed` and an empty program.
    pub fn new(seed: &mut [u8], block_size: usize, statics_amount: usize, statics_max_size: usize) -> (c: AlgorithmCreator)
        ensures
            final(seed)@ == old(seed)@,
            c.state() == (CreatorState {
                seed: md5_digest(old(seed)@),
                algorithm: Seq::empty(),
                block_size,
                instructions: 0,
                static_counter: 0,
                statics_amount: statics_amount as nat,
                statics_max_size: statics_max_size as nat,
            }),
    {
        AlgorithmCreator {
            rng: MD5RNG::get_generator(seed),
            algorithm: Vec::new(),
            block_size,
            instructions: 0,
            static_counter: 0,
            statics_amount,
            statics_max_size,
        }
    }

    /// The number of instructions emitted so far.
    pub fn instructions(&self) -> (n: usize)
        ensures
            n == self.state().instructions,
    {
        self.instructions
    }

    /// The running block-size estimate.
    pub fn block_size(&self) -> (n: usize)
        ensures
            n == self.state().block_size,
    {
        self.block_size
    }

    /// The program so far.
    pub fn algorithm(&self) -> (a: Vec<u8>)
        ensures
            a@ == self.state().algorithm,
    {
        self.algorithm.clone()
    }

    /// Appends `n` literal bytes drawn from the generator (see
    /// [`literal_data`]).
    fn push_literal_data(&mut self, n: u16)
        ensures
            ({
                let (data, s) = literal_data(old(self).rng.state(), n as nat);
                &&& final(self).algorithm@ == old(self).algorithm@ + data
                &&& final(self).rng.state() == s
            }),
            final(self).block_size == old(self).block_size,
            final(self).instructions == old(self).instructions,
            final(self).static_counter == old(self).static_counter,
            final(self).statics_amount == old(self).statics_amount,
            final(self).statics_max_size == old(self).statics_max_size,
    {
        let ghost a0 = self.algorithm@;
        let ghost total = literal_data(self.rng.state(), n as nat);
        let mut left = n;
        while left > 0
            invariant
                self.algorithm@ + literal_data(self.rng.state(), left as nat).0 == a0 + total.0,
                literal_data(self.rng.state(), left as nat).1 == total.1,
                self.block_size == old(self).block_size,
                self.instructions == old(self).instructions,
                self.static_counter == old(self).static_counter,
                self.statics_amount == old(self).statics_amount,
                self.statics_max_size == old(self).statics_max_size,
            decreases left,
        {
            let c: u16 = if left >= 8 {
                8
            } else if left >= 4 {
                4
            } else if left >= 2 {
                2
            } else {
                1
            };
            let ghost before = self.algorithm@;
            let ghost st = self.rng.state();
            let v = self.rng.generate();
            let chunk = be_fixed_bytes(v, c as usize);
            extend_bytes(&mut self.algorithm, chunk.as_slice());
            left = left - c;
            assert(self.algorithm@ + literal_data(self.rng.state(), left as nat).0 =~= before + (
            be_fixed(c as nat, draw(st)) + literal_data(md5_digest(st), left as nat).0));
        }
        assert(self.algorithm@ + Seq::<u8>::empty() =~= self.algorithm@);
    }

    /// The round of [`creator_step`] for literal opcodes 0 and 1, after the
    /// opcode was drawn.
    fn emit_literal(&mut self, instruction: u8, Ghost(v): Ghost<CreatorState>) -> (r: Option<bool>)
        requires
            instruction <= 1,
            instruction == (be_value(md5_digest(v.seed)) % 49) as u8,
            old(self).state() == (CreatorState { seed: md5_digest(v.seed), ..v }),
            v.instructions < usize::MAX,
            v.static_counter <= v.statics_amount,
        ensures
            match creator_step(v) {
                None => r is None,
                Some(w) => {
                    &&& r == Some(w.instructions != v.instructions)
                    &&& final(self).state() == w
                },
            },
            final(self).state().static_counter <= final(self).state().statics_amount,
    {
        let ghost s1 = self.rng.state();
        if self.static_counter >= self.statics_amount {
            assert(self.state() == creator_step(v).unwrap());
            return Some(false);
        }
        if self.statics_max_size == 0 {
            return None;
        }
        self.static_counter = self.static_counter + 1;
        self.algorithm.push(instruction);
        let v2 = self.rng.generate();
        let n: u16 = biguint_into_u16(v2 % (self.statics_max_size as u128)).wrapping_add(1);
        assert(n as nat == ((1 + (draw(s1) % v.statics_max_size) % 0x1_0000) % 0x1_0000) as nat);
        proof {
            lemma_wrap_add(self.block_size, n as usize);
        }
        self.block_size = self.block_size.wrapping_add(n as usize);
        let nb = be_fixed_bytes(n as u128, 2);
        extend_bytes(&mut self.algorithm, nb.as_slice());
        self.push_literal_data(n);
        self.instructions = self.instructions + 1;
        assert(self.state().algorithm =~= creator_step(v).unwrap().algorithm);
        assert(self.state() == creator_step(v).unwrap());
        Some(true)
    }

    /// The round of [`creator_step`] for opcodes 2 to 23, which take immediate
    /// bytes, after the opcode was drawn.
    fn emit_immediate(&mut self, instruction: u8, Ghost(v): Ghost<CreatorState>) -> (r: Option<bool>)
        requires
            2 <= instruction <= 23,
            instruction == (be_value(md5_digest(v.seed)) % 49) as u8,
            old(self).state() == (CreatorState { seed: md5_digest(v.seed), ..v }),
            v.instructions < usize::MAX,
            v.static_counter <= v.statics_amount,
        ensures
            creator_step(v) == Some(final(self).state()),
            r == Some(true),
            final(self).state().instructions == v.instructions + 1,
    {
        let ghost s1 = self.rng.state();
        self.algorithm.push(instruction);
        let v2 = self.rng.generate();
        assert(v2 == draw(s1));
        if instruction <= 5 {
            let amount: u16 = 1 + biguint_into_u16(v2 % 100);
            let n: u16 = amount * 4;
            let nb = be_fixed_bytes(n as u128, 2);
            extend_bytes(&mut self.algorithm, nb.as_slice());
            let mut min_amount = n / 8;
            if min_amount == 0 || min_amount % 8 != 0 {
                min_amount = min_amount + 1;
            }
            proof {
                lemma_wrap_sub(self.block_size, min_amount as usize);
            }
            self.block_size = self.block_size.wrapping_sub(min_amount as usize);
        } else if instruction <= 7 {
            let n: u16 = 1 + biguint_into_u16(v2 % 100);
            let nb = be_fixed_bytes(n as u128, 2);
            extend_bytes(&mut self.algorithm, nb.as_slice());
            proof {
                lemma_wrap_sub(self.block_size, n as usize);
            }
            self.block_size = self.block_size.wrapping_sub(n as usize);
        } else if instruction <= 15 {
            let overflow_bytes = biguint_into_u32(v2);
            let b = be_fixed_bytes(overflow_bytes as u128, 4);
            extend_bytes(&mut self.algorithm, b.as_slice());
            proof {
                lemma_wrap_sub(self.block_size, 4);
            }
            self.block_size = self.block_size.wrapping_sub(4);
        } else {
            let overflow_bytes = biguint_into_u64(v2);
            let b = be_fixed_bytes(overflow_bytes as u128, 8);
            extend_bytes(&mut self.algorithm, b.as_slice());
            proof {
                lemma_wrap_sub(self.block_size, 8);
            }
            self.block_size = self.block_size.wrapping_sub(8);
        }
        self.instructions = self.instructions + 1;
        assert(self.state().algorithm =~= creator_step(v).unwrap().algorithm);
        Some(true)
    }

    /// The round of [`creator_step`] for opcodes 24 to 46, after the opcode
    /// was drawn.
    fn emit_plain(&mut self, instruction: u8, Ghost(v): Ghost<CreatorState>) -> (r: Option<bool>)
        requires
            24 <= instruction <= 46,
            instruction == (be_value(md5_digest(v.seed)) % 49) as u8,
            old(self).state() == (CreatorState { seed: md5_digest(v.seed), ..v }),
            v.instructions < usize::MAX,
            v.static_counter <= v.statics_amount,
        ensures
            creator_step(v) == Some(final(self).state()),
            r == Some(true),
            final(self).state().instructions == v.instructions + 1,
    {
        let ghost s1 = self.rng.state();
        self.algorithm.push(instruction);
        if instruction >= 32 && instruction <= 35 {
            let v2 = self.rng.generate();
            assert(v2 == draw(s1));
            let shift: u8 = biguint_into_u8(v2) % 16;
            self.algorithm.push(shift);
            if instruction <= 33 {
                proof {
                    lemma_wrap_add(self.block_size, (shift / 8) as usize);
                }
                self.block_size = self.block_size.wrapping_add((shift / 8) as usize);
            } else {
                proof {
                    lemma_wrap_sub(self.block_size, (shift / 8) as usize);
                }
                self.block_size = self.block_size.wrapping_sub((shift / 8) as usize);
            }
        } else {
            let d: usize = if instruction <= 29 {
                16
            } else if instruction <= 31 {
                2
            } else if instruction <= 39 {
                4
            } else if instruction <= 41 {
                16
            } else if instruction <= 43 {
                24
            } else if instruction <= 45 {
                32
            } else {
                0
            };
            proof {
                lemma_wrap_sub(self.block_size, d);
            }
            self.block_size = self.block_size.wrapping_sub(d);
        }
        self.instructions = self.instructions + 1;
        assert(self.state().algorithm =~= creator_step(v).unwrap().algorithm);
        Some(true)
    }

    /// One round of the derivation (see [`creator_step`]); returns whether an
    /// instruction was emitted. `None` where the length of a literal would be
    /// reduced modulo a zero `statics_max_size`.
    pub fn step(&mut self) -> (r: Option<bool>)
        requires
            old(self).state().instructions < usize::MAX,
            old(self).state().static_counter <= old(self).state().statics_amount,
        ensures
            match creator_step(old(self).state()) {
                None => r is None,
                Some(v) => {
                    &&& r == Some(v.instructions != old(self).state().instructions)
                    &&& final(self).state() == v
                },
            },
            final(self).state().static_counter <= final(self).state().statics_amount,
    {
        let ghost v = self.state();
        let v1 = self.rng.generate();
        let instruction = biguint_into_u8(v1 % (AMOUNT_OF_EXE_INSTRUCTIONS as u128));
        assert(instruction == (be_value(md5_digest(v.seed)) % 49) as u8);
        assert(self.state() == (CreatorState { seed: md5_digest(v.seed), ..v }));
        if instruction <= 1 {
            self.emit_literal(instruction, Ghost(v))
        } else if instruction <= 23 {
            self.emit_immediate(instruction, Ghost(v))
        } else if instruction <= 46 {
            self.emit_plain(instruction, Ghost(v))
        } else {
            Some(false)
        }
    }

    /// One round of a derivation towards `max` instructions with `rounds`
    /// rounds left (see [`derive`]); `false` where the round fails.
    fn derive_round(&mut self, max: usize, Ghost(rounds): Ghost<nat>) -> (ok: bool)
        requires
            old(self).state().instructions < max,
            rounds > 0,
            old(self).state().static_counter <= old(self).state().statics_amount,
        ensures
            ok ==> derive(final(self).state(), max as nat, (rounds - 1) as nat) == derive(
                old(self).state(),
                max as nat,
                rounds,
            ),
            ok ==> final(self).state().instructions <= max,
            ok ==> final(self).state().static_counter <= final(self).state().statics_amount,
            !ok ==> derive(old(self).state(), max as nat, rounds) is ZeroDivisor,
    {
        let ghost v = self.state();
        proof {
            lemma_creator_step_counts(v);
            lemma_derive_round(v, max as nat, rounds);
        }
        self.step().is_some()
    }

    /// Appends the header (see [`header_bytes`]), drawing once from the
    /// generator.
    pub fn push_header(&mut self, min_block_size: usize)
        ensures
            final(self).state() == (CreatorState {
                seed: md5_digest(old(self).state().seed),
                algorithm: old(self).state().algorithm + header_bytes(
                    old(self).state().seed,
                    min_block_size as nat,
                ),
                ..old(self).state()
            }),
    {
        let v = self.rng.generate();
        let h: u128 = (min_block_size as u128 + v % 1000) % 0x1_0000_0000_0000_0000u128;
        let be = be_fixed_bytes(h, 8);
        let le = reversed(be.as_slice());
        extend_bytes(&mut self.algorithm, le.as_slice());
    }

    /// The finished program: the program so far followed by opcodes 46 and 47.
    pub fn finish(self) -> (a: Vec<u8>)
        ensures
            a@ == self.state().algorithm + seq![46u8, 47u8],
    {
        let mut algorithm = self.algorithm;
        algorithm.push(46);
        algorithm.push(47);
        algorithm
    }
}


/// How a derivation of at most `rounds` rounds ends.
pub enum DeriveEnd {
    /// The program, with its closing opcodes 46 and 47.
    Done(Seq<u8>),
    /// A literal length would have been reduced modulo a zero
    /// `statics_max_size`.
    ZeroDivisor,
    /// The rounds ran out before enough instructions were emitted.
    Unfinished,
}

/// Runs [`creator_step`] from `v` until `max` instructions were emitted, for
/// at most `rounds` rounds.
#[verifier::opaque]
pub open spec fn derive(v: CreatorState, max: nat, rounds: nat) -> DeriveEnd
    decreases rounds,
{
    if v.instructions >= max {
        DeriveEnd::Done(v.algorithm + seq![46u8, 47u8])
    } else if rounds == 0 {
        DeriveEnd::Unfinished
    } else {
        match creator_step(v) {
            None => DeriveEnd::ZeroDivisor,
            Some(w) => derive(w, max, (rounds - 1) as nat),
        }
    }
}

/// The state a derivation from `seed` starts in, once the header is written.
pub open spec fn start_state(
    seed: Seq<u8>,
    block_size: usize,
    min_block_size: nat,
    statics_amount: nat,
    statics_max_size: nat,
) -> CreatorState {
    CreatorState {
        seed: md5_digest(md5_digest(seed)),
        algorithm: header_bytes(md5_digest(seed), min_block_size),
        block_size,
        instructions: 0,
        static_counter: 0,
        statics_amount,
        statics_max_size,
    }
}

/// A round emits at most one instruction, counts literals within their
/// allowance and keeps the derivation's limits.
pub proof fn lemma_creator_step_counts(v: CreatorState)
    requires
        v.static_counter <= v.statics_amount,
    ensures
        creator_step(v) matches Some(w) ==> {
            &&& w.instructions == v.instructions || w.instructions == v.instructions + 1
            &&& w.static_counter <= w.statics_amount
            &&& w.statics_amount == v.statics_amount
            &&& w.statics_max_size == v.statics_max_size
        },
{
}

/// A derivation that has emitted enough instructions is done.
pub proof fn lemma_derive_done(v: CreatorState, max: nat, rounds: nat)
    requires
        v.instructions >= max,
    ensures
        derive(v, max, rounds) == DeriveEnd::Done(v.algorithm + seq![46u8, 47u8]),
{
    reveal(derive);
}

/// A derivation that still lacks instructions takes one round, or ends where
/// there is none left or the round fails.
pub proof fn lemma_derive_round(v: CreatorState, max: nat, rounds: nat)
    requires
        v.instructions < max,
    ensures
        rounds == 0 ==> derive(v, max, rounds) is Unfinished,
        rounds > 0 && creator_step(v) is None ==> derive(v, max, rounds) is ZeroDivisor,
        rounds > 0 && creator_step(v) is Some ==> derive(v, max, rounds) == derive(
            creator_step(v).unwrap(),
            max,
            (rounds - 1) as nat,
        ),
{
    reveal(derive);
}

/// The literal data of `n` bytes is `n` bytes long.
proof fn lemma_literal_data_len(seed: Seq<u8>, n: nat)
    ensures
        literal_data(seed, n).0.len() == n,
    decreases n,
{
    if n > 0 {
        let c: nat = if n >= 8 {
            8
        } else if n >= 4 {
            4
        } else if n >= 2 {
            2
        } else {
            1
        };
        lemma_literal_data_len(md5_digest(seed), (n - c) as nat);
        law_be_fixed_value(c, draw(seed));
    }
}

/// Well-formed code stays well-formed behind any prefix.
proof fn lemma_well_formed_shift(d: Seq<u8>, c: Seq<u8>, j: int)
    requires
        well_formed_from(c, j),
    ensures
        well_formed_from(d + c, d.len() + j),
    decreases c.len() - j,
{
    let e = d + c;
    let k = d.len() + j;
    if j < c.len() {
        assert(e[k] == c[j]);
        if c[j] <= 1 {
            assert(e[k + 1] == c[j + 1] && e[k + 2] == c[j + 2]);
            assert(imm16(e, k + 1) == imm16(c, j + 1));
        }
        assert(instruction_len(e, k) == instruction_len(c, j));
        lemma_well_formed_shift(d, c, j + instruction_len(c, j));
    }
}

/// Appending well-formed code to code that is well-formed from `i` keeps it
/// well-formed from `i`.
proof fn lemma_well_formed_append(a: Seq<u8>, c: Seq<u8>, i: int)
    requires
        well_formed_from(a, i),
        well_formed_from(c, 0),
    ensures
        well_formed_from(a + c, i),
    decreases a.len() - i,
{
    let e = a + c;
    if i == a.len() {
        lemma_well_formed_shift(a, c, 0);
    } else {
        assert(e[i] == a[i]);
        if a[i] <= 1 {
            assert(e[i + 1] == a[i + 1] && e[i + 2] == a[i + 2]);
            assert(imm16(e, i + 1) == imm16(a, i + 1));
        }
        assert(instruction_len(e, i) == instruction_len(a, i));
        lemma_well_formed_append(a, c, i + instruction_len(a, i));
    }
}

/// A single instruction: an opcode followed by exactly its immediate bytes.
proof fn lemma_single_instruction(x: Seq<u8>)
    requires
        x.len() >= 1,
        x[0] <= 48,
        x[0] <= 1 ==> x.len() >= 3,
        instruction_len(x, 0) == x.len(),
    ensures
        well_formed_from(x, 0),
{
    assert(well_formed_from(x, x.len() as int));
}

/// The two bytes of `be_fixed(2, n)` read back as a 16-bit immediate give `n`.
proof fn lemma_imm16_of_be_fixed(op: u8, n: nat, rest: Seq<u8>)
    requires
        n < 0x1_0000,
    ensures
        imm16(seq![op] + be_fixed(2, n) + rest, 1) == n,
        be_fixed(2, n).len() == 2,
{
    let f = be_fixed(2, n);
    assert(f == be_fixed(1, n / 256).push((n % 256) as u8));
    assert(be_fixed(1, n / 256) == be_fixed(0, n / 256 / 256).push(((n / 256) % 256) as u8));
    assert(f =~= seq![((n / 256) % 256) as u8, (n % 256) as u8]);
    let x = seq![op] + f + rest;
    assert(x[1] == ((n / 256) % 256) as u8 && x[2] == (n % 256) as u8);
}

/// A round of the derivation appends whole instructions only: the program
/// so far stays a prefix, and whatever was well-formed from `i` stays so.
proof fn lemma_creator_step_well_formed(v: CreatorState, i: int)
    requires
        well_formed_from(v.algorithm, i),
    ensures
        creator_step(v) matches Some(w) ==> {
            &&& w.algorithm.len() >= v.algorithm.len()
            &&& w.algorithm.subrange(0, v.algorithm.len() as int) == v.algorithm
            &&& well_formed_from(w.algorithm, i)
        },
{
    let s1 = md5_digest(v.seed);
    let op = (be_value(s1) % 49) as u8;
    let s2 = md5_digest(s1);
    let d = draw(s1);
    let a = v.algorithm;
    if op <= 1 {
        if v.static_counter < v.statics_amount && v.statics_max_size != 0 {
            let n = ((1 + (d % v.statics_max_size) % 0x1_0000) % 0x1_0000) as nat;
            let (data, s3) = literal_data(s2, n);
            lemma_literal_data_len(s2, n);
            lemma_imm16_of_be_fixed(op, n, data);
            let x = seq![op] + be_fixed(2, n) + data;
            lemma_single_instruction(x);
            lemma_well_formed_append(a, x, i);
            assert(a + seq![op] + be_fixed(2, n) + data =~= a + x);
            assert((a + x).subrange(0, a.len() as int) =~= a);
        }
    } else if op <= 7 {
        let n: nat = if op <= 5 {
            (1 + d % 100) * 4
        } else {
            1 + d % 100
        };
        law_be_fixed_value(2, n);
        let x = seq![op] + be_fixed(2, n);
        lemma_single_instruction(x);
        lemma_well_formed_append(a, x, i);
        assert(a + seq![op] + be_fixed(2, n) =~= a + x);
        assert((a + x).subrange(0, a.len() as int) =~= a);
    } else if op <= 23 {
        let w: nat = if op <= 15 {
            4
        } else {
            8
        };
        let y = if op <= 15 {
            d % 0x1_0000_0000
        } else {
            d % 0x1_0000_0000_0000_0000
        };
        law_be_fixed_value(w, y);
        let x = seq![op] + be_fixed(w, y);
        lemma_single_instruction(x);
        lemma_well_formed_append(a, x, i);
        assert(a + seq![op] + be_fixed(w, y) =~= a + x);
        assert((a + x).subrange(0, a.len() as int) =~= a);
    } else if op <= 35 {
        let shift = ((d % 256) % 16) as u8;
        if op <= 31 {
            lemma_single_instruction(seq![op]);
            lemma_well_formed_append(a, seq![op], i);
            assert((a + seq![op]).subrange(0, a.len() as int) =~= a);
        } else {
            lemma_single_instruction(seq![op, shift]);
            lemma_well_formed_append(a, seq![op, shift], i);
            assert((a + seq![op, shift]).subrange(0, a.len() as int) =~= a);
        }
    } else if op <= 46 {
        lemma_single_instruction(seq![op]);
        lemma_well_formed_append(a, seq![op], i);
        assert((a + seq![op]).subrange(0, a.len() as int) =~= a);
    } else {
        assert(a.subrange(0, a.len() as int) =~= a);
    }
    if op <= 1 && !(v.static_counter < v.statics_amount && v.statics_max_size != 0) {
        assert(a.subrange(0, a.len() as int) =~= a);
    }
}

/// Every program a derivation produces starts with its header, followed by
/// a sequence of whole instructions with known opcodes, so the machine never
/// meets an unknown opcode in it.
pub proof fn law_derived_programs_are_well_formed(
    seed: Seq<u8>,
    block_size: usize,
    min_block_size: nat,
    statics_amount: nat,
    statics_max_size: nat,
    max: nat,
    rounds: nat,
)
    ensures
        derive(
            start_state(seed, block_size, min_block_size, statics_amount, statics_max_size),
            max,
            rounds,
        ) matches DeriveEnd::Done(a) ==> {
            &&& a.len() >= 8
            &&& a.subrange(0, 8) == header_bytes(md5_digest(seed), min_block_size)
            &&& well_formed_from(a, 8)
        },
{
    let v = start_state(seed, block_size, min_block_size, statics_amount, statics_max_size);
    law_header_value(md5_digest(seed), min_block_size);
    assert(well_formed_from(v.algorithm, 8));
    lemma_derive_well_formed(v, max, rounds, 8);
}

proof fn lemma_derive_well_formed(v: CreatorState, max: nat, rounds: nat, i: int)
    requires
        well_formed_from(v.algorithm, i),
    ensures
        derive(v, max, rounds) matches DeriveEnd::Done(a) ==> {
            &&& a.len() >= v.algorithm.len()
            &&& a.subrange(0, v.algorithm.len() as int) == v.algorithm
            &&& well_formed_from(a, i)
        },
    decreases rounds,
{
    reveal(derive);
    if v.instructions >= max {
        let tail = seq![46u8, 47u8];
        assert(well_formed_from(tail, 2));
        assert(well_formed_from(tail, 1));
        assert(well_formed_from(tail, 0));
        lemma_well_formed_append(v.algorithm, tail, i);
        assert((v.algorithm + tail).subrange(0, v.algorithm.len() as int) =~= v.algorithm);
    } else if rounds > 0 {
        lemma_creator_step_well_formed(v, i);
        match creator_step(v) {
            Some(w) => {
                lemma_derive_well_formed(w, max, (rounds - 1) as nat, i);
                match derive(w, max, (rounds - 1) as nat) {
                    DeriveEnd::Done(a) => {
                        assert(a.subrange(0, v.algorithm.len() as int) =~= a.subrange(
                            0,
                            w.algorithm.len() as int,
                        ).subrange(0, v.algorithm.len() as int));
                    },
                    _ => {},
                }
            },
            None => {},
        }
    }
}

/// Splits a program into the value of its header and the instructions after
/// it. `None` where it is shorter than the header.
pub fn split_algorithm(algorithm: &[u8]) -> (r: Option<(u64, Vec<u8>)>)
    ensures
        algorithm@.len() < 8 <==> r is None,
        r matches Some((m, p)) ==> {
            &&& m == be_value(algorithm@.subrange(0, 8).reverse())
            &&& p@ == algorithm@.subrange(8, algorithm@.len() as int)
        },
{
    if algorithm.len() < 8 {
        return None;
    }
    let head = copy_range(algorithm, 0, 8);
    let be = reversed(head.as_slice());
    let m = be_u128(be.as_slice());
    proof {
        crate::bytes::lemma_be_value_bound(be@);
        assert(crate::bytes::pow256(8) == 0x1_0000_0000_0000_0000) by {
            reveal_with_fuel(crate::bytes::pow256, 9);
        }
    }
    Some((m as u64, copy_range(algorithm, 8, algorithm.len())))
}

/// The error of a derivation that reduces a literal length modulo zero.
pub const ZERO_DIVISOR_MESSAGE: &'static str = "attempt to calculate the remainder with a divisor of zero";

/// The error of a derivation that ran out of rounds.
pub const UNFINISHED_MESSAGE: &'static str = "the derivation did not finish";

/// Derives a program from `seed`: the header (see [`header_bytes`]), then
/// `max_instructions` instructions (see [`creator_step`]), then opcodes 46 and
/// 47. The derivation is cut off after `u64::MAX` rounds.
pub fn create_algorithm(
    seed: &mut [u8],
    block_size: usize,
    min_block_size: usize,
    max_instructions: usize,
    statics_amount: usize,
    statics_max_size: usize,
) -> (r: Result<Vec<u8>, &'static str>)
    ensures
        final(seed)@ == old(seed)@,
        ({
            let end = derive(
                start_state(
                    old(seed)@,
                    block_size,
                    min_block_size as nat,
                    statics_amount as nat,
                    statics_max_size as nat,
                ),
                max_instructions as nat,
                u64::MAX as nat,
            );
            match r {
                Ok(a) => end == DeriveEnd::Done(a@),
                Err(e) => (end is ZeroDivisor && e == ZERO_DIVISOR_MESSAGE) || (end is Unfinished
                    && e == UNFINISHED_MESSAGE),
            }
        }),
{
    let ghost v0 = start_state(
        seed@,
        block_size,
        min_block_size as nat,
        statics_amount as nat,
        statics_max_size as nat,
    );
    let mut creator = AlgorithmCreator::new(seed, block_size, statics_amount, statics_max_size);
    creator.push_header(min_block_size);
    assert(creator.state().algorithm =~= v0.algorithm);
    let mut rounds: u64 = 0;
    proof {
        if max_instructions == 0 {
            lemma_derive_done(v0, 0, u64::MAX as nat);
        }
    }
    while creator.instructions() < max_instructions
        invariant
            derive(creator.state(), max_instructions as nat, (u64::MAX - rounds) as nat) == derive(
                v0,
                max_instructions as nat,
                u64::MAX as nat,
            ),
            creator.state().instructions <= max_instructions,
            creator.state().static_counter <= creator.state().statics_amount,
            seed@ == old(seed)@,
            v0 == start_state(
                old(seed)@,
                block_size,
                min_block_size as nat,
                statics_amount as nat,
                statics_max_size as nat,
            ),
        decreases u64::MAX - rounds,
    {
        if rounds == u64::MAX {
            proof {
                lemma_derive_round(creator.state(), max_instructions as nat, 0);
            }
            return Err(UNFINISHED_MESSAGE);
        }
        if !creator.derive_round(max_instructions, Ghost((u64::MAX - rounds) as nat)) {
            return Err(ZERO_DIVISOR_MESSAGE);
        }
        rounds = rounds + 1;
    }
    proof {
        lemma_derive_done(creator.state(), max_instructions as nat, (u64::MAX - rounds) as nat);
    }
    Ok(creator.finish())
}

} // verus!
