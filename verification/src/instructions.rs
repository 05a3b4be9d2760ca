//! The instruction set of the virtual machine.
//!
//! The machine works on a double-ended byte queue (the block) and reads its
//! program from a byte buffer. Each instruction is one opcode byte, possibly
//! followed by immediate bytes; instructions with an even opcode usually work
//! at the front of the block and their odd partner at the back.
//!
//! Where the program or the block is too short for an instruction, the
//! instruction faults (the block is then left in an unspecified state).
//! Arithmetic on machine words wraps, as in an optimized build.
//!
//! The floating-point instructions (opcodes 8 to 23) are not computed here:
//! executing one yields a [`FloatRequest`] with the operand bytes, and
//! [`complete_float`] finishes the instruction with the caller's result.

use std::collections::VecDeque;
use vstd::arithmetic::power2::pow2;
use vstd::prelude::*;

use crate::bignum::{
    abs,
    bigint_sub_be,
    biguint_mul_be,
    biguint_shl_be,
    biguint_shr_be,
    signed_value,
};
use crate::bytes::{
    lemma_be_value_append,
    lemma_be_value_bound,
    pow256,
    be_min,
    be_value,
    be_word,
    copy_range,
    extend_bytes,
    fit,
    fit_bytes,
    read_be_word,
    reversed,
    zero_bytes,
    zeros,
};
use crate::rng::{be_bytes_u32, transform_u32_to_array_of_u8};
use crate::cipher::{
    aes128_decrypt,
    aes128_decrypt_block,
    aes128_encrypt,
    aes128_encrypt_block,
    aes192_decrypt,
    aes192_decrypt_block,
    aes192_encrypt,
    aes192_encrypt_block,
    aes256_decrypt,
    aes256_decrypt_block,
    aes256_encrypt,
    aes256_encrypt_block,
};

verus! {

// ---------------------------------------------------------------------------
// Both ends of the block
// ---------------------------------------------------------------------------

/// The `n` bytes at the front (or back) end of `b`, in block order.
pub open spec fn end_bytes(b: Seq<u8>, front: bool, n: nat) -> Seq<u8> {
    if front {
        b.subrange(0, n as int)
    } else {
        b.subrange(b.len() - n, b.len() as int)
    }
}

/// `b` without the `n` bytes at its front (or back) end.
pub open spec fn without_end(b: Seq<u8>, front: bool, n: nat) -> Seq<u8> {
    if front {
        b.subrange(n as int, b.len() as int)
    } else {
        b.subrange(0, b.len() - n)
    }
}

/// `b` with `x` placed at its front (or back) end.
pub open spec fn with_end(b: Seq<u8>, front: bool, x: Seq<u8>) -> Seq<u8> {
    if front {
        x + b
    } else {
        b + x
    }
}

/// Removes the `n` bytes at one end of the block and returns them in block
/// order.
pub fn take_end(block: &mut VecDeque<u8>, front: bool, n: usize) -> (r: Vec<u8>)
    requires
        n <= old(block)@.len(),
    ensures
        r@ == end_bytes(old(block)@, front, n as nat),
        final(block)@ == without_end(old(block)@, front, n as nat),
{
    let ghost b = block@;
    let mut popped: Vec<u8> = Vec::new();
    let mut k: usize = 0;
    if front {
        while k < n
            invariant
                k <= n <= b.len(),
                popped@ == b.subrange(0, k as int),
                block@ == b.subrange(k as int, b.len() as int),
            decreases n - k,
        {
            let x = block.pop_front();
            match x {
                Some(v) => popped.push(v),
                None => {},
            }
            k = k + 1;
            assert(block@ =~= b.subrange(k as int, b.len() as int));
        }
        popped
    } else {
        while k < n
            invariant
                k <= n <= b.len(),
                popped@ == b.subrange(b.len() - k, b.len() as int).reverse(),
                block@ == b.subrange(0, b.len() - k),
            decreases n - k,
        {
            let x = block.pop_back();
            match x {
                Some(v) => popped.push(v),
                None => {},
            }
            k = k + 1;
            assert(block@ =~= b.subrange(0, b.len() - k));
            assert(popped@ =~= b.subrange(b.len() - k, b.len() as int).reverse());
        }
        let r = reversed(&popped);
        assert(r@ =~= b.subrange(b.len() - n, b.len() as int));
        r
    }
}

/// Places `x` at one end of the block, keeping its order.
pub fn put_end(block: &mut VecDeque<u8>, front: bool, x: &[u8])
    ensures
        final(block)@ == with_end(old(block)@, front, x@),
{
    let ghost b = block@;
    if front {
        let mut k: usize = x.len();
        while k > 0
            invariant
                k <= x@.len(),
                block@ == x@.subrange(k as int, x@.len() as int) + b,
            decreases k,
        {
            k = k - 1;
            block.push_front(x[k]);
            assert(block@ =~= x@.subrange(k as int, x@.len() as int) + b);
        }
        assert(x@.subrange(0, x@.len() as int) =~= x@);
    } else {
        let mut k: usize = 0;
        while k < x.len()
            invariant
                k <= x@.len(),
                block@ == b + x@.subrange(0, k as int),
            decreases x@.len() - k,
        {
            block.push_back(x[k]);
            k = k + 1;
            assert(block@ =~= b + x@.subrange(0, k as int));
        }
        assert(x@.subrange(0, k as int) =~= x@);
    }
}


// ---------------------------------------------------------------------------
// Outcomes of one instruction
// ---------------------------------------------------------------------------

/// The arithmetic of a floating-point instruction.
#[derive(Clone, Copy, PartialEq, Eq, Debug)]
pub enum FloatOp {
    Add,
    Mul,
    Sub,
    Div,
}

/// A floating-point operation that an instruction asks for.
pub ghost struct FloatCall {
    pub op: FloatOp,
    /// 4 for `f32`, 8 for `f64`.
    pub width: nat,
    pub front: bool,
    /// The big-endian bytes of the left operand.
    pub first: Seq<u8>,
    /// The big-endian bytes of the right operand.
    pub second: Seq<u8>,
}

/// What one instruction does.
pub ghost enum Effect {
    /// The instruction completed: the new block, the index of the next
    /// instruction and the word it appends to the digest state, if any.
    Next { block: Seq<u8>, index: int, word: Option<u32> },
    /// The instruction popped its operands (leaving `block`) and needs the
    /// result of a floating-point operation.
    Float { call: FloatCall, block: Seq<u8> },
    /// The program or the block is too short for the instruction.
    Fault,
    /// The opcode is not an instruction.
    Unknown,
}

/// The 16-bit big-endian immediate at `p[i..i + 2]`.
pub open spec fn imm16(p: Seq<u8>, i: int) -> int {
    p[i] as int * 256 + p[i + 1] as int
}

/// Opcodes 0 (`front == false`) and 1: a 16-bit length `n` and `n` literal
/// bytes follow the opcode; opcode 0 appends them to the block, opcode 1
/// pushes them one by one onto its front (so they end up reversed).
pub open spec fn eff_literal(b: Seq<u8>, p: Seq<u8>, i: int, front: bool) -> Effect {
    if i + 2 > p.len() {
        Effect::Fault
    } else {
        let n = imm16(p, i);
        if i + 2 + n > p.len() {
            Effect::Fault
        } else {
            let data = p.subrange(i + 2, i + 2 + n);
            Effect::Next {
                block: if front {
                    data.reverse() + b
                } else {
                    b + data
                },
                index: i + 2 + n,
                word: None,
            }
        }
    }
}

/// How the `n / 4` bytes popped by the integer instructions split into two
/// operands of `n / 8` bytes each: when `n` is not a multiple of 8 the byte in
/// the middle is shared, its high nibble ending the first operand and its low
/// nibble starting the second. `None` where the popped bytes do not suffice
/// (for `n` from 1 to 3).
pub open spec fn split_operands(pop: Seq<u8>, n: int) -> Option<(Seq<u8>, Seq<u8>)> {
    let q = n / 8;
    if n % 8 == 0 {
        Some((pop.subrange(0, q), pop.subrange(q, 2 * q)))
    } else if n < 4 {
        None
    } else {
        Some(
            (
                pop.subrange(0, q).push(pop[q] & 0xf0u8),
                seq![pop[q] & 0x0fu8] + pop.subrange(q + 1, q + 1 + (n - 4) / 8),
            ),
        )
    }
}

/// `s` shifted left by four bits as a big-endian number of the same length
/// (the top nibble is dropped).
pub open spec fn shifted_nibble(s: Seq<u8>) -> Seq<u8> {
    Seq::new(
        s.len(),
        |k: int|
            (((s[k] as nat * 16) % 256) + (if k + 1 < s.len() {
                s[k + 1] as nat / 16
            } else {
                0
            })) as u8,
    )
}

/// The second operand of opcodes 2 to 5 as it is used: as popped when `n` is
/// a multiple of 8; otherwise it starts with the low nibble of the shared
/// byte, and is shifted left by that nibble.
pub open spec fn second_operand(s: Seq<u8>, n: int) -> Seq<u8> {
    if n % 8 == 0 {
        s
    } else {
        shifted_nibble(s)
    }
}

/// Byte-wise addition of two big-endian numbers of the same length, with the
/// carry propagating from the last byte: the sum bytes and the final carry.
pub open spec fn add_digits(a: Seq<u8>, b: Seq<u8>) -> (Seq<u8>, nat)
    decreases a.len(),
{
    if a.len() == 0 || b.len() == 0 {
        (Seq::empty(), 0)
    } else {
        let (r, c) = add_digits(a.drop_first(), b.drop_first());
        let s = a[0] as nat + b[0] as nat + c;
        (seq![(s % 256) as u8] + r, s / 256)
    }
}

/// The sum of the last `l` bytes of `f` and of `s`, `l` being the shorter
/// length, without the final carry.
pub open spec fn low_sum(f: Seq<u8>, s: Seq<u8>) -> Seq<u8> {
    let l = if f.len() < s.len() {
        f.len()
    } else {
        s.len()
    };
    add_digits(f.subrange(f.len() - l, f.len() as int), s.subrange(s.len() - l, s.len() as int)).0
}

/// Opcodes 2 (front) and 3 (back): pops `n / 4` bytes, `n` being the 16-bit
/// immediate, splits them into two operands (see [`second_operand`]) and puts
/// their sum back at the same end.
pub open spec fn eff_int_add(b: Seq<u8>, p: Seq<u8>, i: int, front: bool) -> Effect {
    if i + 2 > p.len() {
        Effect::Fault
    } else {
        let n = imm16(p, i);
        let k = (n / 4) as nat;
        if k > b.len() {
            Effect::Fault
        } else {
            match split_operands(end_bytes(b, front, k), n) {
                None => Effect::Fault,
                Some((f, s)) => Effect::Next {
                    block: with_end(
                        without_end(b, front, k),
                        front,
                        low_sum(f, second_operand(s, n)),
                    ),
                    index: i + 2,
                    word: None,
                },
            }
        }
    }
}

/// The width of the result of opcodes 4 and 5: `n / 8` bytes, plus one when
/// that is zero or not a multiple of 8.
pub open spec fn difference_width(n: int) -> nat {
    let q = n / 8;
    if q == 0 || q % 8 != 0 {
        (q + 1) as nat
    } else {
        q as nat
    }
}

/// The value of a sign-magnitude operand: the top bit of the first byte is
/// the sign, the remaining bits the big-endian magnitude.
pub open spec fn sign_magnitude(x: Seq<u8>) -> int {
    signed_value(x[0] & 0x80u8 != 0, x.update(0, x[0] & 0x7fu8))
}

/// The result bytes of opcodes 4 and 5: the magnitude of `f - s` brought to
/// `width` bytes; when the magnitude fits, the top bit of the first byte is
/// set to the sign of the difference.
pub open spec fn signed_difference(f: Seq<u8>, s: Seq<u8>, width: nat) -> Seq<u8> {
    let d = sign_magnitude(f) - sign_magnitude(s);
    let mag = be_min(abs(d));
    let x = fit(mag, width);
    if mag.len() > width {
        x
    } else {
        x.update(
            0,
            if d < 0 {
                x[0] | 0x80u8
            } else {
                x[0] & 0x7fu8
            },
        )
    }
}

/// Opcodes 4 (front) and 5 (back): as opcodes 2 and 3, but the operands are
/// sign-magnitude numbers and their difference is put back.
pub open spec fn eff_int_sub(b: Seq<u8>, p: Seq<u8>, i: int, front: bool) -> Effect {
    if i + 2 > p.len() {
        Effect::Fault
    } else {
        let n = imm16(p, i);
        let k = (n / 4) as nat;
        if k > b.len() {
            Effect::Fault
        } else {
            match split_operands(end_bytes(b, front, k), n) {
                None => Effect::Fault,
                Some((f, s)) => if f.len() == 0 {
                    Effect::Fault
                } else {
                    Effect::Next {
                        block: with_end(
                            without_end(b, front, k),
                            front,
                            signed_difference(f, second_operand(s, n), difference_width(n)),
                        ),
                        index: i + 2,
                        word: None,
                    }
                },
            }
        }
    }
}

/// Opcodes 6 (front) and 7 (back): pops two unsigned big-endian operands of
/// `n` bytes each, `n` being the 16-bit immediate, and puts back their product
/// brought to `n` bytes.
pub open spec fn eff_int_mul(b: Seq<u8>, p: Seq<u8>, i: int, front: bool) -> Effect {
    if i + 2 > p.len() {
        Effect::Fault
    } else {
        let n = imm16(p, i) as nat;
        if 2 * n > b.len() {
            Effect::Fault
        } else {
            let ops = end_bytes(b, front, 2 * n);
            let product = be_value(ops.subrange(0, n as int)) * be_value(
                ops.subrange(n as int, 2 * n as int),
            );
            Effect::Next {
                block: with_end(without_end(b, front, 2 * n), front, fit(be_min(product), n)),
                index: i + 2,
                word: None,
            }
        }
    }
}

/// The operation of floating-point opcode `op` (8 to 23).
pub open spec fn float_op_of(op: u8) -> FloatOp {
    let k = (op % 8) / 2;
    if k == 0 {
        FloatOp::Add
    } else if k == 1 {
        FloatOp::Mul
    } else if k == 2 {
        FloatOp::Sub
    } else {
        FloatOp::Div
    }
}

/// Opcodes 8 to 15 (`f32`) and 16 to 23 (`f64`), even ones at the front:
/// pops two big-endian floating-point operands, the first one nearest to the
/// end, and asks for the result.
pub open spec fn eff_float(b: Seq<u8>, op: u8) -> Effect {
    let w: nat = if op < 16 {
        4
    } else {
        8
    };
    let front = op % 2 == 0;
    if 2 * w > b.len() {
        Effect::Fault
    } else {
        let ops = end_bytes(b, front, 2 * w);
        let near = if front {
            ops.subrange(0, w as int)
        } else {
            ops.subrange(w as int, 2 * w as int)
        };
        let far = if front {
            ops.subrange(w as int, 2 * w as int)
        } else {
            ops.subrange(0, w as int)
        };
        Effect::Float {
            call: FloatCall { op: float_op_of(op), width: w, front, first: near, second: far },
            block: without_end(b, front, 2 * w),
        }
    }
}

/// The completion of a floating-point instruction whose immediate starts at
/// `p[i]`: a result is put at the instruction's end of the block; without one
/// (the operation overflowed, underflowed or gave zero) the `width` immediate
/// bytes are put there instead. `None` where those bytes are missing.
pub open spec fn float_completion(
    rest: Seq<u8>,
    p: Seq<u8>,
    i: int,
    width: nat,
    front: bool,
    result: Option<Seq<u8>>,
) -> Option<(Seq<u8>, int)> {
    match result {
        Some(r) => Some((with_end(rest, front, r), i + width)),
        None => if i + width > p.len() {
            None
        } else {
            Some((with_end(rest, front, p.subrange(i, i + width)), i + width))
        },
    }
}

/// Byte-wise OR (`kind` 0), AND (1) or XOR (2) of two byte strings.
pub open spec fn combine(kind: int, x: Seq<u8>, y: Seq<u8>) -> Seq<u8> {
    Seq::new(
        x.len(),
        |k: int|
            if kind == 0 {
                x[k] | y[k]
            } else if kind == 1 {
                x[k] & y[k]
            } else {
                x[k] ^ y[k]
            },
    )
}

/// The 16-bit big-endian count at one end of the block, reduced modulo 16.
pub open spec fn small_count(b: Seq<u8>, front: bool) -> nat {
    be_value(end_bytes(b, front, 2)) % 16
}

/// Opcodes 24 to 29 (OR, AND, XOR; even ones at the front): pops a 16-bit
/// count, then two operands of `n` bytes each, `n` being one more than the
/// count modulo 16, and puts back their byte-wise combination.
pub open spec fn eff_bitwise(b: Seq<u8>, op: u8, i: int) -> Effect {
    let front = op % 2 == 0;
    if b.len() < 2 {
        Effect::Fault
    } else {
        let r = without_end(b, front, 2);
        let n = small_count(b, front) + 1;
        if 2 * n > r.len() {
            Effect::Fault
        } else {
            let ops = end_bytes(r, front, 2 * n);
            Effect::Next {
                block: with_end(
                    without_end(r, front, 2 * n),
                    front,
                    combine(
                        (op - 24) / 2,
                        ops.subrange(0, n as int),
                        ops.subrange(n as int, 2 * n as int),
                    ),
                ),
                index: i,
                word: None,
            }
        }
    }
}

/// The bytes of `x` complemented.
pub open spec fn complement(x: Seq<u8>) -> Seq<u8> {
    Seq::new(x.len(), |k: int| (255 - x[k]) as u8)
}

/// Opcodes 30 (front) and 31 (back): pops a 16-bit count, then `n` bytes, `n`
/// being one more than the count modulo 16, and puts them back complemented.
pub open spec fn eff_not(b: Seq<u8>, i: int, front: bool) -> Effect {
    if b.len() < 2 {
        Effect::Fault
    } else {
        let r = without_end(b, front, 2);
        let n = small_count(b, front) + 1;
        if n > r.len() {
            Effect::Fault
        } else {
            Effect::Next {
                block: with_end(without_end(r, front, n), front, complement(end_bytes(r, front, n))),
                index: i,
                word: None,
            }
        }
    }
}

/// Opcodes 32 to 35: pops a 16-bit count and `n` bytes (one more than the
/// count modulo 16); the byte after the opcode is the shift `s`. Opcodes 32
/// (front) and 33 (back) put back the operand's big-endian value shifted left
/// by `s` bits, opcodes 34 (front) and 35 (back) shifted right, as shortest
/// big-endian encodings.
pub open spec fn eff_shift(b: Seq<u8>, p: Seq<u8>, op: u8, i: int) -> Effect {
    let front = op % 2 == 0;
    if b.len() < 2 {
        Effect::Fault
    } else {
        let r = without_end(b, front, 2);
        let n = small_count(b, front) + 1;
        if n > r.len() || i >= p.len() {
            Effect::Fault
        } else {
            let s = p[i];
            let x = end_bytes(r, front, n);
            let result = if op < 34 {
                be_min(be_value(x) * pow2(s as nat))
            } else {
                be_min(be_value(x) / pow2(s as nat))
            };
            Effect::Next { block: with_end(without_end(r, front, n), front, result), index: i + 1, word: None }
        }
    }
}

/// Opcodes 36 to 39 (sum, sum, difference, difference; even ones at the front):
/// pops a 64-bit big-endian address, reduces it modulo the remaining length
/// minus 8, reads two big-endian words there and puts back the masked bytes of
/// their sum or difference modulo 2^32 as a big-endian word.
pub open spec fn eff_address(b: Seq<u8>, op: u8, i: int) -> Effect {
    let front = op % 2 == 0;
    if b.len() < 8 {
        Effect::Fault
    } else {
        let r = without_end(b, front, 8);
        if r.len() <= 8 {
            Effect::Fault
        } else {
            let a = (be_value(end_bytes(b, front, 8)) % (r.len() - 8) as nat) as int;
            let w1 = be_word(r, a);
            let w2 = be_word(r, a + 4);
            Effect::Next {
                block: with_end(r, front, be_bytes_u32(address_result(op, w1, w2))),
                index: i,
                word: None,
            }
        }
    }
}

/// The block cipher of opcode `op` (40 to 45) applied to `block` under `key`.
pub open spec fn cipher_of(op: u8, key: Seq<u8>, block: Seq<u8>) -> Seq<u8> {
    if op == 40 {
        aes128_encrypt(key, block)
    } else if op == 41 {
        aes128_decrypt(key, block)
    } else if op == 42 {
        aes192_encrypt(key, block)
    } else if op == 43 {
        aes192_decrypt(key, block)
    } else if op == 44 {
        aes256_encrypt(key, block)
    } else {
        aes256_decrypt(key, block)
    }
}

/// The key length of opcode `op` (40 to 45).
pub open spec fn key_len(op: u8) -> nat {
    if op < 42 {
        16
    } else if op < 44 {
        24
    } else {
        32
    }
}

/// Opcodes 40 to 45 (AES-128/192/256, encryption on even opcodes): pops the
/// key from the front and sixteen bytes from the back (which are discarded),
/// transforms an all-zero block under the key and pushes the result bytes onto
/// the front one by one (so they end up reversed).
pub open spec fn eff_cipher(b: Seq<u8>, op: u8, i: int) -> Effect {
    let k = key_len(op);
    if b.len() < k + 16 {
        Effect::Fault
    } else {
        Effect::Next {
            block: cipher_of(op, b.subrange(0, k as int), zeros(16)).reverse() + b.subrange(
                k as int,
                b.len() - 16,
            ),
            index: i,
            word: None,
        }
    }
}

/// Moves the last byte of `b` to its front.
pub open spec fn rotate_one(b: Seq<u8>) -> Seq<u8> {
    seq![b.last()] + b.drop_last()
}

/// Opcode 46: moves the last byte to the front, four times.
pub open spec fn eff_rotate(b: Seq<u8>, i: int) -> Effect {
    if b.len() == 0 {
        Effect::Fault
    } else {
        Effect::Next { block: rotate_one(rotate_one(rotate_one(rotate_one(b)))), index: i, word: None }
    }
}

/// Opcodes 47 (back) and 48 (front): pops four bytes and appends them to the
/// digest state as a big-endian word.
pub open spec fn eff_emit(b: Seq<u8>, i: int, front: bool) -> Effect {
    if b.len() < 4 {
        Effect::Fault
    } else {
        Effect::Next {
            block: without_end(b, front, 4),
            index: i,
            word: Some(
                if front {
                    be_word(b, 0)
                } else {
                    be_word(b, b.len() - 4)
                },
            ),
        }
    }
}

/// The instruction at `p[idx]` executed on the block `b`.
#[verifier::opaque]
pub open spec fn spec_step(b: Seq<u8>, p: Seq<u8>, idx: int) -> Effect
    recommends
        0 <= idx < p.len(),
{
    let op = p[idx];
    let i = idx + 1;
    if op <= 1 {
        eff_literal(b, p, i, op == 1)
    } else if op <= 3 {
        eff_int_add(b, p, i, op == 2)
    } else if op <= 5 {
        eff_int_sub(b, p, i, op == 4)
    } else if op <= 7 {
        eff_int_mul(b, p, i, op == 6)
    } else if op <= 23 {
        eff_float(b, op)
    } else if op <= 29 {
        eff_bitwise(b, op, i)
    } else if op <= 31 {
        eff_not(b, i, op == 30)
    } else if op <= 35 {
        eff_shift(b, p, op, i)
    } else if op <= 39 {
        eff_address(b, op, i)
    } else if op <= 45 {
        eff_cipher(b, op, i)
    } else if op == 46 {
        eff_rotate(b, i)
    } else if op <= 48 {
        eff_emit(b, i, op == 48)
    } else {
        Effect::Unknown
    }
}

// ---------------------------------------------------------------------------
// Execution
// ---------------------------------------------------------------------------

/// A floating-point operation that an instruction asks for (see
/// [`FloatCall`]).
pub struct FloatRequest {
    pub op: FloatOp,
    /// 4 for `f32`, 8 for `f64`.
    pub width: usize,
    pub front: bool,
    /// The big-endian bytes of the left operand.
    pub first: Vec<u8>,
    /// The big-endian bytes of the right operand.
    pub second: Vec<u8>,
}

/// The outcome of executing one instruction.
pub enum Step {
    /// Completed, possibly with a word for the digest state.
    Next(Option<u32>),
    /// Waiting for a floating-point result.
    Float(FloatRequest),
    /// The program or the block is too short for the instruction.
    Fault,
    /// The opcode is not an instruction.
    Unknown(u8),
}

/// A block being worked on and the position of the next instruction.
pub struct BlockRun {
    pub block: VecDeque<u8>,
    pub index: usize,
}

/// `r` (with the block left as `b2` and the index as `i2`) is the outcome `e`
/// of an instruction whose opcode was at `i - 1`.
pub open spec fn step_agrees(r: Step, e: Effect, b2: Seq<u8>, i2: int, i: int) -> bool {
    match e {
        Effect::Next { block, index, word } => r matches Step::Next(w) && w == word && b2 == block
            && i2 == index,
        Effect::Float { call, block } => r matches Step::Float(q) && q.op == call.op && q.width
            == call.width && q.front == call.front && q.first@ == call.first && q.second@
            == call.second && b2 == block && i2 == i,
        Effect::Fault => r is Fault,
        Effect::Unknown => r is Unknown,
    }
}

fn exec_literal(block: &mut VecDeque<u8>, prog: &[u8], i: usize, front: bool) -> (r: (Step, usize))
    ensures
        step_agrees(r.0, eff_literal(old(block)@, prog@, i as int, front), final(block)@, r.1 as int, i as int),
{
    if i >= prog.len() || prog.len() - i < 2 {
        return (Step::Fault, i);
    }
    let n = (prog[i] as usize) * 256 + prog[i + 1] as usize;
    if prog.len() - (i + 2) < n {
        return (Step::Fault, i);
    }
    let data = copy_range(prog, i + 2, i + 2 + n);
    if front {
        let rev = reversed(&data);
        put_end(block, true, &rev);
    } else {
        put_end(block, false, &data);
    }
    (Step::Next(None), i + 2 + n)
}

/// Splits popped bytes into the two operands of opcodes 2 to 5 (see
/// [`split_operands`]).
fn split_operands_exec(pop: &[u8], n: usize) -> (r: Option<(Vec<u8>, Vec<u8>)>)
    requires
        pop@.len() == n / 4,
    ensures
        match split_operands(pop@, n as int) {
            None => r is None,
            Some((f, s)) => r matches Some((rf, rs)) && rf@ == f && rs@ == s,
        },
{
    let q = n / 8;
    if n % 8 == 0 {
        Some((copy_range(pop, 0, q), copy_range(pop, q, 2 * q)))
    } else if n < 4 {
        None
    } else {
        let mut f = copy_range(pop, 0, q);
        f.push(pop[q] & 0xf0u8);
        let mut s: Vec<u8> = Vec::new();
        s.push(pop[q] & 0x0fu8);
        let tail = copy_range(pop, q + 1, q + 1 + (n - 4) / 8);
        extend_bytes(&mut s, &tail);
        assert(s@ =~= seq![pop@[q as int] & 0x0fu8] + pop@.subrange(
            q + 1,
            q + 1 + (n - 4) / 8,
        ));
        Some((f, s))
    }
}

/// Shifts `input_vector`, read as a big-endian number, left by four bits
/// within its length (the top nibble is dropped).
pub fn shift_4_bits_left_stricted(input_vector: &mut Vec<u8>)
    ensures
        final(input_vector)@ == shifted_nibble(old(input_vector)@),
{
    let ghost s = input_vector@;
    let len = input_vector.len();
    let mut carry: u8 = 0;
    let mut k: usize = len;
    while k > 0
        invariant
            len == s.len(),
            k <= len,
            input_vector@.len() == len,
            forall|j: int| 0 <= j < k ==> input_vector@[j] == s[j],
            forall|j: int| k <= j < len ==> input_vector@[j] == shifted_nibble(s)[j],
            carry == (if k < len {
                s[k as int] / 16
            } else {
                0
            }),
        decreases k,
    {
        k = k - 1;
        let b = input_vector[k];
        input_vector[k] = (b % 16) * 16 + carry;
        carry = b / 16;
    }
    assert(input_vector@ =~= shifted_nibble(s));
}

proof fn lemma_add_digits_unfold(a: Seq<u8>, b: Seq<u8>, j: int)
    requires
        a.len() == b.len(),
        0 <= j < a.len(),
    ensures
        ({
            let (r, c) = add_digits(a.subrange(j + 1, a.len() as int), b.subrange(j + 1, b.len() as int));
            let s = a[j] as nat + b[j] as nat + c;
            add_digits(a.subrange(j, a.len() as int), b.subrange(j, b.len() as int)) == (
                seq![(s % 256) as u8] + r,
                s / 256,
            )
        }),
{
    assert(a.subrange(j, a.len() as int).drop_first() =~= a.subrange(j + 1, a.len() as int));
    assert(b.subrange(j, b.len() as int).drop_first() =~= b.subrange(j + 1, b.len() as int));
}

/// Byte-wise addition with carry (see [`add_digits`]).
fn add_digits_exec(a: &[u8], b: &[u8]) -> (r: Vec<u8>)
    requires
        a@.len() == b@.len(),
    ensures
        r@ == add_digits(a@, b@).0,
{
    let len = a.len();
    let mut res: Vec<u8> = Vec::new();
    let mut carry: u16 = 0;
    let mut k: usize = 0;
    while k < len
        invariant
            len == a@.len() == b@.len(),
            k <= len,
            carry <= 1,
            res@.reverse() == add_digits(
                a@.subrange(len - k, len as int),
                b@.subrange(len - k, len as int),
            ).0,
            carry as nat == add_digits(
                a@.subrange(len - k, len as int),
                b@.subrange(len - k, len as int),
            ).1,
        decreases len - k,
    {
        let j = len - k - 1;
        proof {
            lemma_add_digits_unfold(a@, b@, j as int);
        }
        let s: u16 = a[j] as u16 + b[j] as u16 + carry;
        let ghost old_res = res@;
        res.push((s % 256) as u8);
        assert(res@.reverse() =~= seq![(s % 256) as u8] + old_res.reverse());
        carry = s / 256;
        k = k + 1;
    }
    assert(a@.subrange(0, len as int) =~= a@);
    assert(b@.subrange(0, len as int) =~= b@);
    reversed(&res)
}

/// The carry-less sum of the low bytes of two operands (see [`low_sum`]).
fn low_sum_exec(f: &[u8], s: &[u8]) -> (r: Vec<u8>)
    ensures
        r@ == low_sum(f@, s@),
{
    let l = if f.len() < s.len() {
        f.len()
    } else {
        s.len()
    };
    let fa = copy_range(f, f.len() - l, f.len());
    let sa = copy_range(s, s.len() - l, s.len());
    add_digits_exec(&fa, &sa)
}

fn exec_int_add(block: &mut VecDeque<u8>, prog: &[u8], i: usize, front: bool) -> (r: (Step, usize))
    ensures
        step_agrees(r.0, eff_int_add(old(block)@, prog@, i as int, front), final(block)@, r.1 as int, i as int),
{
    if i >= prog.len() || prog.len() - i < 2 {
        return (Step::Fault, i);
    }
    let n = (prog[i] as usize) * 256 + prog[i + 1] as usize;
    let k = n / 4;
    if k > block.len() {
        return (Step::Fault, i);
    }
    let pop = take_end(block, front, k);
    match split_operands_exec(&pop, n) {
        None => (Step::Fault, i),
        Some((f, s)) => {
            let mut s2 = s;
            if n % 8 != 0 {
                shift_4_bits_left_stricted(&mut s2);
            }
            let sum = low_sum_exec(&f, &s2);
            put_end(block, front, &sum);
            (Step::Next(None), i + 2)
        },
    }
}

fn exec_int_sub(block: &mut VecDeque<u8>, prog: &[u8], i: usize, front: bool) -> (r: (Step, usize))
    ensures
        step_agrees(r.0, eff_int_sub(old(block)@, prog@, i as int, front), final(block)@, r.1 as int, i as int),
{
    if i >= prog.len() || prog.len() - i < 2 {
        return (Step::Fault, i);
    }
    let n = (prog[i] as usize) * 256 + prog[i + 1] as usize;
    let k = n / 4;
    if k > block.len() {
        return (Step::Fault, i);
    }
    let pop = take_end(block, front, k);
    match split_operands_exec(&pop, n) {
        None => (Step::Fault, i),
        Some((f, s)) => {
            if f.len() == 0 {
                return (Step::Fault, i);
            }
            let mut s2 = s;
            if n % 8 != 0 {
                shift_4_bits_left_stricted(&mut s2);
            }
            let ghost fs = f@;
            let ghost ss = s2@;
            let mut fm = f;
            let f_negative = fm[0] & 0x80u8 != 0;
            fm[0] = fm[0] & 0x7fu8;
            let mut sm = s2;
            let s_negative = sm[0] & 0x80u8 != 0;
            sm[0] = sm[0] & 0x7fu8;
            assert(fm@ =~= fs.update(0, fs[0] & 0x7fu8));
            assert(sm@ =~= ss.update(0, ss[0] & 0x7fu8));
            let (negative, magnitude) = bigint_sub_be(f_negative, &fm, s_negative, &sm);
            let q = n / 8;
            let width = if q == 0 || q % 8 != 0 {
                q + 1
            } else {
                q
            };
            let mut x = fit_bytes(&magnitude, width);
            if magnitude.len() <= width {
                let top = x[0];
                x[0] = if negative {
                    top | 0x80u8
                } else {
                    top & 0x7fu8
                };
            }
            put_end(block, front, &x);
            (Step::Next(None), i + 2)
        },
    }
}

fn exec_int_mul(block: &mut VecDeque<u8>, prog: &[u8], i: usize, front: bool) -> (r: (Step, usize))
    ensures
        step_agrees(r.0, eff_int_mul(old(block)@, prog@, i as int, front), final(block)@, r.1 as int, i as int),
{
    if i >= prog.len() || prog.len() - i < 2 {
        return (Step::Fault, i);
    }
    let n = (prog[i] as usize) * 256 + prog[i + 1] as usize;
    if block.len() < 2 * n {
        return (Step::Fault, i);
    }
    let ops = take_end(block, front, 2 * n);
    let a = copy_range(&ops, 0, n);
    let b = copy_range(&ops, n, 2 * n);
    let product = biguint_mul_be(&a, &b);
    let x = fit_bytes(&product, n);
    put_end(block, front, &x);
    (Step::Next(None), i + 2)
}

fn exec_float(block: &mut VecDeque<u8>, op: u8, i: usize) -> (r: (Step, usize))
    requires
        8 <= op <= 23,
    ensures
        step_agrees(r.0, eff_float(old(block)@, op), final(block)@, r.1 as int, i as int),
{
    let w: usize = if op < 16 {
        4
    } else {
        8
    };
    let front = op % 2 == 0;
    if block.len() < 2 * w {
        return (Step::Fault, i);
    }
    let ops = take_end(block, front, 2 * w);
    let lower = copy_range(&ops, 0, w);
    let upper = copy_range(&ops, w, 2 * w);
    let k = (op % 8) / 2;
    let fop = if k == 0 {
        FloatOp::Add
    } else if k == 1 {
        FloatOp::Mul
    } else if k == 2 {
        FloatOp::Sub
    } else {
        FloatOp::Div
    };
    let request = if front {
        FloatRequest { op: fop, width: w, front, first: lower, second: upper }
    } else {
        FloatRequest { op: fop, width: w, front, first: upper, second: lower }
    };
    (Step::Float(request), i)
}

/// The view of an optional byte vector.
pub open spec fn opt_bytes(r: Option<Vec<u8>>) -> Option<Seq<u8>> {
    match r {
        Some(v) => Some(v@),
        None => None,
    }
}

/// Finishes a floating-point instruction with `result`, the big-endian bytes
/// of a finite non-zero result, or `None` where the operation overflowed,
/// underflowed or gave zero (the immediate bytes are then used). Returns
/// `false`, leaving `run` unchanged, where those bytes are missing.
pub fn complete_float(
    run: &mut BlockRun,
    buffer: &[u8],
    request: &FloatRequest,
    result: Option<Vec<u8>>,
) -> (ok: bool)
    requires
        old(run).index + request.width <= usize::MAX,
    ensures
        match float_completion(
            old(run).block@,
            buffer@,
            old(run).index as int,
            request.width as nat,
            request.front,
            opt_bytes(result),
        ) {
            Some((b, i)) => ok && final(run).block@ == b && final(run).index == i,
            None => !ok && final(run).block@ == old(run).block@ && final(run).index == old(run).index,
        },
{
    let i = run.index;
    let w = request.width;
    match result {
        Some(r) => {
            put_end(&mut run.block, request.front, &r);
        },
        None => {
            if i > buffer.len() || buffer.len() - i < w {
                return false;
            }
            let bytes = copy_range(buffer, i, i + w);
            put_end(&mut run.block, request.front, &bytes);
        },
    }
    run.index = i + w;
    true
}

fn combine_exec(kind: u8, x: &[u8], y: &[u8]) -> (r: Vec<u8>)
    requires
        x@.len() == y@.len(),
    ensures
        r@ == combine(kind as int, x@, y@),
{
    let mut r: Vec<u8> = Vec::new();
    let mut k: usize = 0;
    while k < x.len()
        invariant
            k <= x@.len() == y@.len(),
            r@ == combine(kind as int, x@, y@).subrange(0, k as int),
        decreases x@.len() - k,
    {
        let v = if kind == 0 {
            x[k] | y[k]
        } else if kind == 1 {
            x[k] & y[k]
        } else {
            x[k] ^ y[k]
        };
        r.push(v);
        k = k + 1;
        assert(r@ =~= combine(kind as int, x@, y@).subrange(0, k as int));
    }
    assert(combine(kind as int, x@, y@).subrange(0, k as int) =~= combine(kind as int, x@, y@));
    r
}

/// Pops the 16-bit count at one end and reduces it modulo 16.
fn pop_small_count(block: &mut VecDeque<u8>, front: bool) -> (c: usize)
    requires
        old(block)@.len() >= 2,
    ensures
        c == small_count(old(block)@, front),
        final(block)@ == without_end(old(block)@, front, 2),
{
    let h = take_end(block, front, 2);
    proof {
        reveal_with_fuel(be_value, 3);
        assert(h@.drop_last().drop_last() =~= Seq::<u8>::empty());
    }
    ((h[0] as usize) * 256 + h[1] as usize) % 16
}

fn exec_bitwise(block: &mut VecDeque<u8>, op: u8, i: usize) -> (r: (Step, usize))
    requires
        24 <= op <= 29,
    ensures
        step_agrees(r.0, eff_bitwise(old(block)@, op, i as int), final(block)@, r.1 as int, i as int),
{
    let front = op % 2 == 0;
    if block.len() < 2 {
        return (Step::Fault, i);
    }
    let n = pop_small_count(block, front) + 1;
    if block.len() < 2 * n {
        return (Step::Fault, i);
    }
    let ops = take_end(block, front, 2 * n);
    let x = copy_range(&ops, 0, n);
    let y = copy_range(&ops, n, 2 * n);
    let res = combine_exec((op - 24) / 2, &x, &y);
    put_end(block, front, &res);
    (Step::Next(None), i)
}

fn complement_exec(x: &[u8]) -> (r: Vec<u8>)
    ensures
        r@ == complement(x@),
{
    let mut r: Vec<u8> = Vec::new();
    let mut k: usize = 0;
    while k < x.len()
        invariant
            k <= x@.len(),
            r@ == complement(x@).subrange(0, k as int),
        decreases x@.len() - k,
    {
        r.push(255 - x[k]);
        k = k + 1;
        assert(r@ =~= complement(x@).subrange(0, k as int));
    }
    assert(complement(x@).subrange(0, k as int) =~= complement(x@));
    r
}

fn exec_not(block: &mut VecDeque<u8>, i: usize, front: bool) -> (r: (Step, usize))
    ensures
        step_agrees(r.0, eff_not(old(block)@, i as int, front), final(block)@, r.1 as int, i as int),
{
    if block.len() < 2 {
        return (Step::Fault, i);
    }
    let n = pop_small_count(block, front) + 1;
    if block.len() < n {
        return (Step::Fault, i);
    }
    let x = take_end(block, front, n);
    let res = complement_exec(&x);
    put_end(block, front, &res);
    (Step::Next(None), i)
}

fn exec_shift(block: &mut VecDeque<u8>, prog: &[u8], op: u8, i: usize) -> (r: (Step, usize))
    requires
        32 <= op <= 35,
    ensures
        step_agrees(r.0, eff_shift(old(block)@, prog@, op, i as int), final(block)@, r.1 as int, i as int),
{
    let front = op % 2 == 0;
    if block.len() < 2 {
        return (Step::Fault, i);
    }
    let n = pop_small_count(block, front) + 1;
    if block.len() < n || i >= prog.len() {
        return (Step::Fault, i);
    }
    let s = prog[i];
    let x = take_end(block, front, n);
    let result = if op < 34 {
        biguint_shl_be(&x, s)
    } else {
        biguint_shr_be(&x, s)
    };
    put_end(block, front, &result);
    (Step::Next(None), i + 1)
}

/// Reads the big-endian word at `block[i..i + 4]`.
fn deque_word(block: &VecDeque<u8>, i: usize) -> (w: u32)
    requires
        i + 4 <= block@.len(),
    ensures
        w == be_word(block@, i as int),
{
    let _len = block.len();
    (block[i] as u32) * 0x1000000 + (block[i + 1] as u32) * 0x10000 + (block[i + 2] as u32)
        * 0x100 + (block[i + 3] as u32)
}

/// The sum (opcodes 36, 37) or difference (38, 39) of two words modulo 2^32.
pub open spec fn address_result(op: u8, w1: u32, w2: u32) -> u32 {
    if op < 38 {
        ((w1 + w2) % 0x1_0000_0000) as u32
    } else {
        ((w1 - w2 + 0x1_0000_0000) % 0x1_0000_0000) as u32
    }
}

fn address_result_exec(op: u8, w1: u32, w2: u32) -> (r: u32)
    ensures
        r == address_result(op, w1, w2),
{
    if op < 38 {
        w1.wrapping_add(w2)
    } else {
        w1.wrapping_sub(w2)
    }
}

fn exec_address(block: &mut VecDeque<u8>, op: u8, i: usize) -> (r: (Step, usize))
    requires
        36 <= op <= 39,
    ensures
        step_agrees(r.0, eff_address(old(block)@, op, i as int), final(block)@, r.1 as int, i as int),
{
    let front = op % 2 == 0;
    if block.len() < 8 {
        return (Step::Fault, i);
    }
    let ghost b = block@;
    let a8 = take_end(block, front, 8);
    let ghost rest = block@;
    if block.len() <= 8 {
        return (Step::Fault, i);
    }
    let address = crate::bytes::be_u128(&a8);
    let a = (address % ((block.len() - 8) as u128)) as usize;
    assert(a as int == (be_value(end_bytes(b, front, 8)) % (rest.len() - 8) as nat) as int);
    let w1 = deque_word(block, a);
    let w2 = deque_word(block, a + 4);
    let res = address_result_exec(op, w1, w2);
    let bytes = transform_u32_to_array_of_u8(res);
    put_end(block, front, bytes.as_slice());
    proof {
        let e = eff_address(b, op, i as int);
        assert(e == Effect::Next { block: with_end(rest, front, be_bytes_u32(res)), index: i as int, word: None });
    }
    (Step::Next(None), i)
}

fn exec_cipher(block: &mut VecDeque<u8>, op: u8, i: usize) -> (r: (Step, usize))
    requires
        40 <= op <= 45,
    ensures
        step_agrees(r.0, eff_cipher(old(block)@, op, i as int), final(block)@, r.1 as int, i as int),
{
    let k: usize = if op < 42 {
        16
    } else if op < 44 {
        24
    } else {
        32
    };
    if block.len() < k + 16 {
        return (Step::Fault, i);
    }
    let ghost b = block@;
    let key = take_end(block, true, k);
    let _discarded = take_end(block, false, 16);
    assert(block@ =~= b.subrange(k as int, b.len() - 16));
    let zero = zero_bytes(16);
    let out = if op == 40 {
        aes128_encrypt_block(&key, &zero)
    } else if op == 41 {
        aes128_decrypt_block(&key, &zero)
    } else if op == 42 {
        aes192_encrypt_block(&key, &zero)
    } else if op == 43 {
        aes192_decrypt_block(&key, &zero)
    } else if op == 44 {
        aes256_encrypt_block(&key, &zero)
    } else {
        aes256_decrypt_block(&key, &zero)
    };
    place_cipher_output(block, &out);
    (Step::Next(None), i)
}

/// Pushes the sixteen output bytes of a cipher instruction onto the front of
/// the block one by one, so that they end up in reverse order.
pub fn place_cipher_output(block: &mut VecDeque<u8>, out: &[u8; 16])
    ensures
        final(block)@ == out@.reverse() + old(block)@,
{
    let rev = reversed(out.as_slice());
    put_end(block, true, &rev);
}

fn exec_rotate(block: &mut VecDeque<u8>, i: usize) -> (r: (Step, usize))
    ensures
        step_agrees(r.0, eff_rotate(old(block)@, i as int), final(block)@, r.1 as int, i as int),
{
    if block.len() == 0 {
        return (Step::Fault, i);
    }
    let ghost b = block@;
    let mut k: usize = 0;
    while k < 4
        invariant
            k <= 4,
            b.len() > 0,
            block@.len() == b.len(),
            k == 0 ==> block@ == b,
            k == 1 ==> block@ == rotate_one(b),
            k == 2 ==> block@ == rotate_one(rotate_one(b)),
            k == 3 ==> block@ == rotate_one(rotate_one(rotate_one(b))),
            k == 4 ==> block@ == rotate_one(rotate_one(rotate_one(rotate_one(b)))),
        decreases 4 - k,
    {
        let ghost before = block@;
        let x = block.pop_back();
        match x {
            Some(v) => block.push_front(v),
            None => {},
        }
        assert(block@ =~= rotate_one(before));
        k = k + 1;
    }
    (Step::Next(None), i)
}

fn exec_emit(block: &mut VecDeque<u8>, i: usize, front: bool) -> (r: (Step, usize))
    ensures
        step_agrees(r.0, eff_emit(old(block)@, i as int, front), final(block)@, r.1 as int, i as int),
{
    if block.len() < 4 {
        return (Step::Fault, i);
    }
    let bytes = take_end(block, front, 4);
    let w = read_be_word(&bytes, 0);
    (Step::Next(Some(w)), i)
}

/// Executes the instruction at `run.index` on `run.block`.
pub fn step(run: &mut BlockRun, buffer: &[u8]) -> (r: Step)
    requires
        old(run).index < buffer@.len(),
    ensures
        step_agrees(
            r,
            spec_step(old(run).block@, buffer@, old(run).index as int),
            final(run).block@,
            final(run).index as int,
            old(run).index + 1,
        ),
{
    reveal(spec_step);
    let op = buffer[run.index];
    let i = run.index + 1;
    let (r, next) = if op <= 1 {
        exec_literal(&mut run.block, buffer, i, op == 1)
    } else if op <= 3 {
        exec_int_add(&mut run.block, buffer, i, op == 2)
    } else if op <= 5 {
        exec_int_sub(&mut run.block, buffer, i, op == 4)
    } else if op <= 7 {
        exec_int_mul(&mut run.block, buffer, i, op == 6)
    } else if op <= 23 {
        exec_float(&mut run.block, op, i)
    } else if op <= 29 {
        exec_bitwise(&mut run.block, op, i)
    } else if op <= 31 {
        exec_not(&mut run.block, i, op == 30)
    } else if op <= 35 {
        exec_shift(&mut run.block, buffer, op, i)
    } else if op <= 39 {
        exec_address(&mut run.block, op, i)
    } else if op <= 45 {
        exec_cipher(&mut run.block, op, i)
    } else if op == 46 {
        exec_rotate(&mut run.block, i)
    } else if op <= 48 {
        exec_emit(&mut run.block, i, op == 48)
    } else {
        (Step::Unknown(op), i)
    };
    run.index = next;
    r
}

// ---------------------------------------------------------------------------
// Running a program on a block
// ---------------------------------------------------------------------------

/// Why a run of instructions stopped.
pub ghost enum RunEnd {
    /// The end of the program was reached or the block shrank to the minimum.
    Finished,
    /// A floating-point instruction is waiting for its result.
    Float(FloatCall),
    /// An instruction faulted.
    Fault,
    /// An opcode is not an instruction.
    Unknown,
}

/// The result of running instructions: the block and index where the run
/// stopped, the words emitted on the way, and why it stopped.
pub ghost struct RunSpec {
    pub block: Seq<u8>,
    pub index: int,
    pub words: Seq<u32>,
    pub end: RunEnd,
}

/// The word of an instruction as a sequence of zero or one words.
pub open spec fn word_seq(w: Option<u32>) -> Seq<u32> {
    match w {
        Some(x) => seq![x],
        None => Seq::empty(),
    }
}

/// Runs the program `p` from `idx` on block `b` until the index reaches the
/// end of the program or the block is no longer than `min`, stopping early at
/// a floating-point instruction, a fault or an unknown opcode.
pub open spec fn spec_run(b: Seq<u8>, idx: int, p: Seq<u8>, min: nat) -> RunSpec
    decreases p.len() - idx,
{
    if idx == p.len() || b.len() <= min {
        RunSpec { block: b, index: idx, words: Seq::empty(), end: RunEnd::Finished }
    } else if idx < 0 || idx > p.len() {
        RunSpec { block: b, index: idx, words: Seq::empty(), end: RunEnd::Fault }
    } else {
        match spec_step(b, p, idx) {
            Effect::Next { block, index, word } => if idx < index <= p.len() {
                let r = spec_run(block, index, p, min);
                RunSpec { words: word_seq(word) + r.words, ..r }
            } else {
                RunSpec { block: b, index: idx, words: Seq::empty(), end: RunEnd::Fault }
            },
            Effect::Float { call, block } => RunSpec {
                block,
                index: idx + 1,
                words: Seq::empty(),
                end: RunEnd::Float(call),
            },
            Effect::Fault => RunSpec {
                block: b,
                index: idx,
                words: Seq::empty(),
                end: RunEnd::Fault,
            },
            Effect::Unknown => RunSpec {
                block: b,
                index: idx,
                words: Seq::empty(),
                end: RunEnd::Unknown,
            },
        }
    }
}

/// An instruction that completes moves the index forward, and not past the end
/// of the program.
pub proof fn lemma_step_progress(b: Seq<u8>, p: Seq<u8>, idx: int)
    requires
        0 <= idx < p.len(),
    ensures
        spec_step(b, p, idx) matches Effect::Next { index, .. } ==> idx < index <= p.len(),
{
    reveal(spec_step);
}

/// Putting back at an end of the block the bytes taken from that end
/// restores the block.
pub proof fn law_put_back_taken(b: Seq<u8>, front: bool, n: nat)
    requires
        n <= b.len(),
    ensures
        with_end(without_end(b, front, n), front, end_bytes(b, front, n)) == b,
{
    assert(with_end(without_end(b, front, n), front, end_bytes(b, front, n)) =~= b);
}

/// On a block of at least four bytes, opcode 46 moves the last four bytes,
/// in order, to the front.
pub proof fn law_rotation_moves_last_four(b: Seq<u8>)
    requires
        b.len() >= 4,
    ensures
        rotate_one(rotate_one(rotate_one(rotate_one(b)))) == b.subrange(b.len() - 4, b.len() as int)
            + b.subrange(0, b.len() - 4),
{
    let n = b.len() as int;
    let r1 = rotate_one(b);
    assert(r1 =~= b.subrange(n - 1, n) + b.subrange(0, n - 1));
    let r2 = rotate_one(r1);
    assert(r2 =~= b.subrange(n - 2, n) + b.subrange(0, n - 2));
    let r3 = rotate_one(r2);
    assert(r3 =~= b.subrange(n - 3, n) + b.subrange(0, n - 3));
    let r4 = rotate_one(r3);
    assert(r4 =~= b.subrange(n - 4, n) + b.subrange(0, n - 4));
}

/// The sum bytes and the final carry of [`add_digits`] encode the sum of the
/// two operands: the bytes hold it modulo 256 to the power of the length, the
/// carry (0 or 1) the rest.
pub proof fn law_add_digits_value(a: Seq<u8>, b: Seq<u8>)
    requires
        a.len() == b.len(),
    ensures
        add_digits(a, b).0.len() == a.len(),
        add_digits(a, b).1 <= 1,
        be_value(add_digits(a, b).0) + add_digits(a, b).1 * pow256(a.len()) == be_value(a)
            + be_value(b),
    decreases a.len(),
{
    if a.len() > 0 {
        let a2 = a.drop_first();
        let b2 = b.drop_first();
        law_add_digits_value(a2, b2);
        let (r2, c2) = add_digits(a2, b2);
        let s = a[0] as nat + b[0] as nat + c2;
        let p = pow256(a2.len());
        assert(seq![a[0]] + a2 =~= a);
        assert(seq![b[0]] + b2 =~= b);
        lemma_be_value_append(seq![a[0]], a2);
        lemma_be_value_append(seq![b[0]], b2);
        lemma_be_value_append(seq![(s % 256) as u8], r2);
        lemma_be_value_single(a[0]);
        lemma_be_value_single(b[0]);
        lemma_be_value_single((s % 256) as u8);
        assert(pow256(a.len()) == 256 * p);
        assert((s % 256) * p + (s / 256) * (256 * p) == s * p) by (nonlinear_arith);
        assert(s * p == a[0] as nat * p + b[0] as nat * p + c2 * p) by (nonlinear_arith)
            requires
                s == a[0] as nat + b[0] as nat + c2,
        ;
    }
}

/// A single byte is worth its own value.
proof fn lemma_be_value_single(x: u8)
    ensures
        be_value(seq![x]) == x as nat,
{
    let s = seq![x];
    assert(s.drop_last() =~= Seq::<u8>::empty());
    assert(s.last() == x);
    assert(be_value(Seq::<u8>::empty()) == 0);
}

/// The result of opcodes 2 and 3: the last `l` bytes of both operands, `l`
/// being the shorter length, added modulo 256^`l`.
pub proof fn law_low_sum_value(f: Seq<u8>, s: Seq<u8>)
    ensures
        ({
            let l = if f.len() < s.len() {
                f.len()
            } else {
                s.len()
            };
            &&& low_sum(f, s).len() == l
            &&& be_value(low_sum(f, s)) == (be_value(f.subrange(f.len() - l, f.len() as int))
                + be_value(s.subrange(s.len() - l, s.len() as int))) % pow256(l)
        }),
{
    let l = if f.len() < s.len() {
        f.len()
    } else {
        s.len()
    };
    let fa = f.subrange(f.len() - l, f.len() as int);
    let sa = s.subrange(s.len() - l, s.len() as int);
    law_add_digits_value(fa, sa);
    let (r, c) = add_digits(fa, sa);
    lemma_be_value_bound(r);
    let p = pow256(l);
    assert((be_value(r) + c * p) % p == be_value(r)) by (nonlinear_arith)
        requires
            0 <= be_value(r) < p,
            c >= 0,
    ;
}

/// The length in bytes of the instruction at `p[idx]`, immediates included:
/// opcodes 0 and 1 carry a 16-bit length and that many literal bytes, 2 to 7
/// a 16-bit immediate, 8 to 15 four bytes, 16 to 23 eight bytes, 32 to 35 one
/// byte, the others none.
pub open spec fn instruction_len(p: Seq<u8>, idx: int) -> int {
    let op = p[idx];
    if op <= 1 {
        3 + imm16(p, idx + 1)
    } else if op <= 7 {
        3
    } else if op <= 15 {
        5
    } else if op <= 23 {
        9
    } else if op <= 31 {
        1
    } else if op <= 35 {
        2
    } else {
        1
    }
}

/// From `idx` on, `p` is a sequence of whole instructions with known opcodes.
pub open spec fn well_formed_from(p: Seq<u8>, idx: int) -> bool
    decreases p.len() - idx,
{
    if idx < 0 || idx > p.len() {
        false
    } else if idx == p.len() {
        true
    } else {
        let op = p[idx];
        &&& op <= 48
        &&& idx + 3 <= p.len() || op > 1
        &&& idx + instruction_len(p, idx) <= p.len()
        &&& well_formed_from(p, idx + instruction_len(p, idx))
    }
}

/// An instruction with a known opcode is never unknown; where it completes,
/// the index moves on by the instruction's length, and where it waits for a
/// floating-point result, completing it does so.
proof fn lemma_step_moves_by_instruction(b: Seq<u8>, p: Seq<u8>, idx: int)
    requires
        0 <= idx < p.len(),
        p[idx] <= 48,
        idx + 3 <= p.len() || p[idx] > 1,
    ensures
        !(spec_step(b, p, idx) is Unknown),
        spec_step(b, p, idx) matches Effect::Next { index, .. } ==> index == idx + instruction_len(
            p,
            idx,
        ),
        spec_step(b, p, idx) matches Effect::Float { call, .. } ==> idx + 1 + call.width
            == idx + instruction_len(p, idx),
{
    reveal(spec_step);
}

/// On a well-formed program the machine never meets an unknown opcode, and a
/// run interrupted by a floating-point instruction resumes, once the result is
/// supplied, at the start of the next whole instruction.
pub proof fn law_well_formed_programs_have_known_opcodes(b: Seq<u8>, idx: int, p: Seq<u8>, min: nat)
    requires
        well_formed_from(p, idx),
    ensures
        !(spec_run(b, idx, p, min).end is Unknown),
        spec_run(b, idx, p, min).end matches RunEnd::Float(call) ==> well_formed_from(
            p,
            spec_run(b, idx, p, min).index + call.width,
        ),
    decreases p.len() - idx,
{
    if idx == p.len() || b.len() <= min {
    } else {
        lemma_step_moves_by_instruction(b, p, idx);
        match spec_step(b, p, idx) {
            Effect::Next { block, index, word } => {
                if idx < index <= p.len() {
                    law_well_formed_programs_have_known_opcodes(block, index, p, min);
                }
            },
            _ => {},
        }
    }
}

/// Why [`VM::run_instructions`](crate::algorithm_processor::VM::run_instructions)
/// stopped.
pub enum Halt {
    /// The end of the program was reached or the block shrank to the minimum.
    Finished,
    /// A floating-point instruction is waiting for its result.
    Float(FloatRequest),
    /// An instruction faulted.
    Fault,
    /// This opcode is not an instruction.
    Unknown(u8),
}

/// `h` is the reason `end`.
pub open spec fn halt_agrees(h: Halt, end: RunEnd) -> bool {
    match end {
        RunEnd::Finished => h is Finished,
        RunEnd::Float(call) => h matches Halt::Float(q) && q.op == call.op && q.width == call.width
            && q.front == call.front && q.first@ == call.first && q.second@ == call.second,
        RunEnd::Fault => h is Fault,
        RunEnd::Unknown => h is Unknown,
    }
}

} // verus!
