//! What the integer, shift and address instructions compute, stated over the
//! bytes they read and write at either end of the block.
//!
//! Each law speaks of [`spec_step`], the effect that
//! [`step`](crate::instructions::step) is proved to have, in terms of
//! big-endian values of the bytes involved, read in block order.

use vstd::arithmetic::power2::pow2;
use vstd::prelude::*;

use crate::bytes::{be_value, law_be_min_roundtrip, law_fit_value, pow256};
use crate::instructions::{spec_step, Effect};

verus! {

/// Opcodes 6 (front) and 7 (back) multiply the two `n`-byte numbers at their
/// end of the block, `n` being the 16-bit big-endian immediate, the first one
/// being the one nearer to the start of the block, and put back the product
/// modulo 256^`n` as `n` big-endian bytes at the same end; the rest of the
/// block is kept. Where the block is shorter than `2 * n` they fault.
pub proof fn law_int_mul_value(b: Seq<u8>, p: Seq<u8>, idx: int)
    requires
        0 <= idx,
        idx + 3 <= p.len(),
        p[idx] == 6 || p[idx] == 7,
    ensures
        ({
            let n = p[idx + 1] as int * 256 + p[idx + 2] as int;
            let front = p[idx] == 6;
            let len = b.len() as int;
            let ops = if front {
                b.subrange(0, 2 * n)
            } else {
                b.subrange(len - 2 * n, len)
            };
            let rest = if front {
                b.subrange(2 * n, len)
            } else {
                b.subrange(0, len - 2 * n)
            };
            &&& 2 * n > len ==> spec_step(b, p, idx) is Fault
            &&& 2 * n <= len ==> {
                &&& spec_step(b, p, idx) matches Effect::Next { block, index, word }
                &&& index == idx + 3
                &&& word is None
                &&& block.len() == len - n
                &&& (if front {
                    block.subrange(n, block.len() as int)
                } else {
                    block.subrange(0, block.len() - n)
                }) == rest
                &&& be_value(
                    if front {
                        block.subrange(0, n)
                    } else {
                        block.subrange(block.len() - n, block.len() as int)
                    },
                ) == (be_value(ops.subrange(0, n)) * be_value(ops.subrange(n, 2 * n))) % pow256(
                    n as nat,
                )
            }
        }),
{
    lemma_step_mul(b, p, idx);
    let n = p[idx + 1] as int * 256 + p[idx + 2] as int;
    let front = p[idx] == 6;
    let len = b.len() as int;
    if 2 * n <= len {
        let ops = if front {
            b.subrange(0, 2 * n)
        } else {
            b.subrange(len - 2 * n, len)
        };
        let product = be_value(ops.subrange(0, n)) * be_value(ops.subrange(n, 2 * n));
        law_be_min_roundtrip(product);
        law_fit_value(crate::bytes::be_min(product), n as nat);
        match spec_step(b, p, idx) {
            Effect::Next { block, .. } => {
                let res = crate::bytes::fit(crate::bytes::be_min(product), n as nat);
                if front {
                    assert(block =~= res + b.subrange(2 * n, len));
                    assert(block.subrange(0, n) =~= res);
                    assert(block.subrange(n, block.len() as int) =~= b.subrange(2 * n, len));
                } else {
                    assert(block =~= b.subrange(0, len - 2 * n) + res);
                    assert(block.subrange(block.len() - n, block.len() as int) =~= res);
                    assert(block.subrange(0, block.len() - n) =~= b.subrange(0, len - 2 * n));
                }
            },
            _ => {},
        }
    }
}

/// Opcodes 32 (front) and 33 (back) shift left, 34 (front) and 35 (back)
/// shift right: at their end of the block they read a 16-bit big-endian count
/// (the two outermost bytes) and then the `n` bytes next to it, `n` being one
/// more than the count modulo 16, as a big-endian number in block order; the
/// byte after the opcode is the shift. They put back, at the same end, bytes
/// whose big-endian value is that number times (or divided by, rounding down)
/// 2 to the shift; the rest of the block is kept. Where the block holds fewer
/// than `2 + n` bytes they fault.
pub proof fn law_shift_value(b: Seq<u8>, p: Seq<u8>, idx: int)
    requires
        0 <= idx,
        idx + 2 <= p.len(),
        32 <= p[idx] <= 35,
    ensures
        ({
            let front = p[idx] % 2 == 0;
            let len = b.len() as int;
            let s = p[idx + 1];
            let count = if front {
                b.subrange(0, 2)
            } else {
                b.subrange(len - 2, len)
            };
            let n: int = (1 + be_value(count) % 16) as int;
            let x = if front {
                b.subrange(2, 2 + n)
            } else {
                b.subrange(len - 2 - n, len - 2)
            };
            let kept = if front {
                b.subrange(2 + n, len)
            } else {
                b.subrange(0, len - 2 - n)
            };
            let v = if p[idx] < 34 {
                be_value(x) * pow2(s as nat)
            } else {
                be_value(x) / pow2(s as nat)
            };
            &&& len < 2 ==> spec_step(b, p, idx) is Fault
            &&& 2 <= len < 2 + n ==> spec_step(b, p, idx) is Fault
            &&& len >= 2 + n ==> {
                &&& spec_step(b, p, idx) matches Effect::Next { block, index, word }
                &&& index == idx + 2
                &&& word is None
                &&& block.len() >= kept.len()
                &&& (if front {
                    block.subrange(block.len() - kept.len(), block.len() as int)
                } else {
                    block.subrange(0, kept.len() as int)
                }) == kept
                &&& be_value(
                    if front {
                        block.subrange(0, block.len() - kept.len())
                    } else {
                        block.subrange(kept.len() as int, block.len() as int)
                    },
                ) == v
            }
        }),
{
    lemma_step_shift(b, p, idx);
    let front = p[idx] % 2 == 0;
    let len = b.len() as int;
    if len >= 2 {
        let count = if front {
            b.subrange(0, 2)
        } else {
            b.subrange(len - 2, len)
        };
        let n: int = (1 + be_value(count) % 16) as int;
        if len >= 2 + n {
            let s = p[idx + 1];
            let x = if front {
                b.subrange(2, 2 + n)
            } else {
                b.subrange(len - 2 - n, len - 2)
            };
            let kept = if front {
                b.subrange(2 + n, len)
            } else {
                b.subrange(0, len - 2 - n)
            };
            let v = if p[idx] < 34 {
                be_value(x) * pow2(s as nat)
            } else {
                be_value(x) / pow2(s as nat)
            };
            law_be_min_roundtrip(v);
            let res = crate::bytes::be_min(v);
            let r = if front {
                b.subrange(2, len)
            } else {
                b.subrange(0, len - 2)
            };
            if front {
                assert(crate::instructions::end_bytes(b, front, 2) =~= count);
                assert(crate::instructions::end_bytes(r, front, n as nat) =~= x);
                assert(crate::instructions::without_end(r, front, n as nat) =~= kept);
            } else {
                assert(crate::instructions::end_bytes(b, front, 2) =~= count);
                assert(crate::instructions::end_bytes(r, front, n as nat) =~= x);
                assert(crate::instructions::without_end(r, front, n as nat) =~= kept);
            }
            match spec_step(b, p, idx) {
                Effect::Next { block, .. } => {
                    if front {
                        assert(block =~= res + kept);
                        assert(block.subrange(block.len() - kept.len(), block.len() as int) =~= kept);
                        assert(block.subrange(0, block.len() - kept.len()) =~= res);
                    } else {
                        assert(block =~= kept + res);
                        assert(block.subrange(0, kept.len() as int) =~= kept);
                        assert(block.subrange(kept.len() as int, block.len() as int) =~= res);
                    }
                },
                _ => {},
            }
        } else {
            if front {
                assert(crate::instructions::end_bytes(b, front, 2) =~= count);
            } else {
                assert(crate::instructions::end_bytes(b, front, 2) =~= count);
            }
        }
    }
}

/// The four big-endian bytes of a word are worth the word.
pub proof fn lemma_be_bytes_u32_value(x: u32)
    ensures
        be_value(crate::rng::be_bytes_u32(x)) == x,
        crate::rng::be_bytes_u32(x).len() == 4,
{
    let s = crate::rng::be_bytes_u32(x);
    let b0 = ((x >> 24u32) & 0xff) as u8;
    let b1 = ((x >> 16u32) & 0xff) as u8;
    let b2 = ((x >> 8u32) & 0xff) as u8;
    let b3 = (x & 0xff) as u8;
    assert(s =~= seq![b0, b1, b2, b3]);
    lemma_be_value_4(b0, b1, b2, b3);
    assert((((x >> 24u32) & 0xff) as u8) as u32 == ((x >> 24u32) & 0xff)) by (bit_vector);
    assert((((x >> 16u32) & 0xff) as u8) as u32 == ((x >> 16u32) & 0xff)) by (bit_vector);
    assert((((x >> 8u32) & 0xff) as u8) as u32 == ((x >> 8u32) & 0xff)) by (bit_vector);
    assert(((x & 0xff) as u8) as u32 == (x & 0xff)) by (bit_vector);
    assert(((x >> 24u32) & 0xff) * 0x1000000 + ((x >> 16u32) & 0xff) * 0x10000 + ((x >> 8u32)
        & 0xff) * 0x100 + (x & 0xff) == x) by (bit_vector);
}

/// The value of four bytes.
proof fn lemma_be_value_4(b0: u8, b1: u8, b2: u8, b3: u8)
    ensures
        be_value(seq![b0, b1, b2, b3]) == b0 as nat * 0x1000000 + b1 as nat * 0x10000 + b2 as nat
            * 0x100 + b3 as nat,
{
    let s = seq![b0, b1, b2, b3];
    assert(s.drop_last() =~= seq![b0, b1, b2]);
    assert(s.drop_last().drop_last() =~= seq![b0, b1]);
    assert(s.drop_last().drop_last().drop_last() =~= seq![b0]);
    assert(s.drop_last().drop_last().drop_last().drop_last() =~= Seq::<u8>::empty());
    assert(seq![b0].drop_last() =~= Seq::<u8>::empty());
    assert(be_value(Seq::<u8>::empty()) == 0);
    assert(seq![b0].last() == b0);
    assert(be_value(seq![b0]) == b0 as nat);
    assert(seq![b0, b1].drop_last() =~= seq![b0]);
    assert(seq![b0, b1, b2].drop_last() =~= seq![b0, b1]);
    assert(be_value(seq![b0, b1]) == b0 as nat * 256 + b1 as nat);
    assert(be_value(seq![b0, b1, b2]) == (b0 as nat * 256 + b1 as nat) * 256 + b2 as nat);
    assert(be_value(s) == ((b0 as nat * 256 + b1 as nat) * 256 + b2 as nat) * 256 + b3 as nat);
    assert(((b0 as nat * 256 + b1 as nat) * 256 + b2 as nat) * 256 + b3 as nat == b0 as nat
        * 0x1000000 + b1 as nat * 0x10000 + b2 as nat * 0x100 + b3 as nat) by (nonlinear_arith);
}

/// The value of the four bytes `r[a..a + 4]`, most significant first.
pub open spec fn word_at(r: Seq<u8>, a: int) -> nat {
    be_value(r.subrange(a, a + 4))
}

/// Opcodes 36 to 39 (even ones at the front): at their end of the block they
/// read an address, the big-endian value of the eight outermost bytes in
/// block order; of the remaining block `r` they read the two big-endian words
/// at offsets `A` and `A + 4`, `A` being the address modulo `|r| - 8`; they
/// put back, at the same end, four bytes whose big-endian value is the sum
/// (36, 37) or the difference (38, 39) of those words modulo 2^32. The words
/// stay where they are. Where at most sixteen bytes are there, they fault.
pub proof fn law_address_value(b: Seq<u8>, p: Seq<u8>, idx: int)
    requires
        0 <= idx < p.len(),
        36 <= p[idx] <= 39,
    ensures
        ({
            let front = p[idx] % 2 == 0;
            let len = b.len() as int;
            let addr = if front {
                b.subrange(0, 8)
            } else {
                b.subrange(len - 8, len)
            };
            let r = if front {
                b.subrange(8, len)
            } else {
                b.subrange(0, len - 8)
            };
            let a = (be_value(addr) % (len - 16) as nat) as int;
            let w1 = word_at(r, a);
            let w2 = word_at(r, a + 4);
            let v: int = if p[idx] < 38 {
                ((w1 + w2) % 0x1_0000_0000) as int
            } else {
                (w1 + 0x1_0000_0000 - w2) % 0x1_0000_0000
            };
            &&& len <= 16 ==> spec_step(b, p, idx) is Fault
            &&& len > 16 ==> {
                &&& spec_step(b, p, idx) matches Effect::Next { block, index, word }
                &&& index == idx + 1
                &&& word is None
                &&& block.len() == len - 4
                &&& (if front {
                    block.subrange(4, block.len() as int)
                } else {
                    block.subrange(0, block.len() - 4)
                }) == r
                &&& be_value(
                    if front {
                        block.subrange(0, 4)
                    } else {
                        block.subrange(block.len() - 4, block.len() as int)
                    },
                ) == v
            }
        }),
{
    lemma_step_address(b, p, idx);
    let front = p[idx] % 2 == 0;
    let len = b.len() as int;
    if len > 16 {
        let addr = if front {
            b.subrange(0, 8)
        } else {
            b.subrange(len - 8, len)
        };
        let r = if front {
            b.subrange(8, len)
        } else {
            b.subrange(0, len - 8)
        };
        assert(crate::instructions::end_bytes(b, front, 8) =~= addr);
        assert(crate::instructions::without_end(b, front, 8) =~= r);
        let a = (be_value(addr) % (len - 16) as nat) as int;
        lemma_word_at(r, a);
        lemma_word_at(r, a + 4);
        let w1 = crate::bytes::be_word(r, a);
        let w2 = crate::bytes::be_word(r, a + 4);
        let res = crate::instructions::address_result(p[idx], w1, w2);
        lemma_be_bytes_u32_value(res);
        let bytes = crate::rng::be_bytes_u32(res);
        match spec_step(b, p, idx) {
            Effect::Next { block, .. } => {
                if front {
                    assert(block =~= bytes + r);
                    assert(block.subrange(0, 4) =~= bytes);
                    assert(block.subrange(4, block.len() as int) =~= r);
                } else {
                    assert(block =~= r + bytes);
                    assert(block.subrange(block.len() - 4, block.len() as int) =~= bytes);
                    assert(block.subrange(0, block.len() - 4) =~= r);
                }
            },
            _ => {},
        }
    }
}

/// [`word_at`] is the machine's big-endian word.
pub proof fn lemma_word_at(r: Seq<u8>, a: int)
    requires
        0 <= a,
        a + 4 <= r.len(),
    ensures
        word_at(r, a) == crate::bytes::be_word(r, a),
        word_at(r, a) < 0x1_0000_0000,
{
    let s = r.subrange(a, a + 4);
    assert(s.drop_last().drop_last().drop_last().drop_last() =~= Seq::<u8>::empty());
    reveal_with_fuel(be_value, 5);
    assert(s[0] == r[a] && s[1] == r[a + 1] && s[2] == r[a + 2] && s[3] == r[a + 3]);
}

/// Opcodes 3 and 5 are opcodes 2 and 4 seen from the back: for the same
/// immediate `N` and the same `N / 4` operand bytes `ops` in block order,
/// opcode 3 (5) on `x + ops` succeeds exactly when opcode 2 (4) on `ops + y`
/// does, and then leaves `x + R` where opcode 2 (4) leaves `R + y`.
pub proof fn law_int_add_sub_mirror(x: Seq<u8>, y: Seq<u8>, ops: Seq<u8>, code: u8, hi: u8, lo: u8)
    requires
        code == 2 || code == 4,
        ops.len() == (hi as int * 256 + lo as int) / 4,
    ensures
        ({
            let f = spec_step(ops + y, seq![code, hi, lo], 0);
            let g = spec_step(x + ops, seq![(code + 1) as u8, hi, lo], 0);
            &&& (f is Next <==> g is Next)
            &&& f matches Effect::Next { block: bf, index: fi, word: fw } ==> {
                &&& g matches Effect::Next { block: bg, index: gi, word: gw }
                &&& gi == fi
                &&& gw == fw
                &&& bf.len() >= y.len()
                &&& bf.subrange(bf.len() - y.len(), bf.len() as int) == y
                &&& bg == x + bf.subrange(0, bf.len() - y.len())
            }
        }),
{
    let pf = seq![code, hi, lo];
    let pg = seq![(code + 1) as u8, hi, lo];
    lemma_step_int(ops + y, pf, 0);
    lemma_step_int(x + ops, pg, 0);
    if code == 2 {
        lemma_add_mirror(x, y, ops, pf, pg);
    } else {
        lemma_sub_mirror(x, y, ops, pf, pg);
    }
}

/// The common shape of the two mirror lemmas: two effects that are the same
/// result `r` put at the front of `y` and at the back of `x`.
spec fn mirrored(f: Effect, g: Effect, x: Seq<u8>, y: Seq<u8>) -> bool {
    &&& (f is Next <==> g is Next)
    &&& f matches Effect::Next { block: bf, index: fi, word: fw } ==> {
        &&& g matches Effect::Next { block: bg, index: gi, word: gw }
        &&& gi == fi
        &&& gw == fw
        &&& bf.len() >= y.len()
        &&& bf.subrange(bf.len() - y.len(), bf.len() as int) == y
        &&& bg == x + bf.subrange(0, bf.len() - y.len())
    }
}

proof fn lemma_mirrored_result(x: Seq<u8>, y: Seq<u8>, r: Seq<u8>)
    ensures
        (r + y).len() >= y.len(),
        (r + y).subrange((r + y).len() - y.len(), (r + y).len() as int) == y,
        x + r == x + (r + y).subrange(0, (r + y).len() - y.len()),
{
    assert((r + y).subrange((r + y).len() - y.len(), (r + y).len() as int) =~= y);
    assert((r + y).subrange(0, (r + y).len() - y.len()) =~= r);
}

proof fn lemma_add_mirror(x: Seq<u8>, y: Seq<u8>, ops: Seq<u8>, pf: Seq<u8>, pg: Seq<u8>)
    requires
        pf.len() == 3,
        pg.len() == 3,
        pf[1] == pg[1],
        pf[2] == pg[2],
        ops.len() == crate::instructions::imm16(pf, 1) / 4,
    ensures
        mirrored(
            crate::instructions::eff_int_add(ops + y, pf, 1, true),
            crate::instructions::eff_int_add(x + ops, pg, 1, false),
            x,
            y,
        ),
{
    let k = ops.len();
    assert(crate::instructions::end_bytes(ops + y, true, k) =~= ops);
    assert(crate::instructions::without_end(ops + y, true, k) =~= y);
    assert(crate::instructions::end_bytes(x + ops, false, k) =~= ops);
    assert(crate::instructions::without_end(x + ops, false, k) =~= x);
    let n = crate::instructions::imm16(pf, 1);
    match crate::instructions::split_operands(ops, n) {
        Some((f, s)) => {
            lemma_mirrored_result(x, y, crate::instructions::low_sum(f, crate::instructions::second_operand(s, n)));
        },
        None => {},
    }
}

proof fn lemma_sub_mirror(x: Seq<u8>, y: Seq<u8>, ops: Seq<u8>, pf: Seq<u8>, pg: Seq<u8>)
    requires
        pf.len() == 3,
        pg.len() == 3,
        pf[1] == pg[1],
        pf[2] == pg[2],
        ops.len() == crate::instructions::imm16(pf, 1) / 4,
    ensures
        mirrored(
            crate::instructions::eff_int_sub(ops + y, pf, 1, true),
            crate::instructions::eff_int_sub(x + ops, pg, 1, false),
            x,
            y,
        ),
{
    let k = ops.len();
    assert(crate::instructions::end_bytes(ops + y, true, k) =~= ops);
    assert(crate::instructions::without_end(ops + y, true, k) =~= y);
    assert(crate::instructions::end_bytes(x + ops, false, k) =~= ops);
    assert(crate::instructions::without_end(x + ops, false, k) =~= x);
    let n = crate::instructions::imm16(pf, 1);
    match crate::instructions::split_operands(ops, n) {
        Some((f, s)) => {
            lemma_mirrored_result(
                x,
                y,
                crate::instructions::signed_difference(
                    f,
                    crate::instructions::second_operand(s, n),
                    crate::instructions::difference_width(n),
                ),
            );
        },
        None => {},
    }
}

/// The integer opcodes 2 to 5 are those of [`crate::instructions::eff_int_add`]
/// and [`crate::instructions::eff_int_sub`].
proof fn lemma_step_int(b: Seq<u8>, p: Seq<u8>, idx: int)
    requires
        0 <= idx < p.len(),
        2 <= p[idx] <= 5,
    ensures
        spec_step(b, p, idx) == if p[idx] <= 3 {
            crate::instructions::eff_int_add(b, p, idx + 1, p[idx] == 2)
        } else {
            crate::instructions::eff_int_sub(b, p, idx + 1, p[idx] == 4)
        },
{
    reveal(spec_step);
}

/// Opcodes 2 (front) and 3 (back) with an immediate `N` that is a multiple of
/// 8 add the two `N / 8`-byte big-endian numbers at their end of the block,
/// the first one being the one nearer to the start of the block, and put back
/// the sum modulo 256^(`N / 8`) as `N / 8` bytes at the same end; the rest of
/// the block is kept.
pub proof fn law_int_add_value(b: Seq<u8>, p: Seq<u8>, idx: int)
    requires
        0 <= idx,
        idx + 3 <= p.len(),
        p[idx] == 2 || p[idx] == 3,
        (p[idx + 1] as int * 256 + p[idx + 2] as int) % 8 == 0,
    ensures
        ({
            let n = p[idx + 1] as int * 256 + p[idx + 2] as int;
            let q = n / 8;
            let front = p[idx] == 2;
            let len = b.len() as int;
            let ops = if front {
                b.subrange(0, 2 * q)
            } else {
                b.subrange(len - 2 * q, len)
            };
            let rest = if front {
                b.subrange(2 * q, len)
            } else {
                b.subrange(0, len - 2 * q)
            };
            &&& 2 * q > len ==> spec_step(b, p, idx) is Fault
            &&& 2 * q <= len ==> {
                &&& spec_step(b, p, idx) matches Effect::Next { block, index, word }
                &&& index == idx + 3
                &&& word is None
                &&& block.len() == len - q
                &&& (if front {
                    block.subrange(q, block.len() as int)
                } else {
                    block.subrange(0, block.len() - q)
                }) == rest
                &&& be_value(
                    if front {
                        block.subrange(0, q)
                    } else {
                        block.subrange(block.len() - q, block.len() as int)
                    },
                ) == (be_value(ops.subrange(0, q)) + be_value(ops.subrange(q, 2 * q))) % pow256(
                    q as nat,
                )
            }
        }),
{
    reveal(spec_step);
    let n = p[idx + 1] as int * 256 + p[idx + 2] as int;
    let q = n / 8;
    let front = p[idx] == 2;
    let len = b.len() as int;
    assert(n / 4 == 2 * q);
    if 2 * q <= len {
        let ops = if front {
            b.subrange(0, 2 * q)
        } else {
            b.subrange(len - 2 * q, len)
        };
        let rest = if front {
            b.subrange(2 * q, len)
        } else {
            b.subrange(0, len - 2 * q)
        };
        assert(crate::instructions::end_bytes(b, front, (2 * q) as nat) =~= ops);
        assert(crate::instructions::without_end(b, front, (2 * q) as nat) =~= rest);
        let f = ops.subrange(0, q);
        let s = ops.subrange(q, 2 * q);
        crate::instructions::law_low_sum_value(f, s);
        assert(f.subrange(0, q) =~= f);
        assert(s.subrange(0, q) =~= s);
        let res = crate::instructions::low_sum(f, s);
        match spec_step(b, p, idx) {
            Effect::Next { block, .. } => {
                if front {
                    assert(block =~= res + rest);
                    assert(block.subrange(0, q) =~= res);
                    assert(block.subrange(q, block.len() as int) =~= rest);
                } else {
                    assert(block =~= rest + res);
                    assert(block.subrange(block.len() - q, block.len() as int) =~= res);
                    assert(block.subrange(0, block.len() - q) =~= rest);
                }
            },
            _ => {},
        }
    }
}

/// Opcodes 4 (front) and 5 (back) replace the `N / 4` bytes they pop, `N`
/// being the immediate, by a result of `N / 8` bytes, plus one byte when
/// `N / 8` is zero or not a multiple of 8 (the width the program deriver
/// also counts for them); the rest of the block is kept.
pub proof fn law_int_sub_width(b: Seq<u8>, p: Seq<u8>, idx: int)
    requires
        0 <= idx,
        idx + 3 <= p.len(),
        p[idx] == 4 || p[idx] == 5,
    ensures
        ({
            let n = p[idx + 1] as int * 256 + p[idx + 2] as int;
            let k = n / 4;
            let q = n / 8;
            let w = if q == 0 || q % 8 != 0 {
                q + 1
            } else {
                q
            };
            let front = p[idx] == 4;
            let len = b.len() as int;
            spec_step(b, p, idx) matches Effect::Next { block, index, word } ==> {
                &&& index == idx + 3
                &&& word is None
                &&& k <= len
                &&& block.len() == len - k + w
                &&& if front {
                    block.subrange(w, block.len() as int) == b.subrange(k, len)
                } else {
                    block.subrange(0, block.len() - w) == b.subrange(0, len - k)
                }
            }
        }),
{
    reveal(spec_step);
    let n = p[idx + 1] as int * 256 + p[idx + 2] as int;
    let k = n / 4;
    let q = n / 8;
    let w = if q == 0 || q % 8 != 0 {
        q + 1
    } else {
        q
    };
    let front = p[idx] == 4;
    let len = b.len() as int;
    match spec_step(b, p, idx) {
        Effect::Next { block, .. } => {
            let rest = crate::instructions::without_end(b, front, k as nat);
            let ops = crate::instructions::end_bytes(b, front, k as nat);
            match crate::instructions::split_operands(ops, n) {
                Some((f, s)) => {
                    let d = crate::instructions::signed_difference(
                        f,
                        crate::instructions::second_operand(s, n),
                        crate::instructions::difference_width(n),
                    );
                    crate::bytes::law_fit_value(
                        crate::bytes::be_min(crate::bignum::abs(
                            crate::instructions::sign_magnitude(f) - crate::instructions::sign_magnitude(
                                crate::instructions::second_operand(s, n),
                            ),
                        )),
                        w as nat,
                    );
                    assert(d.len() == w);
                    if front {
                        assert(block =~= d + rest);
                        assert(block.subrange(w, block.len() as int) =~= rest);
                    } else {
                        assert(block =~= rest + d);
                        assert(block.subrange(0, block.len() - w) =~= rest);
                    }
                },
                None => {},
            }
        },
        _ => {},
    }
}

/// Opcodes 24 to 29 (OR, AND, XOR; even ones at the front) read a 16-bit
/// big-endian count at their end of the block (the two outermost bytes), then
/// two operands of `n` bytes next to it, `n` being one more than the count
/// modulo 16; they put back at the same end `n` bytes, byte `j` being byte `j`
/// of the first operand combined with byte `j` of the second (in block
/// order); the rest of the block is kept. Opcodes 30 (front) and 31 (back)
/// likewise put back the complement of one `n`-byte operand.
pub proof fn law_bitwise_value(b: Seq<u8>, p: Seq<u8>, idx: int)
    requires
        0 <= idx < p.len(),
        24 <= p[idx] <= 31,
    ensures
        ({
            let op = p[idx];
            let front = op % 2 == 0;
            let len = b.len() as int;
            let count = if front {
                b.subrange(0, 2)
            } else {
                b.subrange(len - 2, len)
            };
            let n = (1 + be_value(count) % 16) as int;
            let m = if op <= 29 {
                2 * n
            } else {
                n
            };
            let x = if front {
                b.subrange(2, 2 + m)
            } else {
                b.subrange(len - 2 - m, len - 2)
            };
            let kept = if front {
                b.subrange(2 + m, len)
            } else {
                b.subrange(0, len - 2 - m)
            };
            &&& len < 2 + m ==> spec_step(b, p, idx) is Fault
            &&& len >= 2 + m ==> {
                &&& spec_step(b, p, idx) matches Effect::Next { block, index, word }
                &&& index == idx + 1
                &&& word is None
                &&& block.len() == kept.len() + n
                &&& (if front {
                    block.subrange(n, block.len() as int)
                } else {
                    block.subrange(0, kept.len() as int)
                }) == kept
                &&& (if front {
                    block.subrange(0, n)
                } else {
                    block.subrange(kept.len() as int, block.len() as int)
                }) == Seq::new(
                    n as nat,
                    |j: int|
                        if op <= 25 {
                            x[j] | x[n + j]
                        } else if op <= 27 {
                            x[j] & x[n + j]
                        } else if op <= 29 {
                            x[j] ^ x[n + j]
                        } else {
                            (255 - x[j]) as u8
                        },
                )
            }
        }),
{
    lemma_step_bitwise(b, p, idx);
    let op = p[idx];
    let front = op % 2 == 0;
    let len = b.len() as int;
    if len < 2 {
        return;
    }
    let count = if front {
        b.subrange(0, 2)
    } else {
        b.subrange(len - 2, len)
    };
    assert(crate::instructions::end_bytes(b, front, 2) =~= count);
    let n = (1 + be_value(count) % 16) as int;
    let m = if op <= 29 {
        2 * n
    } else {
        n
    };
    if len >= 2 + m {
        let r = crate::instructions::without_end(b, front, 2);
        let x = if front {
            b.subrange(2, 2 + m)
        } else {
            b.subrange(len - 2 - m, len - 2)
        };
        let kept = if front {
            b.subrange(2 + m, len)
        } else {
            b.subrange(0, len - 2 - m)
        };
        assert(crate::instructions::end_bytes(r, front, m as nat) =~= x);
        assert(crate::instructions::without_end(r, front, m as nat) =~= kept);
        match spec_step(b, p, idx) {
            Effect::Next { block, .. } => {
                let want = Seq::new(
                    n as nat,
                    |j: int|
                        if op <= 25 {
                            x[j] | x[n + j]
                        } else if op <= 27 {
                            x[j] & x[n + j]
                        } else if op <= 29 {
                            x[j] ^ x[n + j]
                        } else {
                            (255 - x[j]) as u8
                        },
                );
                if front {
                    assert(block.subrange(n, block.len() as int) =~= kept);
                    assert(block.subrange(0, n) =~= want);
                } else {
                    assert(block.subrange(0, kept.len() as int) =~= kept);
                    assert(block.subrange(kept.len() as int, block.len() as int) =~= want);
                }
            },
            _ => {},
        }
    }
}

/// The bitwise opcodes 24 to 31 are those of
/// [`crate::instructions::eff_bitwise`] and [`crate::instructions::eff_not`].
proof fn lemma_step_bitwise(b: Seq<u8>, p: Seq<u8>, idx: int)
    requires
        0 <= idx < p.len(),
        24 <= p[idx] <= 31,
    ensures
        spec_step(b, p, idx) == if p[idx] <= 29 {
            crate::instructions::eff_bitwise(b, p[idx], idx + 1)
        } else {
            crate::instructions::eff_not(b, idx + 1, p[idx] == 30)
        },
{
    reveal(spec_step);
}

/// Opcodes 0 (back) and 1 (front) read a 16-bit big-endian length `n` after
/// the opcode and the `n` bytes after it; opcode 0 appends those bytes to the
/// block in program order, opcode 1 pushes them onto the front one by one, so
/// that they stand there in reverse order. The program index moves past them.
/// Where the program is too short, they fault.
pub proof fn law_literal_value(b: Seq<u8>, p: Seq<u8>, idx: int)
    requires
        0 <= idx < p.len(),
        p[idx] <= 1,
    ensures
        ({
            let len = p.len() as int;
            &&& idx + 3 > len ==> spec_step(b, p, idx) is Fault
            &&& idx + 3 <= len ==> {
                let n = p[idx + 1] as int * 256 + p[idx + 2] as int;
                let data = p.subrange(idx + 3, idx + 3 + n);
                &&& idx + 3 + n > len ==> spec_step(b, p, idx) is Fault
                &&& idx + 3 + n <= len ==> {
                    &&& spec_step(b, p, idx) matches Effect::Next { block, index, word }
                    &&& index == idx + 3 + n
                    &&& word is None
                    &&& block == if p[idx] == 0 {
                        b + data
                    } else {
                        data.reverse() + b
                    }
                }
            }
        }),
{
    lemma_step_literal(b, p, idx);
}

/// Opcodes 47 (back) and 48 (front) remove the four bytes at their end of the
/// block and emit, as a digest word, their big-endian value in block order.
pub proof fn law_emit_value(b: Seq<u8>, p: Seq<u8>, idx: int)
    requires
        0 <= idx < p.len(),
        47 <= p[idx] <= 48,
    ensures
        ({
            let front = p[idx] == 48;
            let len = b.len() as int;
            &&& len < 4 ==> spec_step(b, p, idx) is Fault
            &&& len >= 4 ==> {
                &&& spec_step(b, p, idx) matches Effect::Next { block, index, word }
                &&& index == idx + 1
                &&& block == if front {
                    b.subrange(4, len)
                } else {
                    b.subrange(0, len - 4)
                }
                &&& word matches Some(w) && w == word_at(b, if front {
                    0
                } else {
                    len - 4
                })
            }
        }),
{
    lemma_step_emit(b, p, idx);
    if b.len() >= 4 {
        lemma_word_at(b, 0);
        lemma_word_at(b, b.len() - 4);
    }
}

/// The floating-point opcodes 8 to 23 are those of
/// [`crate::instructions::eff_float`].
proof fn lemma_step_float(b: Seq<u8>, p: Seq<u8>, idx: int)
    requires
        0 <= idx < p.len(),
        8 <= p[idx] <= 23,
    ensures
        spec_step(b, p, idx) == crate::instructions::eff_float(b, p[idx]),
{
    reveal(spec_step);
}

/// Opcodes 8 to 23 (`f32` up to 15, `f64` from 16; even ones at the front)
/// remove two operands of `w` bytes (4 or 8) from their end of the block and
/// ask for the operation of `op % 8 / 2` (add, multiply, subtract, divide):
/// the first operand is the `w` bytes at the very end, the second the `w`
/// bytes next to it, each in block order. The program index is left just
/// after the opcode.
pub proof fn law_float_request(b: Seq<u8>, p: Seq<u8>, idx: int)
    requires
        0 <= idx < p.len(),
        8 <= p[idx] <= 23,
    ensures
        ({
            let op = p[idx];
            let front = op % 2 == 0;
            let w: int = if op < 16 {
                4
            } else {
                8
            };
            let len = b.len() as int;
            &&& len < 2 * w ==> spec_step(b, p, idx) is Fault
            &&& len >= 2 * w ==> {
                &&& spec_step(b, p, idx) matches Effect::Float { call, block }
                &&& call.width == w
                &&& call.front == front
                &&& call.op == (if op % 8 / 2 == 0 {
                    crate::instructions::FloatOp::Add
                } else if op % 8 / 2 == 1 {
                    crate::instructions::FloatOp::Mul
                } else if op % 8 / 2 == 2 {
                    crate::instructions::FloatOp::Sub
                } else {
                    crate::instructions::FloatOp::Div
                })
                &&& call.first == if front {
                    b.subrange(0, w)
                } else {
                    b.subrange(len - w, len)
                }
                &&& call.second == if front {
                    b.subrange(w, 2 * w)
                } else {
                    b.subrange(len - 2 * w, len - w)
                }
                &&& block == if front {
                    b.subrange(2 * w, len)
                } else {
                    b.subrange(0, len - 2 * w)
                }
            }
        }),
{
    lemma_step_float(b, p, idx);
    let op = p[idx];
    let front = op % 2 == 0;
    let w: int = if op < 16 {
        4
    } else {
        8
    };
    let len = b.len() as int;
    if len >= 2 * w {
        let ops = crate::instructions::end_bytes(b, front, (2 * w) as nat);
        if front {
            assert(ops.subrange(0, w) =~= b.subrange(0, w));
            assert(ops.subrange(w, 2 * w) =~= b.subrange(w, 2 * w));
        } else {
            assert(ops.subrange(w, 2 * w) =~= b.subrange(len - w, len));
            assert(ops.subrange(0, w) =~= b.subrange(len - 2 * w, len - w));
        }
    }
}

/// Opcode 46 moves the last four bytes of a block of at least four bytes, in
/// order, to its front; on an empty block it faults.
pub proof fn law_rotate_value(b: Seq<u8>, p: Seq<u8>, idx: int)
    requires
        0 <= idx < p.len(),
        p[idx] == 46,
    ensures
        b.len() == 0 ==> spec_step(b, p, idx) is Fault,
        b.len() >= 4 ==> spec_step(b, p, idx) == (Effect::Next {
            block: b.subrange(b.len() - 4, b.len() as int) + b.subrange(0, b.len() - 4),
            index: idx + 1,
            word: None,
        }),
{
    lemma_step_rotate(b, p, idx);
    if b.len() >= 4 {
        crate::instructions::law_rotation_moves_last_four(b);
    }
}

/// Opcodes 40 to 45 (AES-128, -192, -256; encryption on even opcodes) take
/// the key from the front of the block (16, 24 or 32 bytes) and drop the last
/// sixteen bytes; they transform an all-zero block under the key and push the
/// sixteen output bytes onto the front one by one, so that they stand there in
/// reverse order. Where the block is shorter than the key plus sixteen bytes,
/// they fault.
pub proof fn law_cipher_value(b: Seq<u8>, p: Seq<u8>, idx: int)
    requires
        0 <= idx < p.len(),
        40 <= p[idx] <= 45,
    ensures
        ({
            let op = p[idx];
            let k: int = if op <= 41 {
                16
            } else if op <= 43 {
                24
            } else {
                32
            };
            let len = b.len() as int;
            let key = b.subrange(0, k);
            let zero = Seq::new(16, |j: int| 0u8);
            let out = if op == 40 {
                crate::cipher::aes128_encrypt(key, zero)
            } else if op == 41 {
                crate::cipher::aes128_decrypt(key, zero)
            } else if op == 42 {
                crate::cipher::aes192_encrypt(key, zero)
            } else if op == 43 {
                crate::cipher::aes192_decrypt(key, zero)
            } else if op == 44 {
                crate::cipher::aes256_encrypt(key, zero)
            } else {
                crate::cipher::aes256_decrypt(key, zero)
            };
            &&& len < k + 16 ==> spec_step(b, p, idx) is Fault
            &&& len >= k + 16 ==> spec_step(b, p, idx) == (Effect::Next {
                block: out.reverse() + b.subrange(k, len - 16),
                index: idx + 1,
                word: None,
            })
        }),
{
    lemma_step_cipher(b, p, idx);
    assert(crate::bytes::zeros(16) =~= Seq::new(16, |j: int| 0u8));
}

/// The value of a sign-magnitude number: the top bit of its first byte is
/// the sign, the other bits the big-endian magnitude.
pub open spec fn sign_magnitude_value(x: Seq<u8>) -> int {
    let h = 128 * pow256((x.len() - 1) as nat);
    if be_value(x) >= h {
        -(be_value(x) - h)
    } else {
        be_value(x) as int
    }
}

proof fn lemma_be_value_single(v: u8)
    ensures
        be_value(seq![v]) == v,
{
    assert(seq![v].drop_last() =~= Seq::<u8>::empty());
    assert(be_value(Seq::<u8>::empty()) == 0);
}

/// A number splits into its first byte and the rest.
proof fn lemma_be_value_first(x: Seq<u8>)
    requires
        x.len() >= 1,
    ensures
        be_value(x) == x[0] as nat * pow256((x.len() - 1) as nat) + be_value(x.drop_first()),
        be_value(x.drop_first()) < pow256((x.len() - 1) as nat),
{
    assert(seq![x[0]] + x.drop_first() =~= x);
    crate::bytes::lemma_be_value_append(seq![x[0]], x.drop_first());
    lemma_be_value_single(x[0]);
    crate::bytes::lemma_be_value_bound(x.drop_first());
}

/// The machine's sign-magnitude reading is [`sign_magnitude_value`].
proof fn lemma_sign_magnitude(x: Seq<u8>)
    requires
        x.len() >= 1,
    ensures
        crate::instructions::sign_magnitude(x) == sign_magnitude_value(x),
{
    let big_p = pow256((x.len() - 1) as nat);
    crate::bytes::lemma_pow256_positive((x.len() - 1) as nat);
    let y = x.update(0, x[0] & 0x7fu8);
    assert(y.drop_first() =~= x.drop_first());
    lemma_be_value_first(x);
    lemma_be_value_first(y);
    let c = x[0];
    let rest = be_value(x.drop_first());
    assert((c & 0x80u8 != 0) == (c >= 128)) by (bit_vector);
    assert(c >= 128 ==> (c & 0x7fu8) == c - 128) by (bit_vector);
    assert(c < 128 ==> (c & 0x7fu8) == c) by (bit_vector);
    if c >= 128 {
        assert(c as nat * big_p == (c - 128) as nat * big_p + 128 * big_p) by (nonlinear_arith)
            requires
                c >= 128,
        ;
    } else {
        assert(c as nat * big_p + rest < 128 * big_p) by (nonlinear_arith)
            requires
                c < 128,
                rest < big_p,
        ;
    }
}

/// A number below 256^`w` has at most `w` digits.
proof fn lemma_be_digits_len(n: nat, w: nat)
    requires
        n < pow256(w),
    ensures
        crate::bytes::be_digits(n).len() <= w,
    decreases w,
{
    if n > 0 {
        if w == 0 {
            assert(pow256(0) == 1);
        } else {
            assert(n / 256 < pow256((w - 1) as nat)) by (nonlinear_arith)
                requires
                    n < 256 * pow256((w - 1) as nat),
            ;
            lemma_be_digits_len(n / 256, (w - 1) as nat);
        }
    }
}

/// Opcodes 4 (front) and 5 (back) with an immediate `N` that is a positive
/// multiple of 8 read the two `N / 8`-byte sign-magnitude numbers at their end
/// of the block, the first one being the one nearer to the start of the
/// block, and put back at the same end `w` bytes (see [`law_int_sub_width`])
/// holding the difference first minus second in sign-magnitude form, whenever
/// the difference fits in `w` bytes; the rest of the block is kept.
pub proof fn law_int_sub_value(b: Seq<u8>, p: Seq<u8>, idx: int)
    requires
        0 <= idx,
        idx + 3 <= p.len(),
        p[idx] == 4 || p[idx] == 5,
        (p[idx + 1] as int * 256 + p[idx + 2] as int) % 8 == 0,
        p[idx + 1] as int * 256 + p[idx + 2] as int >= 8,
    ensures
        ({
            let n = p[idx + 1] as int * 256 + p[idx + 2] as int;
            let q = n / 8;
            let w = if q % 8 != 0 {
                q + 1
            } else {
                q
            };
            let front = p[idx] == 4;
            let len = b.len() as int;
            let ops = if front {
                b.subrange(0, 2 * q)
            } else {
                b.subrange(len - 2 * q, len)
            };
            let d = sign_magnitude_value(ops.subrange(0, q)) - sign_magnitude_value(
                ops.subrange(q, 2 * q),
            );
            let mag = if d < 0 {
                -d
            } else {
                d
            };
            let hw = 128 * pow256((w - 1) as nat);
            &&& 2 * q > len ==> spec_step(b, p, idx) is Fault
            &&& 2 * q <= len && mag < hw ==> {
                &&& spec_step(b, p, idx) matches Effect::Next { block, index, word }
                &&& block.len() == len - 2 * q + w
                &&& be_value(
                    if front {
                        block.subrange(0, w)
                    } else {
                        block.subrange(block.len() - w, block.len() as int)
                    },
                ) == if d < 0 {
                    mag + hw
                } else {
                    mag
                }
            }
        }),
{
    lemma_step_int(b, p, idx);
    let n = p[idx + 1] as int * 256 + p[idx + 2] as int;
    let q = n / 8;
    let w = if q % 8 != 0 {
        q + 1
    } else {
        q
    };
    let front = p[idx] == 4;
    let len = b.len() as int;
    assert(n / 4 == 2 * q);
    assert(q >= 1);
    if 2 * q <= len {
        let ops = if front {
            b.subrange(0, 2 * q)
        } else {
            b.subrange(len - 2 * q, len)
        };
        let rest = if front {
            b.subrange(2 * q, len)
        } else {
            b.subrange(0, len - 2 * q)
        };
        assert(crate::instructions::end_bytes(b, front, (2 * q) as nat) =~= ops);
        assert(crate::instructions::without_end(b, front, (2 * q) as nat) =~= rest);
        let f = ops.subrange(0, q);
        let s = ops.subrange(q, 2 * q);
        lemma_sign_magnitude(f);
        lemma_sign_magnitude(s);
        let d = sign_magnitude_value(f) - sign_magnitude_value(s);
        let mag = if d < 0 {
            -d
        } else {
            d
        };
        let hw = 128 * pow256((w - 1) as nat);
        assert(crate::instructions::difference_width(n) == w);
        if mag < hw {
            assert(crate::bignum::abs(d) == mag);
            lemma_signed_result(d, w as nat);
            match spec_step(b, p, idx) {
                Effect::Next { block, .. } => {
                    let res = crate::instructions::signed_difference(f, s, w as nat);
                    if front {
                        assert(block =~= res + rest);
                        assert(block.subrange(0, w) =~= res);
                    } else {
                        assert(block =~= rest + res);
                        assert(block.subrange(block.len() - w, block.len() as int) =~= res);
                    }
                },
                _ => {},
            }
        }
    }
}

/// The bytes of a difference `d` that fits: its magnitude on `w` bytes, the
/// top bit of the first set exactly when `d` is negative.
proof fn lemma_signed_result(d: int, w: nat)
    requires
        w >= 1,
        crate::bignum::abs(d) < 128 * pow256((w - 1) as nat),
    ensures
        ({
            let mag = crate::bytes::be_min(crate::bignum::abs(d));
            let x = crate::bytes::fit(mag, w);
            let res = if mag.len() > w {
                x
            } else {
                x.update(
                    0,
                    if d < 0 {
                        x[0] | 0x80u8
                    } else {
                        x[0] & 0x7fu8
                    },
                )
            };
            &&& res.len() == w
            &&& be_value(res) == if d < 0 {
                crate::bignum::abs(d) + 128 * pow256((w - 1) as nat)
            } else {
                crate::bignum::abs(d)
            }
        }),
{
    let a = crate::bignum::abs(d);
    let big_p = pow256((w - 1) as nat);
    crate::bytes::lemma_pow256_positive((w - 1) as nat);
    assert(pow256(w) == 256 * big_p);
    let m = crate::bytes::be_min(a);
    law_be_min_roundtrip(a);
    lemma_be_digits_len(a, w);
    assert(m.len() <= w);
    let x = crate::bytes::fit(m, w);
    law_fit_value(m, w);
    assert(a % pow256(w) == a) by (nonlinear_arith)
        requires
            a < 128 * big_p,
            pow256(w) == 256 * big_p,
    ;
    lemma_be_value_first(x);
    let c = x[0];
    let rest = be_value(x.drop_first());
    if c >= 128 {
        assert(c as nat * big_p + rest >= 128 * big_p) by (nonlinear_arith)
            requires
                c >= 128,
        ;
    }
    assert(c < 128);
    let top: u8 = if d < 0 {
        c | 0x80u8
    } else {
        c & 0x7fu8
    };
    assert(c < 128 ==> (c | 0x80u8) == c + 128) by (bit_vector);
    assert(c < 128 ==> (c & 0x7fu8) == c) by (bit_vector);
    let res = x.update(0, top);
    assert(res.drop_first() =~= x.drop_first());
    lemma_be_value_first(res);
    if d < 0 {
        assert((c + 128) as nat * big_p == c as nat * big_p + 128 * big_p) by (nonlinear_arith);
    }
}

/// Opcodes 2 (front) and 3 (back) with an immediate `N` of the form
/// `8 * q + 4` (the form the program deriver emits when `N / 4` is odd) pop
/// `2 * q + 1` bytes at their end of the block; read in block order as one
/// big-endian number of `2 * N` bits, its high `N` bits are the first operand
/// and its low `N` bits the second. They put back at the same end `q + 1`
/// bytes holding the sum of the operands modulo 2^`N`, shifted up by four
/// bits (so that it fills whole bytes); the rest of the block is kept.
pub proof fn law_int_add_nibble_value(b: Seq<u8>, p: Seq<u8>, idx: int)
    requires
        0 <= idx,
        idx + 3 <= p.len(),
        p[idx] == 2 || p[idx] == 3,
        (p[idx + 1] as int * 256 + p[idx + 2] as int) % 8 == 4,
    ensures
        ({
            let n = p[idx + 1] as int * 256 + p[idx + 2] as int;
            let q = n / 8;
            let k = 2 * q + 1;
            let front = p[idx] == 2;
            let len = b.len() as int;
            let ops = if front {
                b.subrange(0, k)
            } else {
                b.subrange(len - k, len)
            };
            let rest = if front {
                b.subrange(k, len)
            } else {
                b.subrange(0, len - k)
            };
            let v = be_value(ops);
            let half = 16 * pow256(q as nat);
            &&& k > len ==> spec_step(b, p, idx) is Fault
            &&& k <= len ==> {
                &&& spec_step(b, p, idx) matches Effect::Next { block, index, word }
                &&& index == idx + 3
                &&& word is None
                &&& block.len() == len - k + q + 1
                &&& (if front {
                    block.subrange(q + 1, block.len() as int)
                } else {
                    block.subrange(0, block.len() - q - 1)
                }) == rest
                &&& be_value(
                    if front {
                        block.subrange(0, q + 1)
                    } else {
                        block.subrange(block.len() - q - 1, block.len() as int)
                    },
                ) == 16 * ((v / half + v % half) % half)
            }
        }),
{
    lemma_step_int(b, p, idx);
    let n = p[idx + 1] as int * 256 + p[idx + 2] as int;
    let q = n / 8;
    let k = 2 * q + 1;
    let front = p[idx] == 2;
    let len = b.len() as int;
    assert(n / 4 == k);
    assert(n >= 4);
    assert((n - 4) / 8 == q);
    if k <= len {
        let ops = if front {
            b.subrange(0, k)
        } else {
            b.subrange(len - k, len)
        };
        let rest = if front {
            b.subrange(k, len)
        } else {
            b.subrange(0, len - k)
        };
        assert(crate::instructions::end_bytes(b, front, k as nat) =~= ops);
        assert(crate::instructions::without_end(b, front, k as nat) =~= rest);
        let res = lemma_nibble_sum(ops, q as nat);
        match spec_step(b, p, idx) {
            Effect::Next { block, .. } => {
                if front {
                    assert(block =~= res + rest);
                    assert(block.subrange(0, q + 1) =~= res);
                    assert(block.subrange(q + 1, block.len() as int) =~= rest);
                } else {
                    assert(block =~= rest + res);
                    assert(block.subrange(block.len() - q - 1, block.len() as int) =~= res);
                    assert(block.subrange(0, block.len() - q - 1) =~= rest);
                }
            },
            _ => {},
        }
    }
}

/// The arithmetic behind [`law_int_add_nibble_value`]: returns the sum bytes
/// of the machine for the `2 * q + 1` popped bytes `ops`.
proof fn lemma_nibble_sum(ops: Seq<u8>, q: nat) -> (res: Seq<u8>)
    requires
        ops.len() == 2 * q + 1,
    ensures
        ({
            let n = (8 * q + 4) as int;
            let (f, s) = crate::instructions::split_operands(ops, n).unwrap();
            &&& crate::instructions::split_operands(ops, n) is Some
            &&& res == crate::instructions::low_sum(f, crate::instructions::second_operand(s, n))
            &&& res.len() == q + 1
            &&& be_value(res) == 16 * ((be_value(ops) / (16 * pow256(q)) + be_value(ops) % (16
                * pow256(q))) % (16 * pow256(q)))
        }),
{
    let n = (8 * q + 4) as int;
    let qi = q as int;
    assert(n / 8 == q && n % 8 == 4 && (n - 4) / 8 == q);
    let c = ops[qi];
    let lo = ops.subrange(0, qi);
    let hi = ops.subrange(qi + 1, 2 * qi + 1);
    let f = lo.push(c & 0xf0u8);
    let s = seq![c & 0x0fu8] + hi;
    assert(crate::instructions::split_operands(ops, n) == Some((f, s)));
    let big_p = pow256(q);
    crate::bytes::lemma_pow256_positive(q);
    let x = be_value(lo);
    let y = be_value(hi);
    crate::bytes::lemma_be_value_bound(hi);
    // The value of the popped bytes.
    assert(ops =~= lo + (seq![c] + hi));
    crate::bytes::lemma_be_value_append(lo, seq![c] + hi);
    crate::bytes::lemma_be_value_append(seq![c], hi);
    lemma_be_value_single(c);
    assert(pow256((seq![c] + hi).len()) == 256 * big_p);
    let v = be_value(ops);
    assert(v == x * (256 * big_p) + (c as nat * big_p + y));
    // The first operand.
    assert(f.drop_last() =~= lo);
    assert(be_value(f) == x * 256 + (c & 0xf0u8) as nat);
    // The second operand and its shift.
    crate::bytes::lemma_be_value_append(seq![c & 0x0fu8], hi);
    lemma_be_value_single(c & 0x0fu8);
    let vs = be_value(s);
    assert(vs == (c & 0x0fu8) as nat * big_p + y);
    lemma_shifted_nibble_value(s);
    let sh = crate::instructions::shifted_nibble(s);
    assert(s.len() == q + 1);
    assert(pow256(q + 1) == 256 * big_p);
    assert((c & 0x0fu8) as nat == c as nat % 16) by (bit_vector);
    assert((c & 0xf0u8) as nat == 16 * (c as nat / 16)) by (bit_vector);
    assert(vs < 16 * big_p) by (nonlinear_arith)
        requires
            vs == (c as nat % 16) * big_p + y,
            y < big_p,
    ;
    assert(vs * 16 < 256 * big_p);
    vstd::arithmetic::div_mod::lemma_small_mod((vs * 16) as nat, (256 * big_p) as nat);
    assert(be_value(sh) == 16 * vs);
    // The sum of the two operands of q + 1 bytes each.
    crate::instructions::law_low_sum_value(f, sh);
    assert(f.subrange(0, qi + 1) =~= f);
    assert(sh.subrange(0, qi + 1) =~= sh);
    let res = crate::instructions::low_sum(f, sh);
    // The halves of the popped bytes.
    let half = 16 * big_p;
    let a = 16 * x + c as nat / 16;
    assert(v == a * half + vs) by (nonlinear_arith)
        requires
            v == x * (256 * big_p) + (c as nat * big_p + y),
            vs == (c as nat % 16) * big_p + y,
            a == 16 * x + c as nat / 16,
            half == 16 * big_p,
    ;
    vstd::arithmetic::div_mod::lemma_fundamental_div_mod_converse(v as int, half as int, a as int, vs as int);
    assert(be_value(f) == 16 * a) by (nonlinear_arith)
        requires
            be_value(f) == x * 256 + 16 * (c as nat / 16),
            a == 16 * x + c as nat / 16,
    ;
    assert(be_value(res) == (16 * a + 16 * vs) % (256 * big_p));
    assert((16 * a + 16 * vs) % (256 * big_p) == 16 * ((a + vs) % half)) by {
        vstd::arithmetic::div_mod::lemma_truncate_middle((a + vs) as int, 16, half as int);
    }
    res
}

/// Shifting by a nibble multiplies by 16, dropping what no longer fits.
proof fn lemma_shifted_nibble_value(s: Seq<u8>)
    ensures
        crate::instructions::shifted_nibble(s).len() == s.len(),
        be_value(crate::instructions::shifted_nibble(s)) == (be_value(s) * 16) % pow256(s.len()),
    decreases s.len(),
{
    let sh = crate::instructions::shifted_nibble(s);
    if s.len() == 0 {
        assert(pow256(0) == 1);
        assert(be_value(s) == 0);
        assert(sh =~= Seq::<u8>::empty());
    } else {
        let a = s[0];
        let tt = s.drop_first();
        let big_p = pow256(tt.len());
        crate::bytes::lemma_pow256_positive(tt.len());
        lemma_shifted_nibble_value(tt);
        let sht = crate::instructions::shifted_nibble(tt);
        let h0: nat = if tt.len() > 0 {
            (tt[0] / 16) as nat
        } else {
            0
        };
        let c = (((a as nat * 16) % 256) + h0) as u8;
        assert(sh =~= seq![c] + sht);
        assert(sh.drop_first() =~= sht);
        lemma_be_value_first(sh);
        lemma_be_value_first(s);
        let vt = be_value(tt);
        // 16 * vt splits into h0 whole units of big_p and a remainder below it.
        assert(be_value(sht) == (vt * 16) % big_p);
        if tt.len() > 0 {
            lemma_be_value_first(tt);
            let pp = pow256((tt.len() - 1) as nat);
            crate::bytes::lemma_pow256_positive((tt.len() - 1) as nat);
            assert(big_p == 256 * pp);
            let r = be_value(tt.drop_first());
            let t0 = tt[0] as nat;
            assert(vt * 16 == h0 * big_p + (16 * (t0 % 16) * pp + 16 * r)) by (nonlinear_arith)
                requires
                    vt == t0 * pp + r,
                    big_p == 256 * pp,
                    h0 == t0 / 16,
            ;
            assert(16 * (t0 % 16) * pp + 16 * r < big_p) by (nonlinear_arith)
                requires
                    r < pp,
                    big_p == 256 * pp,
                    t0 % 16 <= 15,
            ;
            vstd::arithmetic::div_mod::lemma_fundamental_div_mod_converse(
                (vt * 16) as int,
                big_p as int,
                h0 as int,
                (16 * (t0 % 16) * pp + 16 * r) as int,
            );
        } else {
            assert(vt == 0);
            assert(big_p == 1);
        }
        let rem = (vt * 16) % big_p;
        assert(vt * 16 == h0 * big_p + rem);
        // Now the whole value.
        let hi = ((a as nat * 16) % 256) + h0;
        assert(hi < 256) by {
            assert((a as nat * 16) % 256 <= 240) by (nonlinear_arith)
                requires
                    a < 256,
            ;
            if tt.len() > 0 {
                assert(h0 <= 15);
            }
        }
        assert(c as nat == hi);
        let vs = be_value(s);
        assert(vs * 16 == (a as nat * 16 / 256) * (256 * big_p) + (hi * big_p + rem))
            by (nonlinear_arith)
            requires
                vs == a as nat * big_p + vt,
                vt * 16 == h0 * big_p + rem,
                hi == (a as nat * 16) % 256 + h0,
        ;
        assert(hi * big_p + rem < 256 * big_p) by (nonlinear_arith)
            requires
                hi < 256,
                rem < big_p,
        ;
        assert(pow256(s.len()) == 256 * big_p);
        vstd::arithmetic::div_mod::lemma_fundamental_div_mod_converse(
            (vs * 16) as int,
            (256 * big_p) as int,
            (a as nat * 16 / 256) as int,
            (hi * big_p + rem) as int,
        );
    }
}

// One opcode group of [`spec_step`] at a time.

proof fn lemma_step_mul(b: Seq<u8>, p: Seq<u8>, idx: int)
    requires
        0 <= idx < p.len(),
        6 <= p[idx] <= 7,
    ensures
        spec_step(b, p, idx) == crate::instructions::eff_int_mul(b, p, idx + 1, p[idx] == 6),
{
    reveal(spec_step);
}

proof fn lemma_step_shift(b: Seq<u8>, p: Seq<u8>, idx: int)
    requires
        0 <= idx < p.len(),
        32 <= p[idx] <= 35,
    ensures
        spec_step(b, p, idx) == crate::instructions::eff_shift(b, p, p[idx], idx + 1),
{
    reveal(spec_step);
}

proof fn lemma_step_address(b: Seq<u8>, p: Seq<u8>, idx: int)
    requires
        0 <= idx < p.len(),
        36 <= p[idx] <= 39,
    ensures
        spec_step(b, p, idx) == crate::instructions::eff_address(b, p[idx], idx + 1),
{
    reveal(spec_step);
}

proof fn lemma_step_literal(b: Seq<u8>, p: Seq<u8>, idx: int)
    requires
        0 <= idx < p.len(),
        p[idx] <= 1,
    ensures
        spec_step(b, p, idx) == crate::instructions::eff_literal(b, p, idx + 1, p[idx] == 1),
{
    reveal(spec_step);
}

proof fn lemma_step_emit(b: Seq<u8>, p: Seq<u8>, idx: int)
    requires
        0 <= idx < p.len(),
        47 <= p[idx] <= 48,
    ensures
        spec_step(b, p, idx) == crate::instructions::eff_emit(b, idx + 1, p[idx] == 48),
{
    reveal(spec_step);
}

proof fn lemma_step_rotate(b: Seq<u8>, p: Seq<u8>, idx: int)
    requires
        0 <= idx < p.len(),
        p[idx] == 46,
    ensures
        spec_step(b, p, idx) == crate::instructions::eff_rotate(b, idx + 1),
{
    reveal(spec_step);
}

proof fn lemma_step_cipher(b: Seq<u8>, p: Seq<u8>, idx: int)
    requires
        0 <= idx < p.len(),
        40 <= p[idx] <= 45,
    ensures
        spec_step(b, p, idx) == crate::instructions::eff_cipher(b, p[idx], idx + 1),
{
    reveal(spec_step);
}

} // verus!
