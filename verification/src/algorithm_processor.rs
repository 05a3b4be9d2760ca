//! The virtual machine: padding of the input, execution of a program window
//! by window over the stack, and the digest.
//!
//! An [`Execution`] drives a run: while the stack is longer than the wanted
//! output size, a window of the stack (the block) is taken with
//! [`take_block`], the program is run on it with [`VM::run_instructions`]
//! (floating-point operations are handed back to the caller, who supplies
//! their results), and the block is written back with [`put_block`]. Finally
//! [`VM::finish_stack`] turns the remaining stack into digest words.

use std::collections::VecDeque;
use vstd::prelude::*;

use crate::fingerprint::{sha256_compute, sha256_of};
use crate::bytes::{be_u128, be_value, be_word, copy_range, extend_bytes, read_be_word};
use crate::instructions::{
    complete_float,
    float_completion,
    halt_agrees,
    opt_bytes,
    FloatRequest,
    RunSpec,
    lemma_step_progress,
    spec_run,
    spec_step,
    step,
    word_seq,
    BlockRun,
    Effect,
    Halt,
    RunEnd,
    Step,
};
use crate::rng::{
    be_bytes_u32,
    murmur_next,
    spec_murmur2,
    transform_u32_to_array_of_u8,
    MurMur2RNG,
};

verus! {

// ---------------------------------------------------------------------------
// The digest state
// ---------------------------------------------------------------------------

/// The machine: the words collected for the digest.
pub struct VM {
    final_state: Vec<u32>,
}

/// A machine with an empty digest state.
#[allow(non_snake_case)]
pub fn get_VM() -> (vm: VM)
    ensures
        vm.words() == Seq::<u32>::empty(),
{
    VM { final_state: Vec::new() }
}

/// The big-endian bytes of the words, one word after the other.
pub open spec fn digest_bytes(ws: Seq<u32>) -> Seq<u8>
    decreases ws.len(),
{
    if ws.len() == 0 {
        Seq::empty()
    } else {
        digest_bytes(ws.drop_last()) + be_bytes_u32(ws.last())
    }
}

/// The upper-case hexadecimal digit of a value below 16.
pub open spec fn hex_digit(d: u32) -> u8 {
    if d < 10 {
        (48 + d) as u8
    } else {
        (55 + d) as u8
    }
}

/// The eight upper-case hexadecimal digits of a word, most significant first.
pub open spec fn hex_word(w: u32) -> Seq<u8> {
    seq![
        hex_digit((w & 0xf0000000u32) >> 28u32),
        hex_digit((w & 0x0f000000u32) >> 24u32),
        hex_digit((w & 0x00f00000u32) >> 20u32),
        hex_digit((w & 0x000f0000u32) >> 16u32),
        hex_digit((w & 0x0000f000u32) >> 12u32),
        hex_digit((w & 0x00000f00u32) >> 8u32),
        hex_digit((w & 0x000000f0u32) >> 4u32),
        hex_digit(w & 0x0000000fu32),
    ]
}

/// The hexadecimal digits of the words, one word after the other.
pub open spec fn hex_digest_bytes(ws: Seq<u32>) -> Seq<u8>
    decreases ws.len(),
{
    if ws.len() == 0 {
        Seq::empty()
    } else {
        hex_digest_bytes(ws.drop_last()) + hex_word(ws.last())
    }
}

/// The two upper-case hexadecimal digits of each byte, one byte after the
/// other.
pub open spec fn hex_of_bytes(bs: Seq<u8>) -> Seq<u8>
    decreases bs.len(),
{
    if bs.len() == 0 {
        Seq::empty()
    } else {
        hex_of_bytes(bs.drop_last()) + seq![
            hex_digit((bs.last() >> 4u8) as u32),
            hex_digit((bs.last() & 0x0fu8) as u32),
        ]
    }
}

/// The hexadecimal form of a concatenation is the concatenation of the
/// hexadecimal forms.
pub proof fn lemma_hex_of_bytes_append(a: Seq<u8>, b: Seq<u8>)
    ensures
        hex_of_bytes(a + b) == hex_of_bytes(a) + hex_of_bytes(b),
    decreases b.len(),
{
    if b.len() == 0 {
        assert(a + b =~= a);
        assert(hex_of_bytes(a) + hex_of_bytes(b) =~= hex_of_bytes(a));
    } else {
        lemma_hex_of_bytes_append(a, b.drop_last());
        assert((a + b).drop_last() =~= a + b.drop_last());
        assert(hex_of_bytes(a + b) =~= hex_of_bytes(a) + hex_of_bytes(b));
    }
}

/// The eight digits of a word are the two digits of each of its big-endian
/// bytes.
pub proof fn lemma_hex_word_bytes(w: u32)
    ensures
        hex_word(w) == hex_of_bytes(be_bytes_u32(w)),
{
    let b = be_bytes_u32(w);
    assert(b.drop_last().drop_last().drop_last().drop_last() =~= Seq::<u8>::empty());
    reveal_with_fuel(hex_of_bytes, 5);
    assert(((w & 0xf0000000u32) >> 28u32) == ((((w >> 24u32) & 0xff) as u8 >> 4u8) as u32)) by (bit_vector);
    assert(((w & 0x0f000000u32) >> 24u32) == ((((w >> 24u32) & 0xff) as u8 & 0x0fu8) as u32)) by (bit_vector);
    assert(((w & 0x00f00000u32) >> 20u32) == ((((w >> 16u32) & 0xff) as u8 >> 4u8) as u32)) by (bit_vector);
    assert(((w & 0x000f0000u32) >> 16u32) == ((((w >> 16u32) & 0xff) as u8 & 0x0fu8) as u32)) by (bit_vector);
    assert(((w & 0x0000f000u32) >> 12u32) == ((((w >> 8u32) & 0xff) as u8 >> 4u8) as u32)) by (bit_vector);
    assert(((w & 0x00000f00u32) >> 8u32) == ((((w >> 8u32) & 0xff) as u8 & 0x0fu8) as u32)) by (bit_vector);
    assert(((w & 0x000000f0u32) >> 4u32) == (((w & 0xff) as u8 >> 4u8) as u32)) by (bit_vector);
    assert((w & 0x0000000fu32) == (((w & 0xff) as u8 & 0x0fu8) as u32)) by (bit_vector);
    assert(hex_word(w) =~= hex_of_bytes(b));
}

/// The hexadecimal digest is the hexadecimal form of the binary digest: two
/// upper-case digits per byte, the high nibble first.
pub proof fn law_hex_digest_is_hex_of_digest(ws: Seq<u32>)
    ensures
        hex_digest_bytes(ws) == hex_of_bytes(digest_bytes(ws)),
    decreases ws.len(),
{
    if ws.len() > 0 {
        law_hex_digest_is_hex_of_digest(ws.drop_last());
        lemma_hex_word_bytes(ws.last());
        lemma_hex_of_bytes_append(digest_bytes(ws.drop_last()), be_bytes_u32(ws.last()));
    }
}

/// The binary digest has four bytes per word, the hexadecimal one eight.
pub proof fn law_digest_lengths(ws: Seq<u32>)
    ensures
        digest_bytes(ws).len() == 4 * ws.len(),
        hex_digest_bytes(ws).len() == 8 * ws.len(),
    decreases ws.len(),
{
    if ws.len() > 0 {
        law_digest_lengths(ws.drop_last());
    }
}

fn hex_digit_exec(d: u32) -> (c: u8)
    requires
        d < 16,
    ensures
        c == hex_digit(d),
{
    if d < 10 {
        (48 + d) as u8
    } else {
        (55 + d) as u8
    }
}

impl VM {
    /// The words collected so far.
    pub closed spec fn words(&self) -> Seq<u32> {
        self.final_state@
    }

    /// The words collected so far.
    pub fn final_state(&self) -> (r: Vec<u32>)
        ensures
            r@ == self.words(),
    {
        self.final_state.clone()
    }

    /// Runs the program `buffer` on `run` from `run.index` (see
    /// [`spec_run`]), appending the words of opcodes 47 and 48 to the digest
    /// state. Where the run stops at a floating-point instruction, `run` is
    /// left after its opcode with the operands popped.
    pub fn run_instructions(&mut self, run: &mut BlockRun, buffer: &[u8], min_block_size: usize) -> (h: Halt)
        ensures
            ({
                let r = spec_run(old(run).block@, old(run).index as int, buffer@, min_block_size as nat);
                &&& halt_agrees(h, r.end)
                &&& !(r.end is Fault) ==> final(self).words() == old(self).words() + r.words
                &&& (r.end is Finished || r.end is Float) ==> {
                    &&& final(run).block@ == r.block
                    &&& final(run).index == r.index
                }
            }),
    {
        let ghost r0 = spec_run(run.block@, run.index as int, buffer@, min_block_size as nat);
        let ghost w0 = self.final_state@;
        let ghost mut emitted: Seq<u32> = Seq::empty();
        while run.index != buffer.len() && run.block.len() > min_block_size
            invariant
                ({
                    let r = spec_run(run.block@, run.index as int, buffer@, min_block_size as nat);
                    &&& r.end == r0.end
                    &&& r.block == r0.block
                    &&& r.index == r0.index
                    &&& r0.words == emitted + r.words
                }),
                self.final_state@ == w0 + emitted,
                r0 == spec_run(old(run).block@, old(run).index as int, buffer@, min_block_size as nat),
                w0 == old(self).final_state@,
            ensures
                run.index == buffer@.len() || run.block@.len() <= min_block_size,
            decreases buffer@.len() - run.index,
        {
            if run.index > buffer.len() {
                assert(spec_run(run.block@, run.index as int, buffer@, min_block_size as nat).end
                    is Fault);
                return Halt::Fault;
            }
            proof {
                lemma_step_progress(run.block@, buffer@, run.index as int);
            }
            let ghost before_block = run.block@;
            let ghost before_index = run.index as int;
            let r = step(run, buffer);
            match r {
                Step::Next(w) => {
                    let ghost rest = spec_run(run.block@, run.index as int, buffer@, min_block_size as nat);
                    match w {
                        Some(x) => {
                            self.final_state.push(x);
                        },
                        None => {},
                    }
                    proof {
                        emitted = emitted + word_seq(w);
                        assert(r0.words == emitted + rest.words);
                    }
                },
                Step::Float(q) => {
                    return Halt::Float(q);
                },
                Step::Fault => {
                    return Halt::Fault;
                },
                Step::Unknown(op) => {
                    assert(spec_run(before_block, before_index, buffer@, min_block_size as nat).end
                        is Unknown);
                    assert(emitted + Seq::<u32>::empty() =~= emitted);
                    return Halt::Unknown(op);
                },
            }
        }
        assert(emitted + Seq::<u32>::empty() =~= emitted);
        Halt::Finished
    }

    /// Appends the words that the remaining stack gives (see
    /// [`stack_words`]).
    pub fn finish_stack(&mut self, stack: &[u8])
        ensures
            final(self).words() == old(self).words() + stack_words(stack@),
    {
        let ghost w0 = self.final_state@;
        let len = stack.len();
        let count = len / 4;
        let mut i: usize = 0;
        while i < count
            invariant
                len == stack@.len(),
                count == len / 4,
                i <= count,
                self.final_state@ == w0 + Seq::new(i as nat, |j: int| be_word(stack@, 4 * j)),
            decreases count - i,
        {
            let value = read_be_word(stack, 4 * i);
            self.final_state.push(value);
            i = i + 1;
            assert(self.final_state@ =~= w0 + Seq::new(i as nat, |j: int| be_word(stack@, 4 * j)));
        }
        let rem = len % 4;
        if rem != 0 {
            let tail = copy_range(stack, len - rem, len);
            proof {
                crate::bytes::lemma_be_value_bound(tail@);
                crate::bytes::lemma_pow256_monotone(rem as nat, 3);
                assert(crate::bytes::pow256(3) == 0x1000000) by {
                    reveal_with_fuel(crate::bytes::pow256, 4);
                }
            }
            let result = be_u128(&tail) as u32;
            self.final_state.push(result);
        }
        assert(self.final_state@ =~= w0 + stack_words(stack@));
    }

    /// The digest as upper-case hexadecimal ASCII digits, eight per word.
    pub fn hex_digest(&self) -> (r: Vec<u8>)
        ensures
            r@ == hex_digest_bytes(self.words()),
    {
        let mut to_return: Vec<u8> = Vec::new();
        let mut k: usize = 0;
        while k < self.final_state.len()
            invariant
                k <= self.final_state@.len(),
                to_return@ == hex_digest_bytes(self.final_state@.subrange(0, k as int)),
            decreases self.final_state@.len() - k,
        {
            let number = self.final_state[k];
            assert(((number & 0xf0000000u32) >> 28u32) < 16 && ((number & 0x0f000000u32) >> 24u32)
                < 16 && ((number & 0x00f00000u32) >> 20u32) < 16 && ((number & 0x000f0000u32)
                >> 16u32) < 16 && ((number & 0x0000f000u32) >> 12u32) < 16 && ((number
                & 0x00000f00u32) >> 8u32) < 16 && ((number & 0x000000f0u32) >> 4u32) < 16 && (number
                & 0x0000000fu32) < 16) by (bit_vector);
            let ghost before = to_return@;
            to_return.push(hex_digit_exec((number & 0xf0000000u32) >> 28u32));
            to_return.push(hex_digit_exec((number & 0x0f000000u32) >> 24u32));
            to_return.push(hex_digit_exec((number & 0x00f00000u32) >> 20u32));
            to_return.push(hex_digit_exec((number & 0x000f0000u32) >> 16u32));
            to_return.push(hex_digit_exec((number & 0x0000f000u32) >> 12u32));
            to_return.push(hex_digit_exec((number & 0x00000f00u32) >> 8u32));
            to_return.push(hex_digit_exec((number & 0x000000f0u32) >> 4u32));
            to_return.push(hex_digit_exec(number & 0x0000000fu32));
            assert(to_return@ =~= before + hex_word(number));
            assert(self.final_state@.subrange(0, k as int + 1).drop_last() =~= self.final_state@.subrange(
                0,
                k as int,
            ));
            k = k + 1;
        }
        assert(self.final_state@.subrange(0, k as int) =~= self.final_state@);
        to_return
    }

    /// The SHA-256 hash of the digest (see [`VM::digest`]).
    pub fn sha256_digest(&self) -> (r: [u8; 32])
        ensures
            r@ == sha256_of(digest_bytes(self.words())),
    {
        let d = self.digest();
        sha256_compute(d.as_slice())
    }

    /// The digest: the big-endian bytes of the words.
    pub fn digest(&self) -> (r: Vec<u8>)
        ensures
            r@ == digest_bytes(self.words()),
    {
        let mut to_return: Vec<u8> = Vec::new();
        let mut k: usize = 0;
        while k < self.final_state.len()
            invariant
                k <= self.final_state@.len(),
                to_return@ == digest_bytes(self.final_state@.subrange(0, k as int)),
            decreases self.final_state@.len() - k,
        {
            let number = self.final_state[k];
            let bytes = transform_u32_to_array_of_u8(number);
            extend_bytes(&mut to_return, bytes.as_slice());
            assert(self.final_state@.subrange(0, k as int + 1).drop_last() =~= self.final_state@.subrange(
                0,
                k as int,
            ));
            k = k + 1;
        }
        assert(self.final_state@.subrange(0, k as int) =~= self.final_state@);
        to_return
    }
}

/// The words that the remaining stack gives: its consecutive big-endian
/// words from the front, then, when the length is not a multiple of four, the
/// value of the last one to three bytes.
pub open spec fn stack_words(s: Seq<u8>) -> Seq<u32> {
    Seq::new(s.len() / 4, |j: int| be_word(s, 4 * j)) + if s.len() % 4 != 0 {
        seq![be_value(s.subrange(s.len() - s.len() % 4, s.len() as int)) as u32]
    } else {
        Seq::empty()
    }
}

/// The words of the remaining stack: one per four bytes, rounding up; word
/// `j` is the big-endian value of bytes `4 * j` to `4 * j + 3`, and a last
/// word of one to three bytes is the big-endian value of those bytes.
pub proof fn law_stack_words_value(s: Seq<u8>)
    ensures
        stack_words(s).len() == (s.len() + 3) / 4,
        forall|j: int|
            0 <= j < s.len() / 4 ==> #[trigger] stack_words(s)[j] == be_value(
                s.subrange(4 * j, 4 * j + 4),
            ),
        s.len() % 4 != 0 ==> stack_words(s)[(s.len() / 4) as int] == be_value(
            s.subrange(4 * (s.len() / 4) as int, s.len() as int),
        ),
{
    assert forall|j: int| 0 <= j < s.len() / 4 implies #[trigger] stack_words(s)[j] == be_value(
        s.subrange(4 * j, 4 * j + 4),
    ) by {
        crate::instruction_laws::lemma_word_at(s, 4 * j);
    }
    if s.len() % 4 != 0 {
        let t = s.subrange(s.len() - s.len() % 4, s.len() as int);
        crate::bytes::lemma_be_value_bound(t);
        crate::bytes::lemma_pow256_monotone(t.len(), 3);
        assert(crate::bytes::pow256(3) == 0x1000000) by {
            reveal_with_fuel(crate::bytes::pow256, 4);
        }
        assert(s.len() - s.len() % 4 == 4 * (s.len() / 4));
    }
}

/// The binary digest holds each word as four big-endian bytes, word `j` at
/// bytes `4 * j` to `4 * j + 3`.
pub proof fn law_digest_bytes_value(ws: Seq<u32>)
    ensures
        digest_bytes(ws).len() == 4 * ws.len(),
        forall|j: int|
            0 <= j < ws.len() ==> be_value(#[trigger] digest_bytes(ws).subrange(4 * j, 4 * j + 4))
                == ws[j],
    decreases ws.len(),
{
    if ws.len() > 0 {
        let init = ws.drop_last();
        law_digest_bytes_value(init);
        let d = digest_bytes(ws);
        let last = be_bytes_u32(ws.last());
        crate::instruction_laws::lemma_be_bytes_u32_value(ws.last());
        assert forall|j: int| 0 <= j < ws.len() implies be_value(
            #[trigger] d.subrange(4 * j, 4 * j + 4),
        ) == ws[j] by {
            if j < init.len() {
                assert(d.subrange(4 * j, 4 * j + 4) =~= digest_bytes(init).subrange(4 * j, 4 * j + 4));
                assert(init[j] == ws[j]);
            } else {
                assert(d.subrange(4 * j, 4 * j + 4) =~= last);
            }
        }
    }
}

// ---------------------------------------------------------------------------
// Blocks of the stack
// ---------------------------------------------------------------------------

/// The end of the window of `block_size` bytes from `block_start`, clamped to
/// the stack length.
pub open spec fn block_end(len: nat, block_start: nat, block_size: nat) -> nat {
    if block_start + block_size > len {
        len
    } else {
        block_start + block_size
    }
}

/// Takes the window `stack[block_start..end]` as a block to run the program
/// on from its start, with `end` as in [`block_end`]; returns the block and
/// `end`. `None` where the window does not exist: `block_start` is past the
/// end of the stack, or `block_start + block_size` overflows.
pub fn take_block(stack: &Vec<u8>, block_start: usize, block_size: usize) -> (r: Option<(BlockRun, usize)>)
    ensures
        (block_start > stack@.len() || block_start + block_size > usize::MAX) <==> r is None,
        r matches Some((run, end)) ==> {
            &&& end == block_end(stack@.len(), block_start as nat, block_size as nat)
            &&& run.block@ == stack@.subrange(block_start as int, end as int)
            &&& run.index == 0
        },
{
    if block_start > stack.len() || block_size > usize::MAX - block_start {
        return None;
    }
    let mut end = block_start + block_size;
    if end > stack.len() {
        end = stack.len();
    }
    let mut block: VecDeque<u8> = VecDeque::new();
    let mut k = block_start;
    while k < end
        invariant
            block_start <= k <= end <= stack@.len(),
            block@ == stack@.subrange(block_start as int, k as int),
        decreases end - k,
    {
        block.push_back(stack[k]);
        k = k + 1;
        assert(block@ =~= stack@.subrange(block_start as int, k as int));
    }
    Some((BlockRun { block, index: 0 }, end))
}

/// Writes `block` back over the window `stack[block_start..block_end]`, which
/// it replaces; returns where the next window starts (just after the block,
/// or 0 when the window reached the end of the new stack) and whether it
/// wrapped around to 0. `None`, leaving the stack unchanged, where the block
/// is longer than the window.
pub fn put_block(stack: &mut Vec<u8>, block: &VecDeque<u8>, block_start: usize, block_end: usize) -> (r: Option<(usize, bool)>)
    requires
        block_start <= block_end <= old(stack)@.len(),
    ensures
        (block@.len() > block_end - block_start) <==> r is None,
        r is None ==> final(stack)@ == old(stack)@,
        r matches Some((next, wrapped)) ==> {
            &&& final(stack)@ == old(stack)@.subrange(0, block_start as int) + block@ + old(
                stack,
            )@.subrange(block_end as int, old(stack)@.len() as int)
            &&& wrapped == (block_end >= final(stack)@.len())
            &&& next == if wrapped {
                0
            } else {
                block_start + block@.len()
            }
        },
{
    let m = block.len();
    if m > block_end - block_start {
        return None;
    }
    let ghost s = stack@;
    let mut out = copy_range(stack.as_slice(), 0, block_start);
    let mut k: usize = 0;
    while k < m
        invariant
            m == block@.len(),
            k <= m,
            out@ == s.subrange(0, block_start as int) + block@.subrange(0, k as int),
        decreases m - k,
    {
        out.push(block[k]);
        k = k + 1;
        assert(out@ =~= s.subrange(0, block_start as int) + block@.subrange(0, k as int));
    }
    assert(block@.subrange(0, k as int) =~= block@);
    let tail = copy_range(stack.as_slice(), block_end, stack.len());
    extend_bytes(&mut out, tail.as_slice());
    *stack = out;
    let wrapped = block_end >= stack.len();
    if wrapped {
        Some((0, true))
    } else {
        Some((block_start + m, false))
    }
}

// ---------------------------------------------------------------------------
// Execution over the whole stack
// ---------------------------------------------------------------------------

/// Where an execution over the stack stands: the window of the current round
/// and, while a floating-point result is awaited, the block and program index
/// of the interrupted run.
pub ghost struct ExecutionView {
    pub block_start: nat,
    pub block_end: nat,
    pub run: Option<(Seq<u8>, int)>,
}

/// An interrupted run lies inside a stack of `len` bytes.
pub open spec fn fits(v: ExecutionView, len: nat) -> bool {
    v.run is Some ==> v.block_start <= v.block_end <= len
}

/// What the caller of [`Execution::resume`] does next.
pub enum Action {
    /// Compute the floating-point operation and hand the result to
    /// [`Execution::supply_float`].
    Float(FloatRequest),
    /// A round over one window ended; `true` when the next round starts again
    /// from the front of the stack.
    Round(bool),
    /// The stack is no longer than the output size; its words were appended
    /// to the digest state.
    Finished,
    /// An opcode is not an instruction.
    Unknown,
    /// An instruction or a window does not fit.
    Fault,
}

/// The outcome of a run `r` in the window `[start, end)` of stack `s`: the
/// action `a`, the execution `v2` and the stack `s2` afterwards. A finished
/// run writes its block back over the window and moves the window on; a run
/// waiting for a floating-point result keeps its block and index; a run that
/// meets an unknown opcode leaves the stack and the window start as they were.
pub open spec fn round_result(
    a: Action,
    start: nat,
    end: nat,
    s: Seq<u8>,
    r: RunSpec,
    v2: ExecutionView,
    s2: Seq<u8>,
) -> bool {
    match r.end {
        RunEnd::Finished => if r.block.len() > end - start {
            a is Fault
        } else {
            let s3 = s.subrange(0, start as int) + r.block + s.subrange(end as int, s.len() as int);
            let wrapped = end >= s3.len();
            &&& a matches Action::Round(w) && w == wrapped
            &&& s2 == s3
            &&& v2.run is None
            &&& v2.block_start == (if wrapped {
                0
            } else {
                start + r.block.len()
            })
        },
        RunEnd::Float(call) => {
            &&& a matches Action::Float(q) && q.op == call.op && q.width == call.width && q.front
                == call.front && q.first@ == call.first && q.second@ == call.second
            &&& s2 == s
            &&& v2 == ExecutionView { block_start: start, block_end: end, run: Some((r.block, r.index)) }
        },
        RunEnd::Fault => a is Fault,
        RunEnd::Unknown => {
            &&& a is Unknown
            &&& s2 == s
            &&& v2.run is None
            &&& v2.block_start == start
        },
    }
}

/// A round never lengthens the stack: the block written back is at most as
/// long as the window it replaces.
pub proof fn law_round_never_grows_stack(
    a: Action,
    start: nat,
    end: nat,
    s: Seq<u8>,
    r: RunSpec,
    v2: ExecutionView,
    s2: Seq<u8>,
)
    requires
        start <= end <= s.len(),
        round_result(a, start, end, s, r, v2, s2),
        !(a is Fault || a is Unknown),
    ensures
        s2.len() <= s.len(),
{
}

/// An execution of a program over the stack, driven by the caller: each call
/// of [`Execution::resume`] runs until a round over one window ends, a
/// floating-point result is needed, or the stack is short enough.
pub struct Execution {
    block_start: usize,
    block_end: usize,
    run: Option<BlockRun>,
}

impl View for Execution {
    type V = ExecutionView;

    closed spec fn view(&self) -> ExecutionView {
        ExecutionView {
            block_start: self.block_start as nat,
            block_end: self.block_end as nat,
            run: match self.run {
                Some(r) => Some((r.block@, r.index as int)),
                None => None,
            },
        }
    }
}

impl Execution {
    /// An execution whose first window starts at the front of the stack.
    pub fn new() -> (e: Execution)
        ensures
            e@ == (ExecutionView { block_start: 0, block_end: 0, run: None }),
    {
        Execution { block_start: 0, block_end: 0, run: None }
    }

    /// Runs `buffer` on `stack` up to the next action (see [`round_result`]).
    /// Without an interrupted run: when the stack is no longer than
    /// `output_max_size`, its words go to the digest state and the execution
    /// is finished; otherwise a window of `block_size` bytes is taken from the
    /// current start and the program is run on it from its first instruction.
    /// With an interrupted run, that run goes on.
    pub fn resume(
        &mut self,
        vm: &mut VM,
        stack: &mut Vec<u8>,
        buffer: &[u8],
        block_size: usize,
        min_block_size: usize,
        output_max_size: usize,
    ) -> (a: Action)
        requires
            fits(old(self)@, old(stack)@.len()),
        ensures
            fits(final(self)@, final(stack)@.len()),
            ({
                let v = old(self)@;
                let s = old(stack)@;
                match v.run {
                    Some((b, i)) => {
                        let r = spec_run(b, i, buffer@, min_block_size as nat);
                        &&& round_result(a, v.block_start, v.block_end, s, r, final(self)@, final(stack)@)
                        &&& !(r.end is Fault) ==> final(vm).words() == old(vm).words() + r.words
                    },
                    None => if s.len() <= output_max_size {
                        &&& a is Finished
                        &&& final(vm).words() == old(vm).words() + stack_words(s)
                        &&& final(stack)@ == s
                        &&& final(self)@ == v
                    } else if v.block_start > s.len() || v.block_start + block_size > usize::MAX {
                        a is Fault
                    } else {
                        let e = block_end(s.len(), v.block_start, block_size as nat);
                        let r = spec_run(
                            s.subrange(v.block_start as int, e as int),
                            0,
                            buffer@,
                            min_block_size as nat,
                        );
                        &&& round_result(a, v.block_start, e, s, r, final(self)@, final(stack)@)
                        &&& !(r.end is Fault) ==> final(vm).words() == old(vm).words() + r.words
                    },
                }
            }),
    {
        let mut run = match self.run.take() {
            Some(r) => r,
            None => {
                if stack.len() <= output_max_size {
                    vm.finish_stack(stack.as_slice());
                    return Action::Finished;
                }
                match take_block(stack, self.block_start, block_size) {
                    None => {
                        return Action::Fault;
                    },
                    Some((r, e)) => {
                        self.block_end = e;
                        r
                    },
                }
            },
        };
        match vm.run_instructions(&mut run, buffer, min_block_size) {
            Halt::Finished => {
                match put_block(stack, &run.block, self.block_start, self.block_end) {
                    None => Action::Fault,
                    Some((next, wrapped)) => {
                        self.block_start = next;
                        Action::Round(wrapped)
                    },
                }
            },
            Halt::Float(q) => {
                self.run = Some(run);
                Action::Float(q)
            },
            Halt::Fault => Action::Fault,
            Halt::Unknown(_) => Action::Unknown,
        }
    }

    /// Finishes the interrupted floating-point instruction with `result` (see
    /// [`complete_float`]). `false`, dropping the interrupted run, where there
    /// is none, the index would overflow, or the immediate bytes are missing.
    pub fn supply_float(&mut self, buffer: &[u8], request: &FloatRequest, result: Option<Vec<u8>>) -> (ok: bool)
        ensures
            final(self)@.block_start == old(self)@.block_start,
            final(self)@.block_end == old(self)@.block_end,
            !ok ==> final(self)@.run is None,
            match old(self)@.run {
                None => !ok,
                Some((b, i)) => if i + request.width > usize::MAX {
                    !ok
                } else {
                    match float_completion(
                        b,
                        buffer@,
                        i,
                        request.width as nat,
                        request.front,
                        opt_bytes(result),
                    ) {
                        Some((b2, i2)) => ok && final(self)@.run == Some((b2, i2)),
                        None => !ok,
                    }
                },
            },
    {
        match self.run.take() {
            None => false,
            Some(mut run) => {
                if run.index > usize::MAX - request.width {
                    return false;
                }
                if complete_float(&mut run, buffer, request, result) {
                    self.run = Some(run);
                    true
                } else {
                    false
                }
            },
        }
    }
}

// ---------------------------------------------------------------------------
// Padding
// ---------------------------------------------------------------------------

/// The state of a MurmurHash2 generator after `k` draws from `seed`.
pub open spec fn murmur_iter(seed: u32, k: nat) -> u32
    decreases k,
{
    if k == 0 {
        seed
    } else {
        murmur_next(murmur_iter(seed, (k - 1) as nat))
    }
}

/// The big-endian bytes of the first `w` draws from `seed`.
pub open spec fn pad_words(seed: u32, w: nat) -> Seq<u8>
    decreases w,
{
    if w == 0 {
        Seq::empty()
    } else {
        pad_words(seed, (w - 1) as nat) + be_bytes_u32(murmur_iter(seed, w))
    }
}

/// The bytes that [`pad_data`] appends to `data`: draws of a MurmurHash2
/// generator seeded with the hash of `data`, each as its four big-endian
/// bytes, while four more bytes fit below `size`; then, if one to three bytes
/// are missing, the least significant bytes of one more draw, least
/// significant first. Nothing when `data` is already longer than `size`.
pub open spec fn padding(data: Seq<u8>, size: nat) -> Seq<u8> {
    if data.len() > size {
        Seq::empty()
    } else {
        let seed = spec_murmur2(data, data.len() as u64);
        let w = ((size - data.len()) / 4) as nat;
        let r = ((size - data.len()) % 4) as nat;
        pad_words(seed, w) + if r > 0 {
            be_bytes_u32(murmur_iter(seed, w + 1)).reverse().subrange(0, r as int)
        } else {
            Seq::empty()
        }
    }
}

/// Padding brings data that is not longer than the wanted size to exactly
/// that size.
pub proof fn law_padding_length(data: Seq<u8>, size: nat)
    requires
        data.len() <= size,
    ensures
        (data + padding(data, size)).len() == size,
{
    let seed = spec_murmur2(data, data.len() as u64);
    let w = ((size - data.len()) / 4) as nat;
    lemma_pad_words_length(seed, w);
}

proof fn lemma_pad_words_length(seed: u32, w: nat)
    ensures
        pad_words(seed, w).len() == 4 * w,
    decreases w,
{
    if w > 0 {
        lemma_pad_words_length(seed, (w - 1) as nat);
    }
}

proof fn lemma_pad_words_at(seed: u32, w: nat, j: int)
    requires
        0 <= j < w,
    ensures
        pad_words(seed, w).len() == 4 * w,
        pad_words(seed, w).subrange(4 * j, 4 * j + 4) == be_bytes_u32(murmur_iter(seed, (j + 1) as nat)),
    decreases w,
{
    lemma_pad_words_length(seed, w);
    lemma_pad_words_length(seed, (w - 1) as nat);
    let pw = pad_words(seed, w);
    let prev = pad_words(seed, (w - 1) as nat);
    if j < w - 1 {
        lemma_pad_words_at(seed, (w - 1) as nat, j);
        assert(pw.subrange(4 * j, 4 * j + 4) =~= prev.subrange(4 * j, 4 * j + 4));
    } else {
        assert(pw.subrange(4 * j, 4 * j + 4) =~= be_bytes_u32(murmur_iter(seed, w)));
    }
}

/// The padding of data no longer than the wanted size, by position: with
/// the generator seeded with the MurmurHash2 of the data, each whole group of
/// four padding bytes `j` is the big-endian value of draw `j + 1`; the one to
/// three bytes after the last whole group are the least significant bytes of
/// the next draw, least significant first.
pub proof fn law_padding_bytes(data: Seq<u8>, size: nat)
    requires
        data.len() <= size,
    ensures
        ({
            let seed = spec_murmur2(data, data.len() as u64);
            let w = ((size - data.len()) / 4) as int;
            let pad = padding(data, size);
            let next = murmur_iter(seed, (w + 1) as nat);
            &&& pad.len() == size - data.len()
            &&& forall|j: int|
                0 <= j < w ==> be_value(#[trigger] pad.subrange(4 * j, 4 * j + 4)) == murmur_iter(
                    seed,
                    (j + 1) as nat,
                )
            &&& forall|i: int|
                0 <= i < pad.len() - 4 * w ==> #[trigger] pad[4 * w + i] as u32 == (next >> (8
                    * i) as u32) & 0xff
        }),
{
    let seed = spec_murmur2(data, data.len() as u64);
    let w = ((size - data.len()) / 4) as int;
    let r = ((size - data.len()) % 4) as int;
    let pad = padding(data, size);
    let next = murmur_iter(seed, (w + 1) as nat);
    law_padding_length(data, size);
    lemma_pad_words_length(seed, w as nat);
    let pw = pad_words(seed, w as nat);
    assert forall|j: int| 0 <= j < w implies be_value(#[trigger] pad.subrange(4 * j, 4 * j + 4))
        == murmur_iter(seed, (j + 1) as nat) by {
        lemma_pad_words_at(seed, w as nat, j);
        assert(pad.subrange(4 * j, 4 * j + 4) =~= pw.subrange(4 * j, 4 * j + 4));
        crate::instruction_laws::lemma_be_bytes_u32_value(murmur_iter(seed, (j + 1) as nat));
    }
    assert forall|i: int| 0 <= i < pad.len() - 4 * w implies #[trigger] pad[4 * w + i] as u32 == (
    next >> (8 * i) as u32) & 0xff by {
        assert(r > 0);
        let tail = be_bytes_u32(next).reverse().subrange(0, r);
        assert(pad[4 * w + i] == tail[i]);
        if i == 0 {
            assert(((next & 0xff) as u8) as u32 == (next >> 0u32) & 0xff) by (bit_vector);
        } else if i == 1 {
            assert((((next >> 8u32) & 0xff) as u8) as u32 == (next >> 8u32) & 0xff) by (bit_vector);
        } else {
            assert((((next >> 16u32) & 0xff) as u8) as u32 == (next >> 16u32) & 0xff) by (bit_vector);
        }
    }
}

/// Taking a block and putting it back unchanged leaves the stack as it was.
pub proof fn law_block_roundtrip(stack: Seq<u8>, block_start: nat, block_size: nat)
    requires
        block_start <= stack.len(),
    ensures
        ({
            let e = block_end(stack.len(), block_start, block_size);
            stack.subrange(0, block_start as int) + stack.subrange(block_start as int, e as int)
                + stack.subrange(e as int, stack.len() as int) == stack
        }),
{
    let e = block_end(stack.len(), block_start, block_size);
    assert(stack.subrange(0, block_start as int) + stack.subrange(block_start as int, e as int)
        + stack.subrange(e as int, stack.len() as int) =~= stack);
}

/// Pads `data` with pseudo-random bytes up to `size` bytes (see
/// [`padding`]).
pub fn pad_data(data: &mut Vec<u8>, size: u64)
    requires
        size >= 4,
        old(data)@.len() <= u64::MAX,
    ensures
        final(data)@ == old(data)@ + padding(old(data)@, size as nat),
{
    let ghost d = data@;
    let mut initial_size: u64 = data.len() as u64;
    let mut data_vector = copy_range(data.as_slice(), 0, data.len());
    assert(data_vector@ =~= d);
    let mut rng = MurMur2RNG::get_generator(data_vector.as_mut_slice(), initial_size);
    let ghost seed = rng.state();
    let ghost w: nat = if d.len() > size {
        0
    } else {
        ((size - d.len()) / 4) as nat
    };
    let mut count: u64 = 0;
    while initial_size <= size - 4
        invariant
            size >= 4,
            initial_size == d.len() + 4 * count,
            d.len() <= size ==> initial_size <= size,
            d.len() > size ==> count == 0,
            rng.state() == murmur_iter(seed, count as nat),
            data@ == d + pad_words(seed, count as nat),
        decreases size - initial_size,
    {
        let ghost before = data@;
        let v = rng.generate();
        let bytes = transform_u32_to_array_of_u8(v);
        extend_bytes(data, bytes.as_slice());
        assert(pad_words(seed, (count + 1) as nat) == pad_words(seed, count as nat) + be_bytes_u32(
            murmur_iter(seed, (count + 1) as nat),
        ));
        assert(data@ =~= d + pad_words(seed, (count + 1) as nat));
        initial_size = initial_size + 4;
        count = count + 1;
    }
    proof {
        if d.len() <= size {
            let c = count as int;
            let m = size - d.len();
            assert(m / 4 == c) by (nonlinear_arith)
                requires
                    0 <= m - 4 * c < 4,
            ;
        }
    }
    assert(count == w);
    if initial_size <= size {
        let rest = size - initial_size;
        if rest > 0 {
            let v = rng.generate();
            let be = transform_u32_to_array_of_u8(v);
            let le = crate::bytes::reversed(be.as_slice());
            let part = copy_range(le.as_slice(), 0, rest as usize);
            extend_bytes(data, part.as_slice());
        }
    }
}

} // verus!
