use std::collections::VecDeque;

use aes::cipher::generic_array::GenericArray;
use aes::cipher::{BlockDecrypt, BlockEncrypt, KeyInit};
use aplorandom::instructions::{
    complete_float, place_cipher_output, put_end, shift_4_bits_left_stricted, step, take_end, BlockRun, FloatOp, Step,
};

fn run_of(block: &[u8]) -> BlockRun {
    BlockRun { block: VecDeque::from(block.to_vec()), index: 0 }
}

fn block_of(run: &BlockRun) -> Vec<u8> {
    run.block.iter().copied().collect()
}

/// Executes the single instruction at the start of `program` on `block`.
fn exec(block: &[u8], program: &[u8]) -> (Step, BlockRun) {
    let mut run = run_of(block);
    let r = step(&mut run, program);
    (r, run)
}

fn expect_next(block: &[u8], program: &[u8], want: &[u8], want_index: usize) {
    let (r, run) = exec(block, program);
    assert!(matches!(r, Step::Next(None)), "program {:?}", program);
    assert_eq!(block_of(&run), want.to_vec(), "program {:?}", program);
    assert_eq!(run.index, want_index, "program {:?}", program);
}

fn expect_fault(block: &[u8], program: &[u8]) {
    let (r, _) = exec(block, program);
    assert!(matches!(r, Step::Fault), "program {:?}", program);
}

#[test]
fn literal_back_appends_bytes() {
    expect_next(&[1], &[0, 0, 2, 9, 8], &[1, 9, 8], 5);
    expect_next(&[1], &[0, 0, 0], &[1], 3);
}

#[test]
fn literal_front_pushes_bytes_one_by_one() {
    expect_next(&[1], &[1, 0, 3, 7, 8, 9], &[9, 8, 7, 1], 6);
}

#[test]
fn literal_with_missing_bytes_faults() {
    expect_fault(&[1], &[0, 0, 3, 7, 8]);
    expect_fault(&[1], &[1, 0]);
}

#[test]
fn nibble_shift() {
    let mut v = vec![0x12u8, 0x34, 0x56];
    shift_4_bits_left_stricted(&mut v);
    assert_eq!(v, vec![0x23, 0x45, 0x60]);
    let mut e: Vec<u8> = Vec::new();
    shift_4_bits_left_stricted(&mut e);
    assert!(e.is_empty());
}

#[test]
fn integer_sum_front() {
    // n = 8: two one-byte operands, 0x10 + 0x03.
    expect_next(&[0x10, 0x03, 0xaa], &[2, 0, 8], &[0x13, 0xaa], 3);
    // n = 16: 1 + 2 on 16 bits.
    expect_next(&[0x00, 0x01, 0x00, 0x02, 5], &[2, 0, 16], &[0x00, 0x03, 5], 3);
    // carries propagate and the last carry is dropped: 0xfff0 + 0x0110
    expect_next(&[0xff, 0xf0, 0x01, 0x10, 0x77], &[2, 0, 16], &[0x01, 0x00, 0x77], 3);
}

#[test]
fn integer_sum_back() {
    expect_next(&[0xaa, 0x10, 0x03], &[3, 0, 8], &[0xaa, 0x13], 3);
}

#[test]
fn integer_sum_with_shared_nibble() {
    // n = 12: three bytes popped, the middle byte is shared.
    // first = [0x12, 0x30], second = [0x04, 0x56] shifted to [0x45, 0x60]
    expect_next(&[0x12, 0x34, 0x56, 0x99], &[2, 0, 12], &[0x57, 0x90, 0x99], 3);
}

#[test]
fn integer_sum_with_no_operands() {
    expect_next(&[5, 6], &[2, 0, 0], &[5, 6], 3);
}

#[test]
fn integer_sum_with_too_short_count_faults() {
    expect_fault(&[5, 6], &[2, 0, 3]);
    expect_fault(&[5], &[2, 0, 16]);
    expect_fault(&[5], &[2, 0]);
}

#[test]
fn integer_difference_front() {
    // 0x10 - 0x03 = 0x0d on two bytes, positive
    expect_next(&[0x10, 0x03, 0xaa], &[4, 0, 8], &[0x00, 0x0d, 0xaa], 3);
    // 0x03 - 0x10 = -0x0d, sign bit set
    expect_next(&[0x03, 0x10, 0xaa], &[4, 0, 8], &[0x80, 0x0d, 0xaa], 3);
}

#[test]
fn integer_difference_of_negative_operands() {
    // first = -0x10, second = 0x03: -16 - 3 = -19
    expect_next(&[0x90, 0x03], &[5, 0, 8], &[0x80, 0x13], 3);
}

#[test]
fn integer_difference_without_operands_faults() {
    expect_fault(&[5, 6], &[4, 0, 0]);
}

#[test]
fn integer_product() {
    expect_next(&[3, 5, 7], &[6, 0, 1], &[15, 7], 3);
    // truncated to the low byte
    expect_next(&[7, 16, 16, 20], &[7, 0, 1], &[7, 16, 0x40], 3);
    // zero-padded on the left
    expect_next(&[0, 3, 0, 5], &[6, 0, 2], &[0, 15], 3);
}

#[test]
fn integer_product_needs_both_operands() {
    expect_fault(&[3, 5, 7], &[6, 0, 2]);
}

#[test]
fn float_front_requests_operands() {
    let (r, run) = exec(&[1, 2, 3, 4, 5, 6, 7, 8, 9], &[10, 0xaa, 0xbb, 0xcc, 0xdd]);
    match r {
        Step::Float(q) => {
            assert_eq!(q.op, FloatOp::Mul);
            assert_eq!(q.width, 4);
            assert!(q.front);
            assert_eq!(q.first, vec![1, 2, 3, 4]);
            assert_eq!(q.second, vec![5, 6, 7, 8]);
        }
        _ => panic!("expected a float request"),
    }
    assert_eq!(block_of(&run), vec![9]);
    assert_eq!(run.index, 1);
}

#[test]
fn float_back_requests_operands() {
    let (r, run) = exec(&[9, 1, 2, 3, 4, 5, 6, 7, 8], &[13, 0, 0, 0, 0]);
    match r {
        Step::Float(q) => {
            assert_eq!(q.op, FloatOp::Sub);
            assert!(!q.front);
            assert_eq!(q.first, vec![5, 6, 7, 8]);
            assert_eq!(q.second, vec![1, 2, 3, 4]);
        }
        _ => panic!("expected a float request"),
    }
    assert_eq!(block_of(&run), vec![9]);
}

#[test]
fn double_requests_eight_byte_operands() {
    let block: Vec<u8> = (0u8..16).collect();
    let (r, _) = exec(&block, &[22]);
    match r {
        Step::Float(q) => {
            assert_eq!(q.op, FloatOp::Div);
            assert_eq!(q.width, 8);
            assert_eq!(q.first, (0u8..8).collect::<Vec<u8>>());
        }
        _ => panic!("expected a float request"),
    }
    expect_fault(&block[..15], &[22]);
}

#[test]
fn float_completion_with_a_result() {
    let mut run = run_of(&[1, 2, 3, 4, 5, 6, 7, 8, 9]);
    let program = [8u8, 0xaa, 0xbb, 0xcc, 0xdd];
    let q = match step(&mut run, &program) {
        Step::Float(q) => q,
        _ => panic!("expected a float request"),
    };
    let a = f32::from_be_bytes([q.first[0], q.first[1], q.first[2], q.first[3]]);
    let b = f32::from_be_bytes([q.second[0], q.second[1], q.second[2], q.second[3]]);
    let sum = (a + b).to_be_bytes().to_vec();
    assert!(complete_float(&mut run, &program, &q, Some(sum.clone())));
    let mut want = sum;
    want.push(9);
    assert_eq!(block_of(&run), want);
    assert_eq!(run.index, 5);
}

#[test]
fn float_completion_without_a_result_uses_the_immediate() {
    let mut run = run_of(&[1, 2, 3, 4, 5, 6, 7, 8, 9]);
    let program = [9u8, 0xaa, 0xbb, 0xcc, 0xdd];
    let q = match step(&mut run, &program) {
        Step::Float(q) => q,
        _ => panic!("expected a float request"),
    };
    assert!(complete_float(&mut run, &program, &q, None));
    assert_eq!(block_of(&run), vec![1, 0xaa, 0xbb, 0xcc, 0xdd]);
    assert_eq!(run.index, 5);
}

#[test]
fn float_completion_without_immediate_fails() {
    let mut run = run_of(&[1, 2, 3, 4, 5, 6, 7, 8, 9]);
    let program = [8u8, 0xaa];
    let q = match step(&mut run, &program) {
        Step::Float(q) => q,
        _ => panic!("expected a float request"),
    };
    assert!(!complete_float(&mut run, &program, &q, None));
}

#[test]
fn bitwise_front() {
    // count 1 -> two-byte operands
    expect_next(&[0, 1, 0xf0, 0x0f, 0x33, 0x44, 0x55], &[24], &[0xf3, 0x4f, 0x55], 1);
    expect_next(&[0, 1, 0xf0, 0x0f, 0x33, 0x44, 0x55], &[26], &[0x30, 0x04, 0x55], 1);
    expect_next(&[0, 0x10, 0xf0, 0x33], &[28], &[0xc3], 1);
}

#[test]
fn bitwise_back() {
    expect_next(&[0x55, 0x33, 0x44, 0xf0, 0x0f, 0, 1], &[25], &[0x55, 0xf3, 0x4f], 1);
    expect_fault(&[0x33, 0x44, 0xf0, 0, 1], &[29]);
}

#[test]
fn complement_front_and_back() {
    expect_next(&[0, 0, 0x0f, 0x77], &[30], &[0xf0, 0x77], 1);
    expect_next(&[0x77, 0x0f, 0x00, 0, 1], &[31], &[0x77, 0xf0, 0xff], 1);
    expect_fault(&[0], &[30]);
}

#[test]
fn shifts() {
    // front shift left by 4 of [0x12]
    expect_next(&[0, 0, 0x12, 0x99], &[32, 4], &[0x01, 0x20, 0x99], 2);
    // back shift left by 8
    expect_next(&[0x99, 0x12, 0, 0], &[33, 8], &[0x99, 0x12, 0x00], 2);
    // front shift right by 4 of [0x12, 0x34]
    expect_next(&[0, 1, 0x12, 0x34, 0x99], &[34, 4], &[0x01, 0x23, 0x99], 2);
    // back shift right past all bits gives a single zero byte
    expect_next(&[0x99, 0x12, 0, 0], &[35, 9], &[0x99, 0x00], 2);
    // the shift byte is missing
    expect_fault(&[0, 0, 0x12], &[32]);
}

#[test]
fn address_sum_front() {
    // address 0 modulo (10 - 8); words at 0 and 4 of the rest
    let mut block = vec![0u8; 8];
    block.extend_from_slice(&[0, 0, 0, 1, 0xff, 0xff, 0xff, 0xff, 7, 7]);
    let mut want = vec![0u8, 0, 0, 0];
    want.extend_from_slice(&[0, 0, 0, 1, 0xff, 0xff, 0xff, 0xff, 7, 7]);
    expect_next(&block, &[36], &want, 1);
}

#[test]
fn address_difference_back() {
    // rest has 9 bytes, the address is reduced modulo 1
    let mut block = vec![1u8, 2, 3, 4, 0, 0, 0, 1, 5];
    block.extend_from_slice(&[0, 0, 0, 0, 0, 0, 0, 5]);
    let mut want = vec![1u8, 2, 3, 4, 0, 0, 0, 1, 5];
    want.extend_from_slice(&0x0102_0304u32.wrapping_sub(1).to_be_bytes());
    expect_next(&block, &[39], &want, 1);
}

#[test]
fn address_needs_more_than_sixteen_bytes() {
    expect_fault(&[0u8; 16], &[36]);
    expect_fault(&[0u8; 7], &[37]);
}

fn aes_expected(op: u8, key: &[u8]) -> Vec<u8> {
    let mut b = GenericArray::clone_from_slice(&[0u8; 16]);
    match op {
        40 => aes::Aes128::new(GenericArray::from_slice(key)).encrypt_block(&mut b),
        41 => aes::Aes128::new(GenericArray::from_slice(key)).decrypt_block(&mut b),
        42 => aes::Aes192::new(GenericArray::from_slice(key)).encrypt_block(&mut b),
        43 => aes::Aes192::new(GenericArray::from_slice(key)).decrypt_block(&mut b),
        44 => aes::Aes256::new(GenericArray::from_slice(key)).encrypt_block(&mut b),
        _ => aes::Aes256::new(GenericArray::from_slice(key)).decrypt_block(&mut b),
    }
    b.iter().rev().copied().collect()
}

#[test]
fn aes_instructions() {
    for (op, klen) in [(40u8, 16usize), (41, 16), (42, 24), (43, 24), (44, 32), (45, 32)] {
        let mut block: Vec<u8> = (0..klen as u8).collect();
        block.extend_from_slice(&[0xee, 0xdd]);
        block.extend_from_slice(&[0x55u8; 16]);
        let key: Vec<u8> = (0..klen as u8).collect();
        let mut want = aes_expected(op, &key);
        want.extend_from_slice(&[0xee, 0xdd]);
        expect_next(&block, &[op], &want, 1);
        expect_fault(&block[..klen + 15], &[op]);
    }
}

#[test]
fn aes_128_of_zero_key_known_answer() {
    // AES-128 of the zero block under the zero key is 66e94bd4ef8a2c3b884cfa59ca342b2e
    let block = [0u8; 32];
    let mut want: Vec<u8> = vec![
        0x66, 0xe9, 0x4b, 0xd4, 0xef, 0x8a, 0x2c, 0x3b, 0x88, 0x4c, 0xfa, 0x59, 0xca, 0x34, 0x2b,
        0x2e,
    ];
    want.reverse();
    expect_next(&block, &[40], &want, 1);
}

#[test]
fn rotate_moves_four_bytes_to_the_front() {
    expect_next(&[1, 2, 3, 4, 5, 6], &[46], &[3, 4, 5, 6, 1, 2], 1);
    expect_next(&[1, 2, 3], &[46], &[3, 1, 2], 1);
    expect_fault(&[], &[46]);
}

#[test]
fn emit_words() {
    let (r, run) = exec(&[1, 2, 3, 4, 5], &[47]);
    assert!(matches!(r, Step::Next(Some(0x0203_0405))));
    assert_eq!(block_of(&run), vec![1]);
    let (r, run) = exec(&[1, 2, 3, 4, 5], &[48]);
    assert!(matches!(r, Step::Next(Some(0x0102_0304))));
    assert_eq!(block_of(&run), vec![5]);
    expect_fault(&[1, 2, 3], &[48]);
}

#[test]
fn unknown_opcodes() {
    for op in [49u8, 100, 255] {
        let (r, _) = exec(&[1, 2, 3], &[op]);
        assert!(matches!(r, Step::Unknown(x) if x == op));
    }
}

#[test]
fn putting_back_taken_bytes_restores_the_block() {
    for front in [true, false] {
        let mut block: VecDeque<u8> = VecDeque::from(vec![1, 2, 3, 4, 5, 6]);
        let taken = take_end(&mut block, front, 4);
        if front {
            assert_eq!(taken, vec![1, 2, 3, 4]);
        } else {
            assert_eq!(taken, vec![3, 4, 5, 6]);
        }
        put_end(&mut block, front, &taken);
        assert_eq!(block, VecDeque::from(vec![1, 2, 3, 4, 5, 6]));
    }
}

#[test]
fn cipher_output_goes_to_the_front_reversed() {
    let mut block: VecDeque<u8> = VecDeque::from(vec![100, 101]);
    let mut out = [0u8; 16];
    for (i, b) in out.iter_mut().enumerate() {
        *b = i as u8;
    }
    place_cipher_output(&mut block, &out);
    let mut want: Vec<u8> = (0u8..16).rev().collect();
    want.extend_from_slice(&[100, 101]);
    assert_eq!(block, VecDeque::from(want));
}
