use sha2::{Digest, Sha256};
use std::collections::VecDeque;

use aplorandom::algorithm_processor::{get_VM, pad_data, put_block, take_block, Action, Execution, VM};
use aplorandom::instructions::{BlockRun, Halt};
use aplorandom::rng::murmur2;

fn vm_with_stack(stack: &[u8]) -> VM {
    let mut vm = get_VM();
    vm.finish_stack(stack);
    vm
}

#[test]
fn new_machine_has_no_words() {
    let vm = get_VM();
    assert!(vm.final_state().is_empty());
    assert!(vm.digest().is_empty());
    assert!(vm.hex_digest().is_empty());
}

#[test]
fn finish_stack_reads_consecutive_words_then_the_tail() {
    let vm = vm_with_stack(&[1, 2, 3, 4, 5, 6, 7, 8, 9, 10]);
    assert_eq!(vm.final_state(), vec![0x0102_0304, 0x0506_0708, 0x090a]);
}

#[test]
fn finish_stack_tails_of_each_length() {
    assert_eq!(vm_with_stack(&[0xab]).final_state(), vec![0xab]);
    assert_eq!(vm_with_stack(&[0xab, 0xcd]).final_state(), vec![0xabcd]);
    assert_eq!(vm_with_stack(&[0xab, 0xcd, 0xef]).final_state(), vec![0xabcdef]);
    assert_eq!(vm_with_stack(&[0xab, 0xcd, 0xef, 0x01]).final_state(), vec![0xabcdef01]);
    assert!(vm_with_stack(&[]).final_state().is_empty());
}

#[test]
fn digest_is_big_endian_words() {
    let vm = vm_with_stack(&[0xde, 0xad, 0xbe, 0xef, 0x01, 0x02]);
    assert_eq!(vm.digest(), vec![0xde, 0xad, 0xbe, 0xef, 0x00, 0x00, 0x01, 0x02]);
}

#[test]
fn hex_digest_is_upper_case_hex_of_digest() {
    let vm = vm_with_stack(&[0xde, 0xad, 0xbe, 0xef, 0x01, 0x02]);
    assert_eq!(vm.hex_digest(), b"DEADBEEF00000102".to_vec());
    let hex: Vec<u8> = vm
        .digest()
        .iter()
        .flat_map(|b| format!("{:02X}", b).into_bytes())
        .collect();
    assert_eq!(vm.hex_digest(), hex);
}

#[test]
fn hex_digest_of_all_digits() {
    let vm = vm_with_stack(&[0x01, 0x23, 0x45, 0x67, 0x89, 0xab, 0xcd, 0xef]);
    assert_eq!(vm.hex_digest(), b"0123456789ABCDEF".to_vec());
}

/// Padding as the hashing scheme describes it, written independently.
fn reference_padding(data: &[u8], size: u64) -> Vec<u8> {
    let mut out = data.to_vec();
    let mut copy = data.to_vec();
    let mut state = murmur2(&mut copy, data.len() as u64);
    let mut next = || {
        let mut b = state.to_be_bytes();
        state = murmur2(&mut b, 4);
        state
    };
    let mut len = data.len() as u64;
    while len + 4 <= size {
        out.extend_from_slice(&next().to_be_bytes());
        len += 4;
    }
    if len < size {
        let le = next().to_le_bytes();
        out.extend_from_slice(&le[..(size - len) as usize]);
    }
    out
}

#[test]
fn padding_reaches_the_size_and_keeps_the_data() {
    for size in 6u64..20 {
        let mut data = vec![0xFAu8; 6];
        pad_data(&mut data, size);
        assert_eq!(data.len() as u64, size);
        assert_eq!(&data[..6], &[0xFA; 6]);
        assert_eq!(data, reference_padding(&[0xFA; 6], size));
    }
}

#[test]
fn padding_longer_data_is_unchanged() {
    let mut data = vec![1u8, 2, 3, 4, 5, 6, 7, 8];
    pad_data(&mut data, 5);
    assert_eq!(data, vec![1, 2, 3, 4, 5, 6, 7, 8]);
}

#[test]
fn padding_of_empty_data() {
    let mut data: Vec<u8> = Vec::new();
    pad_data(&mut data, 7);
    assert_eq!(data.len(), 7);
    assert_eq!(data, reference_padding(&[], 7));
}

#[test]
fn take_block_clamps_to_the_stack() {
    let stack = vec![1u8, 2, 3, 4, 5];
    let (run, end) = take_block(&stack, 1, 10).unwrap();
    assert_eq!(end, 5);
    assert_eq!(run.block, VecDeque::from(vec![2u8, 3, 4, 5]));
    assert_eq!(run.index, 0);
    let (run, end) = take_block(&stack, 1, 2).unwrap();
    assert_eq!(end, 3);
    assert_eq!(run.block, VecDeque::from(vec![2u8, 3]));
}

#[test]
fn take_block_refuses_missing_windows() {
    let stack = vec![1u8, 2, 3];
    assert!(take_block(&stack, 4, 1).is_none());
    assert!(take_block(&stack, 1, usize::MAX).is_none());
    assert!(take_block(&stack, 3, 2).is_some());
}

#[test]
fn put_block_replaces_the_window() {
    let mut stack = vec![1u8, 2, 3, 4, 5, 6, 7, 8];
    let block = VecDeque::from(vec![9u8]);
    assert_eq!(put_block(&mut stack, &block, 1, 4), Some((2, false)));
    assert_eq!(stack, vec![1, 9, 5, 6, 7, 8]);
}

#[test]
fn put_block_wraps_at_the_end() {
    let mut stack = vec![1u8, 2, 3, 4, 5, 6];
    let block = VecDeque::from(vec![7u8, 8]);
    assert_eq!(put_block(&mut stack, &block, 2, 6), Some((0, true)));
    assert_eq!(stack, vec![1, 2, 7, 8]);
    // the end of the window is compared with the new, shorter stack
    let mut stack = vec![1u8, 2, 3, 4, 5, 6];
    let block = VecDeque::from(vec![9u8]);
    assert_eq!(put_block(&mut stack, &block, 1, 4), Some((0, true)));
    assert_eq!(stack, vec![1, 9, 5, 6]);
}

#[test]
fn put_block_refuses_a_longer_block() {
    let mut stack = vec![1u8, 2, 3];
    let block = VecDeque::from(vec![7u8, 8, 9]);
    assert_eq!(put_block(&mut stack, &block, 0, 2), None);
}

#[test]
fn run_emits_words_until_the_block_is_small() {
    let mut vm = get_VM();
    let mut run = BlockRun { block: VecDeque::from(vec![1u8, 2, 3, 4, 5, 6, 7, 8, 9]), index: 0 };
    let program = [48u8, 47, 48, 47];
    let h = vm.run_instructions(&mut run, &program, 2);
    assert!(matches!(h, Halt::Finished));
    assert_eq!(vm.final_state(), vec![0x0102_0304, 0x0607_0809]);
    assert_eq!(run.block, VecDeque::from(vec![5u8]));
    assert_eq!(run.index, 2);
}

#[test]
fn run_stops_at_the_end_of_the_program() {
    let mut vm = get_VM();
    let mut run = BlockRun { block: VecDeque::from(vec![1u8, 2, 3, 4, 5, 6]), index: 0 };
    let h = vm.run_instructions(&mut run, &[46u8], 0);
    assert!(matches!(h, Halt::Finished));
    assert_eq!(run.block, VecDeque::from(vec![3u8, 4, 5, 6, 1, 2]));
    assert_eq!(run.index, 1);
    assert!(vm.final_state().is_empty());
}

#[test]
fn run_reports_unknown_opcodes_and_keeps_earlier_words() {
    let mut vm = get_VM();
    let mut run = BlockRun { block: VecDeque::from(vec![1u8, 2, 3, 4, 5, 6]), index: 0 };
    let h = vm.run_instructions(&mut run, &[48u8, 200, 48], 0);
    assert!(matches!(h, Halt::Unknown(200)));
    assert_eq!(vm.final_state(), vec![0x0102_0304]);
}

#[test]
fn run_reports_faults() {
    let mut vm = get_VM();
    let mut run = BlockRun { block: VecDeque::from(vec![1u8, 2]), index: 0 };
    let h = vm.run_instructions(&mut run, &[48u8], 0);
    assert!(matches!(h, Halt::Fault));
}

#[test]
fn run_stops_at_a_float_instruction() {
    let mut vm = get_VM();
    let mut run = BlockRun { block: VecDeque::from(vec![1u8, 2, 3, 4, 5, 6, 7, 8, 9]), index: 0 };
    let h = vm.run_instructions(&mut run, &[8u8, 0, 0, 0, 0], 0);
    match h {
        Halt::Float(q) => {
            assert_eq!(q.first, vec![1, 2, 3, 4]);
            assert_eq!(q.second, vec![5, 6, 7, 8]);
        }
        _ => panic!("expected a float request"),
    }
    assert_eq!(run.index, 1);
    assert_eq!(run.block, VecDeque::from(vec![9u8]));
}

#[test]
fn run_with_nothing_to_do() {
    let mut vm = get_VM();
    let mut run = BlockRun { block: VecDeque::from(vec![1u8, 2, 3]), index: 0 };
    assert!(matches!(vm.run_instructions(&mut run, &[48u8], 3), Halt::Finished));
    assert_eq!(run.index, 0);
    assert!(matches!(vm.run_instructions(&mut run, &[], 0), Halt::Finished));
}

#[test]
fn execution_of_a_short_stack_only_collects_words() {
    let mut vm = get_VM();
    let mut stack = vec![1, 2, 3, 4, 5];
    let mut e = Execution::new();
    assert!(matches!(e.resume(&mut vm, &mut stack, &[48], 4, 0, 5), Action::Finished));
    assert_eq!(stack, vec![1, 2, 3, 4, 5]);
    assert_eq!(vm.final_state(), vec![0x0102_0304, 0x05]);
}

#[test]
fn execution_rounds_until_the_stack_is_short() {
    // Opcode 48 moves the front word of each window to the digest state.
    let mut vm = get_VM();
    let mut stack: Vec<u8> = (1u8..=12).collect();
    let mut e = Execution::new();
    assert!(matches!(e.resume(&mut vm, &mut stack, &[48], 8, 0, 4), Action::Round(true)));
    assert_eq!(stack, (5u8..=12).collect::<Vec<u8>>());
    assert!(matches!(e.resume(&mut vm, &mut stack, &[48], 8, 0, 4), Action::Round(true)));
    assert_eq!(stack, vec![9, 10, 11, 12]);
    assert!(matches!(e.resume(&mut vm, &mut stack, &[48], 8, 0, 4), Action::Finished));
    assert_eq!(vm.final_state(), vec![0x0102_0304, 0x0506_0708, 0x090a_0b0c]);
}

#[test]
fn execution_moves_the_window_on_without_wrapping() {
    let mut vm = get_VM();
    let mut stack: Vec<u8> = (1u8..=16).collect();
    let mut e = Execution::new();
    assert!(matches!(e.resume(&mut vm, &mut stack, &[48], 8, 0, 4), Action::Round(false)));
    assert_eq!(stack, vec![5, 6, 7, 8, 9, 10, 11, 12, 13, 14, 15, 16]);
    // The next window starts just after the four bytes written back.
    assert!(matches!(e.resume(&mut vm, &mut stack, &[48], 8, 0, 4), Action::Round(true)));
    assert_eq!(stack, vec![5, 6, 7, 8, 13, 14, 15, 16]);
    assert_eq!(vm.final_state(), vec![0x0102_0304, 0x090a_0b0c]);
}

#[test]
fn execution_waits_for_floating_point_results() {
    let program = [8u8, 0xaa, 0xbb, 0xcc, 0xdd];
    let mut vm = get_VM();
    let mut stack: Vec<u8> = (1u8..=8).collect();
    let mut e = Execution::new();
    let request = match e.resume(&mut vm, &mut stack, &program, 8, 0, 4) {
        Action::Float(q) => q,
        _ => panic!("expected a float request"),
    };
    assert_eq!(request.first, vec![1, 2, 3, 4]);
    assert_eq!(request.second, vec![5, 6, 7, 8]);
    assert!(e.supply_float(&program, &request, Some(vec![9, 9, 9, 9])));
    // The immediate bytes are gone once the instruction is complete, and the
    // interrupted run is dropped: the next round starts the window afresh.
    assert!(!e.supply_float(&program, &request, None));
    assert!(matches!(e.resume(&mut vm, &mut stack, &program, 8, 0, 4), Action::Float(_)));
    assert_eq!(stack, (1u8..=8).collect::<Vec<u8>>());
}

#[test]
fn execution_completes_a_floating_point_round() {
    let program = [8u8, 0xaa, 0xbb, 0xcc, 0xdd];
    let mut vm = get_VM();
    let mut stack: Vec<u8> = (1u8..=8).collect();
    let mut e = Execution::new();
    let request = match e.resume(&mut vm, &mut stack, &program, 8, 0, 4) {
        Action::Float(q) => q,
        _ => panic!("expected a float request"),
    };
    // Without a result the immediate bytes are used.
    assert!(e.supply_float(&program, &request, None));
    assert!(matches!(e.resume(&mut vm, &mut stack, &program, 8, 0, 4), Action::Round(true)));
    assert_eq!(stack, vec![0xaa, 0xbb, 0xcc, 0xdd]);
    assert!(matches!(e.resume(&mut vm, &mut stack, &program, 8, 0, 4), Action::Finished));
    assert_eq!(vm.final_state(), vec![0xaabb_ccdd]);
}

#[test]
fn execution_reports_unknown_opcodes_and_bad_windows() {
    let mut vm = get_VM();
    let mut stack: Vec<u8> = (1u8..=8).collect();
    let mut e = Execution::new();
    assert!(matches!(e.resume(&mut vm, &mut stack, &[200], 8, 0, 4), Action::Unknown));
    assert_eq!(stack, (1u8..=8).collect::<Vec<u8>>());
    assert!(vm.final_state().is_empty());
    let mut short = vec![1u8, 2];
    let mut e = Execution::new();
    assert!(matches!(e.resume(&mut vm, &mut short, &[48], 8, 0, 1), Action::Fault));
    let mut e = Execution::new();
    assert!(!e.supply_float(&[8], &aplorandom::instructions::FloatRequest {
        op: aplorandom::instructions::FloatOp::Add,
        width: 4,
        front: true,
        first: vec![0; 4],
        second: vec![0; 4],
    }, None));
}

#[test]
fn taking_a_block_and_putting_it_back_leaves_the_stack() {
    let original: Vec<u8> = (10u8..30).collect();
    for (start, size) in [(0usize, 8usize), (5, 7), (12, 100), (20, 3)] {
        let mut stack = original.clone();
        let (run, end) = take_block(&stack, start, size).unwrap();
        put_block(&mut stack, &run.block, start, end).unwrap();
        assert_eq!(stack, original);
    }
}

#[test]
fn derived_programs_never_meet_unknown_opcodes() {
    let mut seed = b"no unknown".to_vec();
    let algorithm = aplorandom::algorithm_creator::create_algorithm(&mut seed, 256, 16, 60, 3, 15).unwrap();
    let (_, program) = aplorandom::algorithm_creator::split_algorithm(&algorithm).unwrap();
    let mut vm = get_VM();
    let mut stack: Vec<u8> = (0u8..=255).cycle().take(600).collect();
    let mut e = Execution::new();
    for _ in 0..200 {
        match e.resume(&mut vm, &mut stack, &program, 256, 16, 64) {
            Action::Float(q) => {
                // Any finite result will do here.
                let result = Some(vec![0x3f; q.width]);
                assert!(e.supply_float(&program, &q, result));
            }
            Action::Round(_) => {}
            Action::Finished | Action::Fault => break,
            Action::Unknown => panic!("unknown opcode in a derived program"),
        }
    }
}

#[test]
fn execution_sums_two_sixteen_bit_integers() {
    // Opcode 2 with N = 16 pops 1 and 2 from the front and pushes 3.
    let mut vm = get_VM();
    let mut stack = vec![0x00, 0x01, 0x00, 0x02, 5, 6, 7, 8];
    let mut e = Execution::new();
    let program = [2u8, 0x00, 0x10];
    assert!(matches!(e.resume(&mut vm, &mut stack, &program, 8, 0, 6), Action::Round(true)));
    assert_eq!(stack, vec![0x00, 0x03, 5, 6, 7, 8]);
    assert!(matches!(e.resume(&mut vm, &mut stack, &program, 8, 0, 6), Action::Finished));
    assert_eq!(vm.final_state(), vec![0x0003_0506, 0x0000_0708]);
}

#[test]
fn sha256_of_the_digest() {
    let vm = vm_with_stack(&[0xde, 0xad, 0xbe, 0xef, 0x01, 0x02]);
    let want: [u8; 32] = Sha256::digest(vm.digest()).into();
    assert_eq!(vm.sha256_digest(), want);
    // The known hash of the empty digest.
    let empty = get_VM().sha256_digest();
    assert_eq!(&empty[..4], &[0xe3, 0xb0, 0xc4, 0x42]);
}
