use sha3::Digest;
use teral::contracts::compiler::compile;
use teral::contracts::language::{execute, Opcode, VmError};
use teral::storage::{MemStorage, Storage};
use teral::word::Word;

fn run(source: &str, args: Vec<u64>) -> Result<teral::contracts::language::Vm, VmError> {
    let code = compile(source.to_string()).unwrap();
    let storage = MemStorage::new();
    execute(
        [0; 32],
        code,
        args.into_iter().map(Word::from_u64).collect(),
        &storage,
    )
}

fn top(vm: &teral::contracts::language::Vm) -> Word {
    *vm.stack().last().unwrap()
}

#[test]
fn add_function_returns_sum() {
    let vm = run("fn f a b in a b + end", vec![2, 3]).unwrap();
    assert_eq!(top(&vm), Word::from_u64(5));
    assert!(vm.stores().is_empty());
    assert_eq!(vm.locals().len(), 2);
    assert_eq!(vm.stack().len(), 1);
}

#[test]
fn if_else_takes_then_branch_on_nonzero_literal() {
    let vm = run("fn g a in 10_u8 if 20 else 30 end end", vec![1]).unwrap();
    assert_eq!(top(&vm), Word::from_u64(20));
    // The condition is the literal 10, not the argument: it stays 20.
    let vm = run("fn g a in 10_u8 if 20 else 30 end end", vec![0]).unwrap();
    assert_eq!(top(&vm), Word::from_u64(20));
}

#[test]
fn if_else_on_argument() {
    let vm = run("fn g a in a if 20 else 30 end end", vec![1]).unwrap();
    assert_eq!(top(&vm), Word::from_u64(20));
    let vm = run("fn g a in a if 20 else 30 end end", vec![0]).unwrap();
    assert_eq!(top(&vm), Word::from_u64(30));
}

#[test]
fn arithmetic_wraps_and_divides() {
    let vm = run("fn f a b in a b - end", vec![0, 1]).unwrap();
    assert_eq!(top(&vm), Word { l0: u64::MAX, l1: u64::MAX, l2: u64::MAX, l3: u64::MAX });
    let vm = run("fn f a b in a b * end", vec![u64::MAX, u64::MAX]).unwrap();
    assert_eq!(top(&vm), Word { l0: 1, l1: u64::MAX - 1, l2: 0, l3: 0 });
    let vm = run("fn f a b in a b / end", vec![7, 2]).unwrap();
    assert_eq!(top(&vm), Word::from_u64(3));
    let vm = run("fn f a b in a b / end", vec![7, 0]).unwrap();
    assert_eq!(top(&vm), Word::from_u64(0));
}

#[test]
fn comparisons_push_one_or_zero() {
    for (src, args, expected) in [
        ("fn f a b in a b < end", vec![1, 2], 1),
        ("fn f a b in a b < end", vec![2, 2], 0),
        ("fn f a b in a b > end", vec![3, 2], 1),
        ("fn f a b in a b >= end", vec![2, 2], 1),
        ("fn f a b in a b <= end", vec![3, 2], 0),
        ("fn f a b in a b == end", vec![4, 4], 1),
        ("fn f a in a iszero end", vec![0], 1),
    ] {
        let vm = run(src, args).unwrap();
        assert_eq!(top(&vm), Word::from_u64(expected), "{}", src);
    }
}

#[test]
fn require_on_zero_terminates_before_store() {
    let code = compile("fn f a in a require 1 2 store end".to_string()).unwrap();
    let storage = MemStorage::new();
    let vm = execute([0; 32], code.clone(), vec![Word::from_u64(0)], &storage).unwrap();
    assert!(vm.terminated());
    assert!(vm.stores().is_empty());
    let vm = execute([0; 32], code, vec![Word::from_u64(1)], &storage).unwrap();
    assert!(!vm.terminated());
    assert_eq!(vm.stores().len(), 1);
}

#[test]
fn stack_errors() {
    // Add with nothing on the stack.
    let storage = MemStorage::new();
    assert_eq!(execute([0; 32], vec![0x01], vec![], &storage).unwrap_err(), VmError::StackUnderflow);
    // Push(2) with one byte left.
    assert_eq!(execute([0; 32], vec![0x08, 1], vec![], &storage).unwrap_err(), VmError::ExpectedValue(1));
    // An undefined opcode.
    assert_eq!(execute([0; 32], vec![0xff], vec![], &storage).unwrap_err(), VmError::ShouldStop);
    // Thirty-three pushes overflow the value stack.
    let mut code = Vec::new();
    for _ in 0..33 {
        code.push(0x07);
        code.push(1);
    }
    assert_eq!(execute([0; 32], code, vec![], &storage).unwrap_err(), VmError::StackOverflow);
    // Thirty-three arguments overflow the locals stack.
    assert_eq!(
        execute([0; 32], vec![], vec![Word::from_u64(0); 33], &storage).unwrap_err(),
        VmError::StackOverflow
    );
}

#[test]
fn jump_past_the_end_is_invalid() {
    let storage = MemStorage::new();
    // Push(1) 5, Jump: five bytes forward with none left.
    let err = execute([0; 32], vec![0x07, 5, 0x49], vec![], &storage).unwrap_err();
    assert_eq!(err, VmError::InvalidJump(Word::from_u64(8), 3));
    // A jump that lands exactly on the end is fine.
    let vm = execute([0; 32], vec![0x07, 1, 0x49, 0x00], vec![], &storage).unwrap();
    assert!(!vm.terminated());
}

#[test]
fn dup_swap_and_locals() {
    let storage = MemStorage::new();
    // Push 1, Push 2, Swap(1), Dup.
    let vm = execute([0; 32], vec![0x07, 1, 0x07, 2, 0x27, 0x6b], vec![], &storage).unwrap();
    let stack: Vec<Word> = vm.stack().clone();
    assert_eq!(stack, vec![Word::from_u64(2), Word::from_u64(1), Word::from_u64(1)]);
    // Push 9, CopyToReturn(1), ClearReturn, CopyToMain(0) reads zero.
    let vm = execute([0; 32], vec![0x07, 9, 0x8e, 0x6c, 0x4a], vec![], &storage).unwrap();
    assert!(vm.locals().is_empty());
    assert_eq!(*vm.stack().last().unwrap(), Word::from_u64(0));
}

#[test]
fn store_commits_under_contract_slot() {
    let code = compile("fn f in 1 2 store end".to_string()).unwrap();
    let mut storage = MemStorage::new();
    let hash = [7u8; 32];
    let vm = execute(hash, code, vec![], &storage).unwrap();
    vm.commit(&mut storage);
    let mut preimage = vec![1u8, 0, 0, 0, 0, 0, 0, 0];
    let mut key = [0u8; 32];
    key[0] = 1;
    preimage.extend_from_slice(&key);
    preimage.extend_from_slice(&hash);
    let slot: [u8; 32] = sha3::Sha3_256::digest(&preimage).into();
    let mut value = vec![0u8; 32];
    value[0] = 2;
    assert_eq!(storage.get(&slot), Some(value));
    // Get reads it back for the same contract, and zero for another.
    let get = compile("fn f in 1 get end".to_string()).unwrap();
    let vm = execute(hash, get.clone(), vec![], &storage).unwrap();
    assert_eq!(*vm.stack().last().unwrap(), Word::from_u64(2));
    let vm = execute([8u8; 32], get, vec![], &storage).unwrap();
    assert_eq!(*vm.stack().last().unwrap(), Word::from_u64(0));
}

#[test]
fn opcode_bytes_round_trip() {
    for b in 0..=255u8 {
        if let Some(op) = Opcode::from_u8(b) {
            assert_eq!(op.to_u8(), b);
        }
    }
    assert_eq!(Opcode::from_u8(0x07), Some(Opcode::Push(1)));
    assert_eq!(Opcode::from_u8(0x26), Some(Opcode::Push(32)));
    assert_eq!(Opcode::from_u8(0x27), Some(Opcode::Swap(1)));
    assert_eq!(Opcode::from_u8(0x4a), Some(Opcode::CopyToMain(0)));
    assert_eq!(Opcode::from_u8(0x8e), Some(Opcode::CopyToReturn(1)));
    assert_eq!(Opcode::from_u8(0xb5), Some(Opcode::Iszero));
    assert_eq!(Opcode::from_u8(0x47), None);
    assert_eq!(Opcode::from_u8(0xb6), None);
}

#[test]
fn require_zero_before_store_writes_nothing() {
    let code = compile("fn h in 0 require 7 9 store end".to_string()).unwrap();
    let mut storage = MemStorage::new();
    let vm = execute([3; 32], code, vec![], &storage).unwrap();
    assert!(vm.stores().is_empty());
    vm.commit(&mut storage);
    assert_eq!(storage.get(b"anything"), None);
}
