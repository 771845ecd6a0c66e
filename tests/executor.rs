use sha3::Digest;
use teral::contracts::executor::ContractQueues;
use teral::contracts::native::{balance, teral_init, teral_transfer};
use teral::contracts::request::{ArgValue, ContractRequest};
use teral::contracts::worker::Worker;
use teral::storage::{MemStorage, Storage};
use teral::validator::Validator;

const SAMPLE: &str = r#"
fn transfer from to amount in
    0_u8
    if
        10
    end

    from amount +
    if
        20
    end
end"#;

fn request(contract: &str, method: &str, args: Vec<(&str, ArgValue)>, id: u64) -> ContractRequest {
    ContractRequest {
        author: [9; 32],
        contract_name: contract.to_string(),
        method_name: method.to_string(),
        args: args.into_iter().map(|(k, v)| (k.to_string(), v)).collect(),
        request_id: id,
    }
}

fn s(v: &str) -> ArgValue {
    ArgValue::Str(v.to_string())
}

#[test]
fn register_and_transfer_then_summary() {
    let mut storage = MemStorage::new();
    let mut worker = Worker::new();
    let mut queues = ContractQueues::new();
    let mut validator = Validator::new(&mut storage);
    teral_init(&mut storage);
    assert_eq!(balance(&storage, "ghostway"), Some(1000));

    let add = request(
        "native",
        "add",
        vec![("name", s("ginger")), ("code", s(SAMPLE)), ("schema", s("from:str;to:str;amount:u64"))],
        0,
    );
    let transfer = request(
        "native",
        "transfer",
        vec![("from", s("ghostway")), ("to", s("ginger")), ("amount", ArgValue::U64(100))],
        0,
    );
    let id_add = validator.schedule_contract(&mut queues, add.clone()).unwrap();
    let id_transfer = validator.schedule_contract(&mut queues, transfer.clone()).unwrap();
    assert_eq!((id_add, id_transfer), (0, 1));

    assert!(worker.execute_request(&mut storage, &add));
    assert!(storage.get(b"gingerentrypoint").is_some());
    assert_eq!(storage.get(b"gingerschema"), Some(b"from:str;to:str;amount:u64".to_vec()));
    assert_eq!(storage.get(b"gingerauthor"), Some(vec![9; 32]));
    assert!(worker.execute_request(&mut storage, &transfer));
    assert_eq!(balance(&storage, "ghostway"), Some(900));
    assert_eq!(balance(&storage, "ginger"), Some(100));
    assert_eq!(storage.get(b"nativeghostway"), Some(br#"{"balance":900}"#.to_vec()));
    assert_eq!(storage.get(b"nativeginger"), Some(br#"{"balance":100}"#.to_vec()));

    let accepted = validator.summary(&vec![(id_add, true), (id_transfer, true)]);
    assert_eq!(accepted.len(), 2);
    assert_eq!(accepted[0].method_name, "add");
    assert_eq!(accepted[1].method_name, "transfer");
}

#[test]
fn re_registering_needs_the_same_author() {
    let mut storage = MemStorage::new();
    let mut worker = Worker::new();
    let add = request(
        "native",
        "add",
        vec![("name", s("ginger")), ("code", s(SAMPLE)), ("schema", s("from:str"))],
        0,
    );
    assert!(worker.execute_request(&mut storage, &add));
    let mut other = add.clone();
    other.author = [1; 32];
    assert!(!worker.execute_request(&mut storage, &other));
    assert!(worker.execute_request(&mut storage, &add));
    // A bad schema or code is rejected.
    let bad_schema = request(
        "native",
        "add",
        vec![("name", s("x")), ("code", s(SAMPLE)), ("schema", s("from:float"))],
        0,
    );
    assert!(!worker.execute_request(&mut storage, &bad_schema));
    let bad_code = request(
        "native",
        "add",
        vec![("name", s("x")), ("code", s("fn f in nope end")), ("schema", s(""))],
        0,
    );
    assert!(!worker.execute_request(&mut storage, &bad_code));
    assert_eq!(storage.get(b"xentrypoint"), None);
}

#[test]
fn transfer_conserves_and_failure_changes_nothing() {
    let mut storage = MemStorage::new();
    teral_init(&mut storage);
    assert!(teral_transfer(&mut storage, "ghostway", "bob", 300).is_ok());
    assert_eq!(balance(&storage, "ghostway"), Some(700));
    assert_eq!(balance(&storage, "bob"), Some(300));
    assert!(teral_transfer(&mut storage, "bob", "ghostway", 301).is_err());
    assert!(teral_transfer(&mut storage, "carol", "bob", 1).is_err());
    assert_eq!(balance(&storage, "ghostway"), Some(700));
    assert_eq!(balance(&storage, "bob"), Some(300));
    assert_eq!(balance(&storage, "carol"), None);
    assert!(teral_transfer(&mut storage, "bob", "bob", 300).is_ok());
    assert_eq!(balance(&storage, "bob"), Some(300));
}

#[test]
fn unknown_native_method_and_stake() {
    let mut storage = MemStorage::new();
    let mut worker = Worker::new();
    assert!(worker.execute_request(&mut storage, &request("native", "stake", vec![], 0)));
    assert!(!worker.execute_request(&mut storage, &request("native", "mint", vec![], 0)));
    // transfer with an argument of the wrong type
    let bad = request(
        "native",
        "transfer",
        vec![("from", s("a")), ("to", s("b")), ("amount", s("1"))],
        0,
    );
    assert!(!worker.execute_request(&mut storage, &bad));
}

#[test]
fn contract_sees_caller_and_stores_on_success_only() {
    let mut storage = MemStorage::new();
    let mut worker = Worker::new();
    let add = request(
        "native",
        "add",
        vec![
            ("name", s("keeper")),
            ("code", s("fn keep from flag in flag require 1 from store end")),
            ("schema", s("from:str;flag:u64")),
        ],
        0,
    );
    assert!(worker.execute_request(&mut storage, &add));
    // flag = 0: require terminates before the store.
    let call = request("keeper", "keep", vec![("flag", ArgValue::U64(0))], 1);
    assert!(worker.execute_request(&mut storage, &call));
    // flag = 1: the caller's identity is stored in slot 1.
    let call = request("keeper", "keep", vec![("flag", ArgValue::U64(1)), ("from", s("forged"))], 2);
    assert!(worker.execute_request(&mut storage, &call));
    let caller = base64::encode([9u8; 32]);
    let caller_word: [u8; 32] = sha3::Sha3_256::digest(caller.as_bytes()).into();
    let identity: [u8; 32] = sha3::Sha3_256::digest(b"keeper").into();
    let mut preimage = vec![1u8, 0, 0, 0, 0, 0, 0, 0];
    let mut key = [0u8; 32];
    key[0] = 1;
    preimage.extend_from_slice(&key);
    preimage.extend_from_slice(&identity);
    let slot: [u8; 32] = sha3::Sha3_256::digest(&preimage).into();
    assert_eq!(storage.get(&slot), Some(caller_word.to_vec()));
    // Missing argument: rejected, nothing written.
    let before = storage.get(&slot);
    let call = request("keeper", "keep", vec![], 3);
    assert!(!worker.execute_request(&mut storage, &call));
    assert_eq!(storage.get(&slot), before);
    // Unknown contract: rejected.
    assert!(!worker.execute_request(&mut storage, &request("nobody", "x", vec![], 4)));
}

#[test]
fn failed_run_discards_writes() {
    let mut storage = MemStorage::new();
    let mut worker = Worker::new();
    let add = request(
        "native",
        "add",
        vec![("name", s("broken")), ("code", s("fn f in 1 2 store + end")), ("schema", s(""))],
        0,
    );
    assert!(worker.execute_request(&mut storage, &add));
    let snapshot: Vec<Option<Vec<u8>>> =
        vec![storage.get(b"brokenentrypoint"), storage.get(b"brokenschema")];
    assert!(!worker.execute_request(&mut storage, &request("broken", "f", vec![], 1)));
    assert_eq!(
        snapshot,
        vec![storage.get(b"brokenentrypoint"), storage.get(b"brokenschema")]
    );
}

#[test]
fn queues_serialize_each_contract_last_in_first_out() {
    let mut queues = ContractQueues::new();
    queues.schedule(request("a", "m", vec![], 1));
    queues.schedule(request("b", "m", vec![], 2));
    queues.schedule(request("a", "m", vec![], 3));
    let first = queues.take().unwrap();
    assert_eq!((first.contract_name.as_str(), first.request_id), ("a", 3));
    let second = queues.take().unwrap();
    assert_eq!((second.contract_name.as_str(), second.request_id), ("b", 2));
    // Both contracts are running: nothing else may start.
    assert!(queues.take().is_none());
    queues.finish(&"a".to_string());
    let third = queues.take().unwrap();
    assert_eq!((third.contract_name.as_str(), third.request_id), ("a", 1));
    queues.finish(&"a".to_string());
    queues.finish(&"b".to_string());
    assert!(queues.take().is_none());
}

#[test]
fn summary_keeps_accepted_in_order() {
    let mut storage = MemStorage::new();
    let mut queues = ContractQueues::new();
    let mut validator = Validator::new(&mut storage);
    for name in ["a", "b", "c", "d"] {
        validator.schedule_contract(&mut queues, request(name, "m", vec![], 0)).unwrap();
    }
    // b rejected, d never reported.
    let kept = validator.summary(&vec![(2, true), (1, false), (0, true)]);
    let names: Vec<&str> = kept.iter().map(|r| r.contract_name.as_str()).collect();
    assert_eq!(names, vec!["a", "c"]);
    assert!(validator.summary(&vec![(0, true)]).is_empty());
}

#[test]
fn finalize_block_stores_new_head() {
    let mut storage = MemStorage::new();
    let mut queues = ContractQueues::new();
    let mut validator = Validator::new(&mut storage);
    let id = validator.schedule_contract(&mut queues, request("a", "m", vec![], 0)).unwrap();
    let block = validator.finalize_block(&mut storage, &vec![(id, true)]);
    assert_eq!(block.previous_digest(), [0; 32]);
    assert_eq!(block.recipts().len(), 1);
    assert_eq!(storage.get(b"latest_block"), Some(block.digest().to_vec()));
}

#[test]
fn malformed_balance_records_are_absent() {
    let mut storage = MemStorage::new();
    storage.set(b"nativea", br#"{"balance":007}"#);
    storage.set(b"nativeb", br#"{"balance":18446744073709551616}"#);
    storage.set(b"nativec", br#"{"balance":12x}"#);
    storage.set(b"natived", br#"{"balance":0}"#);
    assert_eq!(balance(&storage, "a"), None);
    assert_eq!(balance(&storage, "b"), None);
    assert_eq!(balance(&storage, "c"), None);
    assert_eq!(balance(&storage, "d"), Some(0));
    assert!(teral_transfer(&mut storage, "a", "d", 0).is_err());
}

#[test]
fn malformed_receiver_record_rejects_transfer() {
    let mut storage = MemStorage::new();
    teral_init(&mut storage);
    storage.set(b"nativebob", b"not a record");
    assert!(teral_transfer(&mut storage, "ghostway", "bob", 1).is_err());
    assert_eq!(balance(&storage, "ghostway"), Some(1000));
    assert_eq!(storage.get(b"nativebob"), Some(b"not a record".to_vec()));
}
