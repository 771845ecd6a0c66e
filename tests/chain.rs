use sha3::Digest;
use teral::chain::{
    block_by_hash, build_block, decode_record, latest_block, requests_to_recipts, Block, Chain,
    ContractRecipt,
};
use teral::contracts::request::{ArgValue, ContractRequest};
use teral::storage::{MemStorage, Storage};

fn latest(storage: &MemStorage) -> Option<Vec<u8>> {
    storage.get(b"latest_block")
}

fn receipt() -> ContractRecipt {
    ContractRecipt {
        contract_name: String::from("ginger"),
        contract_method: String::from("transfer"),
        req: br#"{"from":"ginger","to":"hello","amount":100}"#.to_vec(),
    }
}

#[test]
fn insert_new_block() {
    let mut storage = MemStorage::new();
    let chain = Chain::new(&mut storage);
    let block = chain.block_with_transactions(vec![receipt()]);
    assert_eq!(block.previous_digest(), [0; 32]);
    assert_eq!(block.recipts().len(), 1);
}

#[test]
fn fresh_store_gets_genesis() {
    let mut storage = MemStorage::new();
    let _chain = Chain::new(&mut storage);
    assert_eq!(latest(&storage), Some(vec![0; 32]));
    let mut key = b"block".to_vec();
    key.extend_from_slice(&[0; 32]);
    let record = storage.get(&key).unwrap();
    assert_eq!(&record[..64], &[0u8; 64][..]);
}

#[test]
fn block_after_genesis_links_and_reopens() {
    let mut storage = MemStorage::new();
    let mut chain = Chain::new(&mut storage);
    let block = chain.block_with_transactions(vec![receipt()]);
    assert_eq!(block.previous_digest(), [0; 32]);
    let digest = block.digest();
    chain.insert_block(&mut storage, block);
    assert_eq!(latest(&storage), Some(digest.to_vec()));
    let mut key = b"block".to_vec();
    key.extend_from_slice(&digest);
    let record = storage.get(&key).unwrap();
    assert_eq!(&record[..32], &digest[..]);
    assert_eq!(&record[32..64], &[0u8; 32][..]);
    // Reopening keeps the head: the next block follows it.
    let reopened = Chain::new(&mut storage);
    let next = reopened.block_with_transactions(vec![]);
    assert_eq!(next.previous_digest(), digest);
    assert_eq!(latest(&storage), Some(digest.to_vec()));
}

#[test]
fn digest_depends_on_receipts_and_time_only() {
    let a = build_block(vec![receipt()], [1; 32], 42);
    let b = build_block(vec![receipt()], [2; 32], 42);
    assert_eq!(a.digest(), b.digest());
    let c = build_block(vec![receipt()], [1; 32], 43);
    assert_ne!(a.digest(), c.digest());
    let mut preimage = b"ginger".to_vec();
    preimage.extend_from_slice(b"transfer");
    preimage.extend_from_slice(br#"{"from":"ginger","to":"hello","amount":100}"#);
    preimage.extend_from_slice(&42i64.to_be_bytes());
    let expected: [u8; 32] = sha3::Sha3_256::digest(&preimage).into();
    assert_eq!(a.digest(), expected);
    assert_eq!(a.time(), 42);
}

#[test]
fn receipts_carry_canonical_arguments() {
    let req = ContractRequest {
        author: [0; 32],
        contract_name: "ginger".to_string(),
        method_name: "transfer".to_string(),
        args: vec![
            ("from".to_string(), ArgValue::Str("gin\"ger".to_string())),
            ("amount".to_string(), ArgValue::U64(100)),
            ("ok".to_string(), ArgValue::Bool(true)),
        ],
        request_id: 3,
    };
    let receipts = requests_to_recipts(vec![req]);
    assert_eq!(receipts.len(), 1);
    assert_eq!(receipts[0].contract_name, "ginger");
    assert_eq!(receipts[0].contract_method, "transfer");
    assert_eq!(
        receipts[0].req,
        br#"{"from":"gin\"ger","amount":100,"ok":true}"#.to_vec()
    );
}

#[test]
fn block_with_transactions_has_zero_digests() {
    let block = Block::with_transactions(vec![receipt()]);
    assert_eq!(block.digest(), [0; 32]);
    assert_eq!(block.previous_digest(), [0; 32]);
    assert_eq!(block.recipts().len(), 1);
}

#[test]
fn error_descriptions() {
    assert_eq!(teral::errors::Error::Schema.describe(), "schema is invalid");
    assert_eq!(teral::errors::Error::Get.describe(), "a get operation failed");
}

#[test]
fn stored_blocks_read_back() {
    let mut storage = MemStorage::new();
    let mut chain = Chain::new(&mut storage);
    let genesis = latest_block(&storage).unwrap();
    assert_eq!(genesis.digest(), [0; 32]);
    assert_eq!(genesis.time(), 0);
    let block = build_block(vec![receipt(), receipt()], [0; 32], -5);
    let digest = block.digest();
    chain.insert_block(&mut storage, block);
    let back = block_by_hash(&storage, &digest).unwrap();
    assert_eq!(back.digest(), digest);
    assert_eq!(back.previous_digest(), [0; 32]);
    assert_eq!(back.time(), -5);
    assert_eq!(back.recipts().len(), 2);
    assert_eq!(back.recipts()[1].contract_method, "transfer");
    assert_eq!(latest_block(&storage).unwrap().digest(), digest);
    assert!(block_by_hash(&storage, &[5; 32]).is_none());
    assert!(decode_record(&[1, 2, 3]).is_none());
}

#[test]
fn canonical_arguments_match_serde_json_for_ordered_keys() {
    let text = "a\"b\\c\nd\te\u{1}";
    let req = ContractRequest {
        author: [0; 32],
        contract_name: "c".to_string(),
        method_name: "m".to_string(),
        args: vec![
            ("amount".to_string(), ArgValue::U64(18446744073709551615)),
            ("flag".to_string(), ArgValue::Bool(false)),
            ("note".to_string(), ArgValue::Str(text.to_string())),
        ],
        request_id: 0,
    };
    let mut map = serde_json::Map::new();
    map.insert("amount".to_string(), serde_json::Value::from(18446744073709551615u64));
    map.insert("flag".to_string(), serde_json::Value::from(false));
    map.insert("note".to_string(), serde_json::Value::from(text));
    let expected = serde_json::to_string(&serde_json::Value::Object(map)).unwrap();
    assert_eq!(requests_to_recipts(vec![req])[0].req, expected.into_bytes());
}

#[test]
fn replaying_the_write_log_rebuilds_the_store() {
    let mut storage = MemStorage::new();
    let mut chain = Chain::new(&mut storage);
    let block = chain.block_with_transactions(vec![receipt()]);
    let digest = block.digest();
    chain.insert_block(&mut storage, block);
    storage.delete(b"unused");
    let mut copy = MemStorage::new();
    for (key, value) in storage.writes() {
        match value {
            Some(v) => copy.set(&key, &v),
            None => copy.delete(&key),
        }
    }
    let reopened = Chain::new(&mut copy);
    assert_eq!(reopened.block_with_transactions(vec![]).previous_digest(), digest);
    assert_eq!(block_by_hash(&copy, &digest).unwrap().digest(), digest);
}
