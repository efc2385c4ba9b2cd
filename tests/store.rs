use chainstream::block::{BlockHash, BlockPtr};
use chainstream::store::{ChainIdentifier, contains_hash, CachedBlock, ChainStore, StoreError};
use serde_json::Value;

fn hash(n: u128) -> BlockHash {
    BlockHash { hi: 7, lo: n }
}

fn ident() -> ChainIdentifier {
    ChainIdentifier { net_version: "1".to_string(), genesis_block_hash: hash(0) }
}

fn block(n: i32) -> CachedBlock {
    CachedBlock::new(BlockPtr::new(hash(n as u128), n), None, Value::from(n))
}

fn filled() -> ChainStore {
    let mut s = ChainStore::new("testnet".to_string(), ident());
    for n in 0..3 {
        s.insert_block(block(n)).unwrap();
    }
    s
}

#[test]
fn new_store_is_empty_without_head() {
    let s = ChainStore::new("testnet".to_string(), ident());
    assert_eq!(s.chain(), "testnet");
    assert_eq!(s.genesis_hash(), hash(0));
    assert_eq!(s.chain_head_block(), None);
    assert!(s.blocks(&vec![hash(0)]).is_empty());
}

#[test]
fn blocks_skips_missing_hashes() {
    let s = filled();
    let got = s.blocks(&vec![hash(2), hash(9), hash(1)]);
    let numbers: Vec<i32> = got.iter().map(|b| b.ptr.number).collect();
    assert_eq!(numbers, vec![1, 2]);
}

#[test]
fn insert_replaces_block_with_same_hash() {
    let mut s = filled();
    let replacement = CachedBlock::new(BlockPtr::new(hash(1), 1), None, Value::from("new"));
    s.insert_block(replacement).unwrap();
    let got = s.blocks(&vec![hash(1)]);
    assert_eq!(got.len(), 1);
    assert_eq!(got[0].data, Value::from("new"));
}

#[test]
fn insert_refuses_foreign_genesis() {
    let mut s = filled();
    let other = CachedBlock::new(BlockPtr::new(hash(50), 0), None, Value::Null);
    assert_eq!(s.insert_block(other), Err(StoreError::GenesisMismatch));
    assert_eq!(s.block_hashes_by_block_number(0), vec![hash(0)]);
}

#[test]
fn deleting_absent_hash_succeeds_and_changes_nothing() {
    let mut s = filled();
    assert_eq!(s.delete_blocks(&vec![hash(42)]), Ok(()));
    assert_eq!(s.blocks(&vec![hash(0), hash(1), hash(2)]).len(), 3);
    assert_eq!(s.delete_blocks(&vec![hash(1)]), Ok(()));
    assert_eq!(s.delete_blocks(&vec![hash(1)]), Ok(()));
    assert_eq!(s.blocks(&vec![hash(0), hash(1), hash(2)]).len(), 2);
}

#[test]
fn deleting_genesis_fails_and_keeps_everything() {
    let mut s = filled();
    assert_eq!(s.delete_blocks(&vec![hash(2), hash(0)]), Err(StoreError::GenesisDeletion));
    assert_eq!(s.blocks(&vec![hash(0), hash(1), hash(2)]).len(), 3);
}

#[test]
fn truncating_twice_succeeds_and_keeps_head() {
    let mut s = filled();
    s.set_chain_head(2);
    s.truncate_block_cache();
    assert!(s.blocks(&vec![hash(0), hash(1), hash(2)]).is_empty());
    s.truncate_block_cache();
    assert!(s.blocks(&vec![hash(0), hash(1), hash(2)]).is_empty());
    assert_eq!(s.chain_head_block(), Some(2));
}

#[test]
fn contains_hash_finds_members() {
    assert!(contains_hash(&vec![hash(1), hash(2)], hash(2)));
    assert!(!contains_hash(&vec![hash(1)], hash(2)));
}

#[test]
fn store_matches_only_its_own_chain() {
    let s = filled();
    assert!(s.matches_identifier(&ident()));
    let other_net = ChainIdentifier { net_version: "2".to_string(), genesis_block_hash: hash(0) };
    assert!(!s.matches_identifier(&other_net));
    let other_genesis = ChainIdentifier { net_version: "1".to_string(), genesis_block_hash: hash(5) };
    assert!(!s.matches_identifier(&other_genesis));
}
