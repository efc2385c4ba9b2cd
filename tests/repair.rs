use chainstream::block::{BlockHash, BlockPtr};
use chainstream::hash::{parse_block_hash, HashParseError};
use chainstream::range::RangeError;
use chainstream::repair::{
    apply_difference, check_provider_block, confirms, diff_block_pair, trim, validate_target, fetch_single_cached_block, get_single_item,
    is_yes_answer, range_bounds, resolve_block_hash_from_block_number, run, truncate,
    ProviderBlock, RepairError, RepairOutcome, SingleItemError,
};
use chainstream::store::{ChainIdentifier, CachedBlock, ChainStore, StoreError};
use serde_json::Value;

fn hash(n: u128) -> BlockHash {
    BlockHash { hi: 0, lo: n }
}

fn ident() -> ChainIdentifier {
    ChainIdentifier { net_version: "1".to_string(), genesis_block_hash: hash(0) }
}

fn json(s: &str) -> Value {
    serde_json::from_str(s).unwrap()
}

fn body(n: u128) -> Value {
    json(&format!("{{\"number\": {}, \"miner\": \"0xabc\"}}", n))
}

fn cached(n: i32) -> CachedBlock {
    let parent = if n == 0 { None } else { Some(BlockPtr::new(hash(n as u128 - 1), n - 1)) };
    CachedBlock::new(BlockPtr::new(hash(n as u128), n), parent, body(n as u128))
}

/// Genesis and heights 1 to 3, head at 3.
fn store() -> ChainStore {
    let mut s = ChainStore::new("mainnet".to_string(), ident());
    for n in 0..4 {
        s.insert_block(cached(n)).unwrap();
    }
    s.set_chain_head(3);
    s
}

#[test]
fn parse_block_hash_reads_hex_with_or_without_prefix() {
    let digits = "00000000000000000000000000000001000000000000000000000000000000ff";
    let expected = BlockHash { hi: 1, lo: 255 };
    assert_eq!(parse_block_hash(digits), Ok(expected));
    assert_eq!(parse_block_hash(&format!("0x{}", digits)), Ok(expected));
    assert_eq!(parse_block_hash(&format!("0x{}", digits.to_uppercase())), Ok(expected));
}

#[test]
fn parse_block_hash_refuses_bad_input() {
    assert_eq!(parse_block_hash("0xzz"), Err(HashParseError::NotHex));
    assert_eq!(parse_block_hash("abc"), Err(HashParseError::NotHex));
    assert_eq!(parse_block_hash("0xabcd"), Err(HashParseError::WrongLength(2)));
}

#[test]
fn single_item_is_taken_only_when_alone() {
    assert_eq!(get_single_item(vec![4]), Ok(4));
    assert_eq!(get_single_item::<i32>(vec![]), Err(SingleItemError::Empty));
    assert_eq!(get_single_item(vec![1, 2]), Err(SingleItemError::Multiple));
}

#[test]
fn block_number_resolves_to_its_one_hash() {
    let mut s = store();
    assert_eq!(resolve_block_hash_from_block_number(2, &s), Ok(hash(2)));
    assert_eq!(resolve_block_hash_from_block_number(9, &s), Err(RepairError::NoBlockAtNumber(9)));
    assert_eq!(resolve_block_hash_from_block_number(0, &s), Err(RepairError::GenesisTargeted));
    let fork = CachedBlock::new(BlockPtr::new(BlockHash { hi: 1, lo: 2 }, 2), None, body(22));
    s.insert_block(fork).unwrap();
    assert_eq!(resolve_block_hash_from_block_number(2, &s), Err(RepairError::MultipleBlocksAtNumber(2)));
}

#[test]
fn cached_block_body_is_fetched_by_hash() {
    let s = store();
    assert_eq!(fetch_single_cached_block(hash(1), &s), Ok(body(1)));
    assert_eq!(fetch_single_cached_block(hash(8), &s), Err(RepairError::BlockNotCached(hash(8))));
}

#[test]
fn provider_block_must_report_the_requested_hash() {
    assert_eq!(check_provider_block(hash(1), None), Err(RepairError::ProviderBlockMissing(hash(1))));
    let wrong = ProviderBlock { hash: Some(hash(2)), data: body(1) };
    assert_eq!(
        check_provider_block(hash(1), Some(wrong)),
        Err(RepairError::ProviderHashMismatch(hash(1), Some(hash(2))))
    );
    let right = ProviderBlock { hash: Some(hash(1)), data: body(1) };
    assert_eq!(check_provider_block(hash(1), Some(right)), Ok(body(1)));
}

#[test]
fn diff_of_equal_bodies_is_none() {
    assert_eq!(diff_block_pair(&body(1), &body(1)), None);
    assert_eq!(diff_block_pair(&json("{\"a\": 1, \"b\": 2}"), &json("{\"b\": 2, \"a\": 1}")), None);
}

#[test]
fn diff_of_different_bodies_is_structural() {
    let d = diff_block_pair(&body(1), &body(2)).unwrap();
    assert!(!d.is_null());
    assert!(d.to_string().contains("number"));
}

#[test]
fn repair_of_equal_block_keeps_cache() {
    let mut s = store();
    let pb = ProviderBlock { hash: Some(hash(2)), data: body(2) };
    assert!(matches!(run(hash(2), &mut s, Some(pb)), Ok(RepairOutcome::Equal)));
    assert_eq!(s.block_hashes_by_block_number(2), vec![hash(2)]);
}

#[test]
fn repair_of_diverging_block_deletes_only_it() {
    let mut s = store();
    let pb = ProviderBlock { hash: Some(hash(2)), data: body(77) };
    match run(hash(2), &mut s, Some(pb)) {
        Ok(RepairOutcome::Diverged(d)) => assert!(!d.is_null()),
        other => panic!("unexpected {:?}", other),
    }
    assert!(s.block_hashes_by_block_number(2).is_empty());
    for n in [0, 1, 3] {
        assert_eq!(s.block_hashes_by_block_number(n), vec![hash(n as u128)]);
    }
}

#[test]
fn repair_never_deletes_genesis() {
    let mut s = store();
    let pb = ProviderBlock { hash: Some(hash(0)), data: body(99) };
    assert_eq!(run(hash(0), &mut s, Some(pb)).err(), Some(RepairError::GenesisTargeted));
    assert_eq!(validate_target(hash(0), &s), Err(RepairError::GenesisTargeted));
    assert_eq!(validate_target(hash(1), &s), Ok(()));
    assert_eq!(s.block_hashes_by_block_number(0), vec![hash(0)]);
}

#[test]
fn repair_of_uncached_block_fails() {
    let mut s = store();
    assert_eq!(run(hash(9), &mut s, None).err(), Some(RepairError::BlockNotCached(hash(9))));
}

#[test]
fn range_bounds_close_open_range_at_head() {
    let mut s = ChainStore::new("mainnet".to_string(), ident());
    assert_eq!(range_bounds("2..", &s), Err(RepairError::NoChainHead));
    s.set_chain_head(40);
    assert_eq!(range_bounds("2..", &s), Ok((2, 40)));
    assert_eq!(range_bounds("..", &s), Ok((1, 40)));
    assert_eq!(range_bounds("2..5", &s), Ok((2, 4)));
    assert_eq!(range_bounds("0..5", &s), Err(RepairError::Range(RangeError::GenesisBlock)));
    assert_eq!(range_bounds("x", &s), Err(RepairError::Range(RangeError::Malformed)));
}

#[test]
fn confirmation_accepts_y_and_yes_in_any_case() {
    for a in ["y", "Y", "yes", "YeS", "  yes\n", "y\n"] {
        assert!(confirms(a), "{:?}", a);
    }
    for a in ["", "n", "no", "yess", "ye", "sure"] {
        assert!(!confirms(a), "{:?}", a);
    }
    assert!(is_yes_answer("yEs"));
    assert!(!is_yes_answer(" yes"));
}

#[test]
fn truncate_needs_confirmation() {
    let mut s = store();
    assert!(!truncate(&mut s, false, Some("no")));
    assert!(!truncate(&mut s, false, None));
    assert_eq!(s.block_hashes_by_block_number(1), vec![hash(1)]);
    assert!(truncate(&mut s, false, Some("Yes\n")));
    assert!(s.block_hashes_by_block_number(1).is_empty());
    assert_eq!(s.chain_head_block(), Some(3));
}

#[test]
fn apply_difference_deletes_only_on_difference() {
    let mut s = store();
    assert!(matches!(apply_difference(hash(1), &mut s, None), Ok(RepairOutcome::Equal)));
    assert_eq!(s.block_hashes_by_block_number(1), vec![hash(1)]);
    match apply_difference(hash(1), &mut s, Some(json("{\"changed\": 1}"))) {
        Ok(RepairOutcome::Diverged(d)) => assert_eq!(d, json("{\"changed\": 1}")),
        other => panic!("unexpected {:?}", other),
    }
    assert!(s.block_hashes_by_block_number(1).is_empty());
    assert_eq!(
        apply_difference(hash(0), &mut s, Some(json("1"))).err(),
        Some(RepairError::Store(StoreError::GenesisDeletion))
    );
    assert_eq!(s.block_hashes_by_block_number(0), vec![hash(0)]);
}

#[test]
fn trim_removes_unicode_white_space_at_both_ends() {
    assert_eq!(trim("  yes\n"), "yes");
    assert_eq!(trim("\u{3000}a b\u{a0}"), "a b");
    assert_eq!(trim(" \t "), "");
    assert_eq!(trim("x"), "x");
    assert!(confirms("\u{2003}Y\u{85}"));
}

#[test]
fn diff_that_is_absent_counts_as_no_divergence() {
    // Equal bodies written with keys in another order have no structural difference.
    let a = json("{\"x\": [1, 2], \"y\": null}");
    let b = json("{\"y\": null, \"x\": [1, 2]}");
    assert_eq!(diff_block_pair(&a, &b), None);
}
