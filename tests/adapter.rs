use chainstream::adapter::{AdapterError, StaticTriggersAdapter};
use chainstream::block::{Block, BlockHash, BlockPtr, BlockWithTriggers, Trigger};

fn ptr(n: i32, branch: u128) -> BlockPtr {
    BlockPtr::new(BlockHash { hi: branch, lo: n as u128 }, n)
}

fn block(n: i32, branch: u128, parent: Option<BlockPtr>) -> BlockWithTriggers {
    BlockWithTriggers::new(Block { ptr: ptr(n, branch), parent_ptr: parent }, vec![Trigger { id: 10 + n as u64 }])
}

fn adapter() -> StaticTriggersAdapter {
    StaticTriggersAdapter::new(vec![
        block(2, 0, Some(ptr(1, 0))),
        block(0, 0, None),
        block(1, 0, Some(ptr(0, 0))),
        block(2, 1, Some(ptr(1, 0))),
        block(3, 0, Some(ptr(2, 0))),
    ], ptr(3, 0))
}

#[test]
fn parent_ptr_is_none_only_for_genesis() {
    let a = adapter();
    assert_eq!(a.parent_ptr(ptr(0, 0)), Ok(None));
    assert_eq!(a.parent_ptr(ptr(3, 0)), Ok(Some(ptr(2, 0))));
    assert_eq!(a.parent_ptr(ptr(9, 0)), Err(AdapterError::UnknownBlock(ptr(9, 0))));
}

#[test]
fn ancestor_block_follows_parents() {
    let a = adapter();
    assert_eq!(a.ancestor_block(ptr(3, 0), 0).map(|b| b.ptr), Some(ptr(3, 0)));
    assert_eq!(a.ancestor_block(ptr(3, 0), 2).map(|b| b.ptr), Some(ptr(1, 0)));
    assert_eq!(a.ancestor_block(ptr(3, 0), 3).map(|b| b.ptr), Some(ptr(0, 0)));
    assert_eq!(a.ancestor_block(ptr(3, 0), 4), None);
    assert_eq!(a.ancestor_block(ptr(8, 0), 0), None);
}

#[test]
fn scan_returns_heights_in_ascending_order() {
    let a = adapter();
    let got: Vec<BlockPtr> = a.scan_triggers(1, 3).iter().map(|b| b.ptr()).collect();
    assert_eq!(got, vec![ptr(1, 0), ptr(2, 0), ptr(2, 1), ptr(3, 0)]);
    assert!(a.scan_triggers(5, 7).is_empty());
    assert_eq!(a.scan_triggers(0, 0)[0].trigger_data, vec![Trigger { id: 10 }]);
}

#[test]
fn reprocessed_block_has_no_triggers() {
    let a = adapter();
    let b = Block { ptr: ptr(2, 0), parent_ptr: Some(ptr(1, 0)) };
    let r = a.triggers_in_block(b);
    assert_eq!(r.block, b);
    assert!(r.trigger_data.is_empty());
}

#[test]
fn main_chain_is_the_branch_below_the_head() {
    let a = adapter();
    assert!(a.is_on_main_chain(ptr(3, 0)));
    assert!(a.is_on_main_chain(ptr(2, 0)));
    assert!(a.is_on_main_chain(ptr(0, 0)));
    assert!(!a.is_on_main_chain(ptr(2, 1)));
    assert!(!a.is_on_main_chain(ptr(4, 0)));
}
