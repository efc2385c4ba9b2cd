use chainstream::block::{Block, BlockHash, BlockPtr, BlockWithTriggers, Trigger};
use chainstream::stream::{BlockStream, BlockStreamEvent, StreamError};

fn ptr(n: i32, branch: u128) -> BlockPtr {
    BlockPtr::new(BlockHash { hi: branch, lo: n as u128 }, n)
}

fn block(n: i32, branch: u128, parent: Option<BlockPtr>) -> BlockWithTriggers {
    BlockWithTriggers::new(Block { ptr: ptr(n, branch), parent_ptr: parent }, vec![Trigger { id: n as u64 }])
}

fn linear_chain() -> Vec<BlockWithTriggers> {
    vec![
        block(0, 0, None),
        block(1, 0, Some(ptr(0, 0))),
        block(2, 0, Some(ptr(1, 0))),
        block(3, 0, Some(ptr(2, 0))),
    ]
}

fn processed(ev: Option<Result<BlockStreamEvent, StreamError>>) -> BlockPtr {
    match ev {
        Some(Ok(BlockStreamEvent::ProcessBlock(b, _))) => b.ptr(),
        other => panic!("expected a processed block, got {:?}", other),
    }
}

fn reverted(ev: Option<Result<BlockStreamEvent, StreamError>>) -> BlockPtr {
    match ev {
        Some(Ok(BlockStreamEvent::Revert(p, _))) => p,
        other => panic!("expected a revert, got {:?}", other),
    }
}

#[test]
fn linear_chain_from_genesis_processes_each_block_then_waits() {
    let mut st = BlockStream::new(linear_chain(), Some(ptr(0, 0))).unwrap();
    assert_eq!(processed(st.advance()), ptr(1, 0));
    assert_eq!(processed(st.advance()), ptr(2, 0));
    assert_eq!(processed(st.advance()), ptr(3, 0));
    assert!(st.advance().is_none());
    assert!(st.advance().is_none());
}

#[test]
fn stream_from_nothing_processes_genesis_first() {
    let mut st = BlockStream::new(linear_chain(), None).unwrap();
    for n in 0..4 {
        assert_eq!(processed(st.advance()), ptr(n, 0));
    }
    assert!(st.advance().is_none());
}

#[test]
fn processed_block_keeps_its_triggers() {
    let mut st = BlockStream::new(linear_chain(), Some(ptr(1, 0))).unwrap();
    match st.advance() {
        Some(Ok(BlockStreamEvent::ProcessBlock(b, _))) => {
            assert_eq!(b.ptr(), ptr(2, 0));
            assert_eq!(b.parent_ptr(), Some(ptr(1, 0)));
            assert_eq!(b.trigger_data, vec![Trigger { id: 2 }]);
        }
        other => panic!("unexpected {:?}", other),
    }
}

#[test]
fn fork_at_head_reverts_once_then_processes_new_branch() {
    let mut chain = linear_chain();
    chain.push(block(3, 1, Some(ptr(2, 0))));
    let mut st = BlockStream::new(chain, Some(ptr(3, 0))).unwrap();
    assert_eq!(reverted(st.advance()), ptr(2, 0));
    assert_eq!(processed(st.advance()), ptr(3, 1));
    assert!(st.advance().is_none());
}

#[test]
fn deeper_fork_reverts_to_common_ancestor() {
    let mut chain = linear_chain();
    chain.push(block(2, 1, Some(ptr(1, 0))));
    chain.push(block(3, 1, Some(ptr(2, 1))));
    let mut st = BlockStream::new(chain, Some(ptr(3, 0))).unwrap();
    assert_eq!(reverted(st.advance()), ptr(2, 0));
    assert_eq!(reverted(st.advance()), ptr(1, 0));
    assert_eq!(processed(st.advance()), ptr(2, 1));
    assert_eq!(processed(st.advance()), ptr(3, 1));
    assert!(st.advance().is_none());
}

#[test]
fn revert_past_genesis_is_a_fault() {
    let chain = vec![block(0, 0, None), block(1, 1, Some(ptr(0, 1)))];
    let mut st = BlockStream::new(chain, Some(ptr(0, 0))).unwrap();
    assert!(matches!(st.advance(), Some(Err(StreamError::RevertPastGenesis))));
    assert!(matches!(st.advance(), Some(Err(StreamError::RevertPastGenesis))));
}

#[test]
fn unknown_ancestor_is_a_fault() {
    let chain = vec![block(5, 0, Some(ptr(4, 0))), block(5, 1, Some(ptr(4, 1)))];
    let mut st = BlockStream::new(chain, Some(ptr(5, 0))).unwrap();
    assert_eq!(st.advance().unwrap().unwrap_err(), StreamError::AncestorNotFound(ptr(4, 0)));
}

#[test]
fn unknown_start_block_is_refused() {
    let err = BlockStream::new(linear_chain(), Some(ptr(7, 0))).err().unwrap();
    assert_eq!(err, StreamError::UnknownStartBlock(ptr(7, 0)));
}

#[test]
fn genesis_pointer_is_recognised() {
    assert!(ptr(0, 0).is_genesis());
    assert!(!ptr(1, 0).is_genesis());
}

#[test]
fn candidate_equal_to_current_head_emits_nothing() {
    let chain = vec![
        block(0, 0, None),
        block(1, 0, Some(ptr(0, 0))),
        block(1, 0, Some(ptr(0, 0))),
        block(2, 0, Some(ptr(1, 0))),
    ];
    let mut st = BlockStream::new(chain, Some(ptr(0, 0))).unwrap();
    assert_eq!(processed(st.advance()), ptr(1, 0));
    assert_eq!(processed(st.advance()), ptr(2, 0));
    assert!(st.advance().is_none());
}
