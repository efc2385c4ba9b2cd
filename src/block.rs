use vstd::prelude::*;

verus! {

/// A 256-bit block identifier, held as two big-endian halves.
#[derive(Clone, Copy, Debug, PartialEq, Eq, Structural)]
pub struct BlockHash {
    pub hi: u128,
    pub lo: u128,
}

/// A block's position in a chain: its hash and its height.
#[derive(Clone, Copy, Debug, PartialEq, Eq, Structural)]
pub struct BlockPtr {
    pub hash: BlockHash,
    pub number: i32,
}

impl BlockPtr {
    pub fn new(hash: BlockHash, number: i32) -> (r: BlockPtr)
        ensures
            r.hash == hash,
            r.number == number,
    {
        BlockPtr { hash, number }
    }

    pub fn is_genesis(&self) -> (r: bool)
        ensures
            r == (self.number == 0),
    {
        self.number == 0
    }
}

/// A block as the stream sees it: its own pointer and the pointer of its
/// predecessor (absent only for genesis).
#[derive(Clone, Copy, Debug, PartialEq, Eq, Structural)]
pub struct Block {
    pub ptr: BlockPtr,
    pub parent_ptr: Option<BlockPtr>,
}

/// One unit of on-chain activity that matters to a subscriber.  The core
/// passes it through without looking inside.
#[derive(Clone, Copy, Debug, PartialEq, Eq, Structural)]
pub struct Trigger {
    pub id: u64,
}

/// A block together with the triggers that were found in it.
#[derive(Debug)]
pub struct BlockWithTriggers {
    pub block: Block,
    pub trigger_data: Vec<Trigger>,
}

impl View for BlockWithTriggers {
    type V = (Block, Seq<Trigger>);

    open spec fn view(&self) -> (Block, Seq<Trigger>) {
        (self.block, self.trigger_data@)
    }
}

impl BlockWithTriggers {
    pub fn new(block: Block, trigger_data: Vec<Trigger>) -> (r: BlockWithTriggers)
        ensures
            r.block == block,
            r.trigger_data@ == trigger_data@,
    {
        BlockWithTriggers { block, trigger_data }
    }

    pub fn ptr(&self) -> (r: BlockPtr)
        ensures
            r == self.block.ptr,
    {
        self.block.ptr
    }

    pub fn parent_ptr(&self) -> (r: Option<BlockPtr>)
        ensures
            r == self.block.parent_ptr,
    {
        self.block.parent_ptr
    }

    /// An independent copy holding the same block and the same triggers.
    pub fn duplicate(&self) -> (r: BlockWithTriggers)
        ensures
            r@ == self@,
    {
        let mut data: Vec<Trigger> = Vec::new();
        let mut i: usize = 0;
        while i < self.trigger_data.len()
            invariant
                i <= self.trigger_data@.len(),
                data@ == self.trigger_data@.subrange(0, i as int),
            decreases self.trigger_data@.len() - i,
        {
            data.push(self.trigger_data[i]);
            i = i + 1;
            assert(data@ =~= self.trigger_data@.subrange(0, i as int));
        }
        assert(data@ =~= self.trigger_data@);
        BlockWithTriggers { block: self.block, trigger_data: data }
    }
}

} // verus!
