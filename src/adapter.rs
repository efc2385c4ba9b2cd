use vstd::prelude::*;

use crate::block::{Block, BlockPtr, BlockWithTriggers, Trigger};
use crate::store::lemma_filter_step;
use crate::stream::find_ptr;

verus! {

/// Failures of a triggers adapter.
#[derive(Clone, Copy, Debug, PartialEq, Eq, Structural)]
pub enum AdapterError {
    /// The adapter knows no block with this pointer.
    UnknownBlock(BlockPtr),
}

/// The block `k` steps before the block `p`, following parents among the
/// known blocks; `None` where that would precede genesis or a block on the
/// way is not known.
pub open spec fn ancestor_of(chain: Seq<(Block, Seq<Trigger>)>, p: BlockPtr, k: nat) -> Option<Block>
    decreases k,
{
    match find_ptr(chain, p) {
        None => None,
        Some(j) => if k == 0 {
            Some(chain[j].0)
        } else {
            match chain[j].0.parent_ptr {
                None => None,
                Some(q) => ancestor_of(chain, q, (k - 1) as nat),
            }
        },
    }
}

/// The known blocks at height `h`, in the order they are known.
pub open spec fn at_height(chain: Seq<(Block, Seq<Trigger>)>, h: int) -> Seq<(Block, Seq<Trigger>)> {
    chain.filter(|b: (Block, Seq<Trigger>)| b.0.ptr.number as int == h)
}

/// The known blocks from height `from` to height `to`, both included, in
/// ascending height order.
pub open spec fn scan(chain: Seq<(Block, Seq<Trigger>)>, from: int, to: int) -> Seq<
    (Block, Seq<Trigger>),
>
    decreases to - from + 1,
{
    if to < from {
        Seq::empty()
    } else {
        scan(chain, from, to - 1) + at_height(chain, to)
    }
}

/// `p` lies on the canonical branch that ends at `head`: following parents
/// down from `head` to the height of `p` arrives at `p`.
pub open spec fn on_main_chain(chain: Seq<(Block, Seq<Trigger>)>, head: BlockPtr, p: BlockPtr) -> bool {
    &&& p.number <= head.number
    &&& ancestor_of(chain, head, (head.number - p.number) as nat) matches Some(b)
    &&& ancestor_of(chain, head, (head.number - p.number) as nat).unwrap().ptr == p
}

/// A triggers adapter over a fixed set of known blocks, with the head of
/// the branch it takes as canonical.
pub struct StaticTriggersAdapter {
    blocks: Vec<BlockWithTriggers>,
    head: BlockPtr,
}

impl StaticTriggersAdapter {
    pub closed spec fn known(&self) -> Seq<(Block, Seq<Trigger>)> {
        self.blocks@.map_values(|b: BlockWithTriggers| b@)
    }

    pub closed spec fn head(&self) -> BlockPtr {
        self.head
    }

    pub fn new(blocks: Vec<BlockWithTriggers>, head: BlockPtr) -> (r: StaticTriggersAdapter)
        ensures
            r.known() == blocks@.map_values(|b: BlockWithTriggers| b@),
            r.head() == head,
    {
        StaticTriggersAdapter { blocks, head }
    }

    /// Whether `p` is part of the canonical branch.
    pub fn is_on_main_chain(&self, p: BlockPtr) -> (r: bool)
        ensures
            r == on_main_chain(self.known(), self.head(), p),
    {
        if p.number > self.head.number {
            return false;
        }
        let k = (self.head.number as i64 - p.number as i64) as u32;
        match self.ancestor_block(self.head, k) {
            None => false,
            Some(b) => b.ptr == p,
        }
    }

    /// The first known block with pointer `p`.
    fn lookup(&self, p: BlockPtr) -> (r: Option<Block>)
        ensures
            match find_ptr(self.known(), p) {
                None => r is None,
                Some(j) => r == Some(self.known()[j].0),
            },
    {
        let mut i: usize = 0;
        while i < self.blocks.len()
            invariant
                i <= self.blocks@.len(),
                self.known().len() == self.blocks@.len(),
                forall|k: int| 0 <= k < i ==> self.known()[k].0.ptr != p,
            decreases self.blocks@.len() - i,
        {
            assert(self.known()[i as int] == self.blocks@[i as int]@);
            if self.blocks[i].block.ptr == p {
                proof {
                    crate::stream::lemma_find_ptr(self.known(), p);
                }
                return Some(self.blocks[i].block);
            }
            i = i + 1;
        }
        proof {
            crate::stream::lemma_find_ptr(self.known(), p);
        }
        None
    }

    /// The parent of the known block `p`: `None` only for a block without
    /// one, that is genesis.
    pub fn parent_ptr(&self, p: BlockPtr) -> (r: Result<Option<BlockPtr>, AdapterError>)
        ensures
            match find_ptr(self.known(), p) {
                None => r == Err::<Option<BlockPtr>, AdapterError>(AdapterError::UnknownBlock(p)),
                Some(j) => r == Ok::<Option<BlockPtr>, AdapterError>(self.known()[j].0.parent_ptr),
            },
    {
        match self.lookup(p) {
            None => Err(AdapterError::UnknownBlock(p)),
            Some(b) => Ok(b.parent_ptr),
        }
    }

    /// The block `offset` steps before `p`.
    pub fn ancestor_block(&self, p: BlockPtr, offset: u32) -> (r: Option<Block>)
        ensures
            r == ancestor_of(self.known(), p, offset as nat),
    {
        let mut cur = p;
        let mut k: u32 = offset;
        loop
            invariant
                ancestor_of(self.known(), cur, k as nat) == ancestor_of(self.known(), p, offset as nat),
            decreases k,
        {
            match self.lookup(cur) {
                None => { return None; },
                Some(b) => {
                    if k == 0 {
                        return Some(b);
                    }
                    match b.parent_ptr {
                        None => { return None; },
                        Some(q) => {
                            cur = q;
                            k = k - 1;
                        },
                    }
                },
            }
        }
    }

    /// The known blocks from height `from` to height `to`, both included,
    /// lowest height first.
    pub fn scan_triggers(&self, from: i32, to: i32) -> (r: Vec<BlockWithTriggers>)
        requires
            from <= to,
        ensures
            r@.map_values(|b: BlockWithTriggers| b@) == scan(self.known(), from as int, to as int),
    {
        let ghost c = self.known();
        let mut out: Vec<BlockWithTriggers> = Vec::new();
        let mut h: i64 = from as i64;
        assert(out@.map_values(|b: BlockWithTriggers| b@) =~= scan(c, from as int, h - 1));
        while h <= to as i64
            invariant
                from <= h <= to as int + 1,
                c == self.known(),
                c.len() == self.blocks@.len(),
                out@.map_values(|b: BlockWithTriggers| b@) == scan(c, from as int, h - 1),
            decreases to as int + 1 - h,
        {
            let ghost pred = |b: (Block, Seq<Trigger>)| b.0.ptr.number as int == h as int;
            let ghost before = out@.map_values(|b: BlockWithTriggers| b@);
            let mut i: usize = 0;
            while i < self.blocks.len()
                invariant
                    i <= self.blocks@.len(),
                    c == self.known(),
                    c.len() == self.blocks@.len(),
                    pred == (|b: (Block, Seq<Trigger>)| b.0.ptr.number as int == h as int),
                    out@.map_values(|b: BlockWithTriggers| b@) == before + c.subrange(0, i as int).filter(pred),
                decreases self.blocks@.len() - i,
            {
                proof {
                    lemma_filter_step(c, pred, i as int);
                }
                assert(c[i as int] == self.blocks@[i as int]@);
                if self.blocks[i].block.ptr.number as i64 == h {
                    let ghost prev = out@;
                    out.push(self.blocks[i].duplicate());
                    assert(out@.map_values(|b: BlockWithTriggers| b@) =~= prev.map_values(
                        |b: BlockWithTriggers| b@,
                    ).push(c[i as int]));
                    assert(before + c.subrange(0, i as int).filter(pred).push(c[i as int]) =~= (before
                        + c.subrange(0, i as int).filter(pred)).push(c[i as int]));
                }
                i = i + 1;
            }
            assert(c.subrange(0, c.len() as int) =~= c);
            assert(at_height(c, h as int) == c.filter(pred));
            h = h + 1;
        }
        out
    }

    /// The block taken again for reprocessing, with no triggers of its own.
    pub fn triggers_in_block(&self, block: Block) -> (r: BlockWithTriggers)
        ensures
            r@ == (block, Seq::<Trigger>::empty()),
    {
        BlockWithTriggers::new(block, Vec::new())
    }
}

} // verus!
