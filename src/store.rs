use vstd::prelude::*;

use serde_json::Value;

use crate::block::{BlockHash, BlockPtr};
use crate::json::clone_json;

verus! {

/// A block as the cache keeps it: where it stands, its parent, and its
/// full body as JSON.
#[derive(Debug)]
pub struct CachedBlock {
    pub ptr: BlockPtr,
    pub parent_ptr: Option<BlockPtr>,
    pub data: Value,
}

impl CachedBlock {
    pub fn new(ptr: BlockPtr, parent_ptr: Option<BlockPtr>, data: Value) -> (r: CachedBlock)
        ensures
            r == (CachedBlock { ptr, parent_ptr, data }),
    {
        CachedBlock { ptr, parent_ptr, data }
    }

    pub fn duplicate(&self) -> (r: CachedBlock)
        ensures
            r == *self,
    {
        CachedBlock { ptr: self.ptr, parent_ptr: self.parent_ptr, data: clone_json(&self.data) }
    }
}

/// Failures of the chain store.
#[derive(Clone, Copy, Debug, PartialEq, Eq, Structural)]
pub enum StoreError {
    /// A deletion asked for the genesis block, which is never removed.
    GenesisDeletion,
    /// A block at height 0 whose hash is not the chain's genesis hash.
    GenesisMismatch,
}

/// The cached blocks whose hash is one of `hashes`, in cache order.
pub open spec fn selected(blocks: Seq<CachedBlock>, hashes: Seq<BlockHash>) -> Seq<CachedBlock> {
    blocks.filter(|b: CachedBlock| hashes.contains(b.ptr.hash))
}

/// The cached blocks whose hash is none of `hashes`, in cache order.
pub open spec fn without(blocks: Seq<CachedBlock>, hashes: Seq<BlockHash>) -> Seq<CachedBlock> {
    blocks.filter(|b: CachedBlock| !hashes.contains(b.ptr.hash))
}

/// The hashes of the cached blocks at height `number`, in cache order.
pub open spec fn hashes_at(blocks: Seq<CachedBlock>, number: i32) -> Seq<BlockHash> {
    blocks.filter(|b: CachedBlock| b.ptr.number == number).map_values(|b: CachedBlock| b.ptr.hash)
}

/// The position of the block with hash `h`, if one is cached.
pub open spec fn position_of_hash(blocks: Seq<CachedBlock>, h: BlockHash) -> Option<int> {
    if exists|i: int| 0 <= i < blocks.len() && blocks[i].ptr.hash == h {
        Some(choose|i: int| 0 <= i < blocks.len() && blocks[i].ptr.hash == h)
    } else {
        None
    }
}

/// The cache after storing `b`: it replaces the block with the same hash,
/// or joins at the end.
pub open spec fn with_block(blocks: Seq<CachedBlock>, b: CachedBlock) -> Seq<CachedBlock> {
    match position_of_hash(blocks, b.ptr.hash) {
        Some(i) => blocks.update(i, b),
        None => blocks.push(b),
    }
}

/// Filtering one more element of `s` appends it exactly when it passes.
pub proof fn lemma_filter_step<A>(s: Seq<A>, pred: spec_fn(A) -> bool, i: int)
    requires
        0 <= i < s.len(),
    ensures
        s.subrange(0, i + 1).filter(pred) == (if pred(s[i]) {
            s.subrange(0, i).filter(pred).push(s[i])
        } else {
            s.subrange(0, i).filter(pred)
        }),
{
    reveal(Seq::filter);
    assert(s.subrange(0, i + 1).drop_last() =~= s.subrange(0, i));
}

pub open spec fn distinct_hashes(s: Seq<CachedBlock>) -> bool {
    forall|i: int, j: int| 0 <= i < j < s.len() ==> s[i].ptr.hash != s[j].ptr.hash
}

pub open spec fn genesis_only_at_zero(s: Seq<CachedBlock>, g: BlockHash) -> bool {
    forall|i: int| 0 <= i < s.len() && s[i].ptr.number == 0 ==> s[i].ptr.hash == g
}

proof fn lemma_filter_keeps_wf(s: Seq<CachedBlock>, pred: spec_fn(CachedBlock) -> bool, g: BlockHash)
    requires
        distinct_hashes(s),
        genesis_only_at_zero(s, g),
    ensures
        distinct_hashes(s.filter(pred)),
        genesis_only_at_zero(s.filter(pred), g),
        forall|k: int| 0 <= k < s.filter(pred).len() ==> s.contains(#[trigger] s.filter(pred)[k]),
    decreases s.len(),
{
    reveal(Seq::filter);
    if s.len() > 0 {
        let p = s.drop_last();
        assert(forall|i: int| 0 <= i < p.len() ==> p[i] == s[i]);
        lemma_filter_keeps_wf(p, pred, g);
        let fp = p.filter(pred);
        let f = s.filter(pred);
        assert forall|k: int| 0 <= k < fp.len() implies s.contains(#[trigger] fp[k]) by {
            assert(p.contains(fp[k]));
            let i = choose|i: int| 0 <= i < p.len() && p[i] == fp[k];
            assert(s[i] == fp[k]);
        }
        if pred(s.last()) {
            assert forall|a: int, b: int| 0 <= a < b < f.len() implies f[a].ptr.hash != f[b].ptr.hash by {
                if b == f.len() - 1 {
                    assert(p.contains(fp[a]));
                    let i = choose|i: int| 0 <= i < p.len() && p[i] == fp[a];
                    assert(s[i] == f[a]);
                    assert(s[s.len() - 1] == f[b]);
                } else {
                    assert(f[a] == fp[a] && f[b] == fp[b]);
                }
            }
            assert forall|k: int| 0 <= k < f.len() implies s.contains(#[trigger] f[k]) by {
                if k == f.len() - 1 {
                    assert(s[s.len() - 1] == f[k]);
                } else {
                    assert(f[k] == fp[k]);
                }
            }
            assert forall|k: int| 0 <= k < f.len() && f[k].ptr.number == 0 implies f[k].ptr.hash == g by {
                if k == f.len() - 1 {
                    assert(s[s.len() - 1] == f[k]);
                } else {
                    assert(f[k] == fp[k]);
                }
            }
        }
    }
}

proof fn lemma_filter_all_kept<A>(s: Seq<A>, pred: spec_fn(A) -> bool)
    requires
        forall|i: int| 0 <= i < s.len() ==> pred(#[trigger] s[i]),
    ensures
        s.filter(pred) == s,
    decreases s.len(),
{
    reveal(Seq::filter);
    if s.len() > 0 {
        let p = s.drop_last();
        assert(forall|i: int| 0 <= i < p.len() ==> p[i] == s[i]);
        lemma_filter_all_kept(p, pred);
        assert(p.push(s.last()) =~= s);
    }
}

/// Deleting hashes of which none is cached leaves the cache as it was.
pub proof fn lemma_delete_absent_is_noop(blocks: Seq<CachedBlock>, hashes: Seq<BlockHash>)
    requires
        forall|i: int| 0 <= i < blocks.len() ==> !hashes.contains(#[trigger] blocks[i].ptr.hash),
    ensures
        without(blocks, hashes) == blocks,
{
    lemma_filter_all_kept(blocks, |b: CachedBlock| !hashes.contains(b.ptr.hash));
}

/// Deleting the same hashes a second time changes nothing more.
pub proof fn lemma_delete_twice_same_as_once(blocks: Seq<CachedBlock>, hashes: Seq<BlockHash>)
    ensures
        without(without(blocks, hashes), hashes) == without(blocks, hashes),
{
    let pred = |b: CachedBlock| !hashes.contains(b.ptr.hash);
    blocks.filter_lemma(pred);
    lemma_filter_all_kept(blocks.filter(pred), pred);
}

/// Whether `h` is one of `hashes`.
pub fn contains_hash(hashes: &Vec<BlockHash>, h: BlockHash) -> (r: bool)
    ensures
        r == hashes@.contains(h),
{
    let mut i: usize = 0;
    while i < hashes.len()
        invariant
            i <= hashes@.len(),
            forall|k: int| 0 <= k < i ==> hashes@[k] != h,
        decreases hashes@.len() - i,
    {
        if hashes[i] == h {
            assert(hashes@[i as int] == h);
            return true;
        }
        i = i + 1;
    }
    false
}

/// What identifies a chain: the network's version tag and the hash of its
/// genesis block.
#[derive(Debug)]
pub struct ChainIdentifier {
    pub net_version: String,
    pub genesis_block_hash: BlockHash,
}

/// Whether two strings hold the same characters.
fn same_text(a: &str, b: &str) -> (r: bool)
    ensures
        r == (a@ == b@),
{
    let n = a.unicode_len();
    if n != b.unicode_len() {
        return false;
    }
    let mut i: usize = 0;
    while i < n
        invariant
            n == a@.len(),
            n == b@.len(),
            i <= n,
            forall|k: int| 0 <= k < i ==> a@[k] == b@[k],
        decreases n - i,
    {
        if a.get_char(i) != b.get_char(i) {
            return false;
        }
        i = i + 1;
    }
    assert(a@ =~= b@);
    true
}

/// The local record of one chain: its cached blocks and the height it takes
/// for the chain head.
pub struct ChainStore {
    chain: String,
    net_version: String,
    genesis_hash: BlockHash,
    blocks: Vec<CachedBlock>,
    head: Option<i32>,
}

impl ChainStore {
    pub closed spec fn cached(&self) -> Seq<CachedBlock> {
        self.blocks@
    }

    pub closed spec fn head(&self) -> Option<i32> {
        self.head
    }

    pub closed spec fn genesis(&self) -> BlockHash {
        self.genesis_hash
    }

    pub closed spec fn chain_name(&self) -> Seq<char> {
        self.chain@
    }

    pub closed spec fn net_version(&self) -> Seq<char> {
        self.net_version@
    }

    /// Each hash is cached at most once, and a block at height 0 is the
    /// chain's genesis block.
    pub open spec fn wf(&self) -> bool {
        &&& distinct_hashes(self.cached())
        &&& genesis_only_at_zero(self.cached(), self.genesis())
    }

    /// An empty cache for `chain`, with no chain head yet.
    pub fn new(chain: String, identifier: ChainIdentifier) -> (r: ChainStore)
        ensures
            r.wf(),
            r.chain_name() == chain@,
            r.net_version() == identifier.net_version@,
            r.genesis() == identifier.genesis_block_hash,
            r.cached() == Seq::<CachedBlock>::empty(),
            r.head() is None,
    {
        ChainStore {
            chain,
            net_version: identifier.net_version,
            genesis_hash: identifier.genesis_block_hash,
            blocks: Vec::new(),
            head: None,
        }
    }

    /// Whether this store records the chain that `identifier` names: the
    /// same network version and the same genesis block.
    pub fn matches_identifier(&self, identifier: &ChainIdentifier) -> (r: bool)
        ensures
            r == (identifier.net_version@ == self.net_version() && identifier.genesis_block_hash
                == self.genesis()),
    {
        identifier.genesis_block_hash == self.genesis_hash && same_text(
            identifier.net_version.as_str(),
            self.net_version.as_str(),
        )
    }

    /// The name of the chain.
    pub fn chain(&self) -> (r: &String)
        ensures
            r@ == self.chain_name(),
    {
        &self.chain
    }

    /// The hash of the chain's genesis block.
    pub fn genesis_hash(&self) -> (r: BlockHash)
        ensures
            r == self.genesis(),
    {
        self.genesis_hash
    }

    /// The height that the store takes for the chain head, if it has one.
    pub fn chain_head_block(&self) -> (r: Option<i32>)
        ensures
            r == self.head(),
    {
        self.head
    }

    /// Records `number` as the height of the chain head.
    pub fn set_chain_head(&mut self, number: i32)
        ensures
            final(self).head() == Some(number),
            final(self).cached() == old(self).cached(),
            final(self).genesis() == old(self).genesis(),
            final(self).chain_name() == old(self).chain_name(),
            final(self).net_version() == old(self).net_version(),
    {
        self.head = Some(number);
    }

    fn find_hash(&self, h: BlockHash) -> (r: Option<usize>)
        ensures
            match r {
                None => forall|i: int| 0 <= i < self.cached().len() ==> self.cached()[i].ptr.hash != h,
                Some(i) => i < self.cached().len() && self.cached()[i as int].ptr.hash == h,
            },
    {
        let mut i: usize = 0;
        while i < self.blocks.len()
            invariant
                i <= self.blocks@.len(),
                forall|k: int| 0 <= k < i ==> self.blocks@[k].ptr.hash != h,
            decreases self.blocks@.len() - i,
        {
            if self.blocks[i].ptr.hash == h {
                return Some(i);
            }
            i = i + 1;
        }
        None
    }

    /// Stores a block fetched from a provider, replacing any cached body
    /// with the same hash.  A block at height 0 must be the genesis block.
    pub fn insert_block(&mut self, block: CachedBlock) -> (r: Result<(), StoreError>)
        requires
            old(self).wf(),
        ensures
            final(self).wf(),
            final(self).head() == old(self).head(),
            final(self).genesis() == old(self).genesis(),
            final(self).chain_name() == old(self).chain_name(),
            final(self).net_version() == old(self).net_version(),
            block.ptr.number == 0 && block.ptr.hash != old(self).genesis() ==> r == Err::<(), StoreError>(
                StoreError::GenesisMismatch,
            ) && final(self).cached() == old(self).cached(),
            !(block.ptr.number == 0 && block.ptr.hash != old(self).genesis()) ==> r is Ok
                && final(self).cached() == with_block(old(self).cached(), block),
    {
        if block.ptr.number == 0 && block.ptr.hash != self.genesis_hash {
            return Err(StoreError::GenesisMismatch);
        }
        let ghost b = block;
        let ghost h = block.ptr.hash;
        let ghost s = self.blocks@;
        match self.find_hash(block.ptr.hash) {
            Some(i) => {
                assert(position_of_hash(s, h) == Some(i as int)) by {
                    let j = choose|j: int| 0 <= j < s.len() && s[j].ptr.hash == h;
                    assert(s[i as int].ptr.hash == h);
                    if j != i as int {
                        assert(s[j].ptr.hash == h);
                    }
                }
                self.blocks.set(i, block);
            },
            None => {
                assert(position_of_hash(s, h) is None);
                self.blocks.push(block);
            },
        }
        assert(self.blocks@ == with_block(s, b));
        Ok(())
    }

    /// The cached blocks among `hashes`; a hash that is not cached is
    /// skipped, never an error.
    pub fn blocks(&self, hashes: &Vec<BlockHash>) -> (r: Vec<CachedBlock>)
        ensures
            r@ == selected(self.cached(), hashes@),
    {
        let ghost pred = |b: CachedBlock| hashes@.contains(b.ptr.hash);
        let mut out: Vec<CachedBlock> = Vec::new();
        let mut i: usize = 0;
        while i < self.blocks.len()
            invariant
                i <= self.blocks@.len(),
                pred == (|b: CachedBlock| hashes@.contains(b.ptr.hash)),
                out@ == self.blocks@.subrange(0, i as int).filter(pred),
            decreases self.blocks@.len() - i,
        {
            proof {
                lemma_filter_step(self.blocks@, pred, i as int);
            }
            if contains_hash(hashes, self.blocks[i].ptr.hash) {
                out.push(self.blocks[i].duplicate());
            }
            i = i + 1;
        }
        assert(self.blocks@.subrange(0, self.blocks@.len() as int) =~= self.blocks@);
        out
    }

    /// The hashes of the cached blocks at height `number`: none where the
    /// height is not cached, several where forks have not been collapsed.
    pub fn block_hashes_by_block_number(&self, number: i32) -> (r: Vec<BlockHash>)
        ensures
            r@ == hashes_at(self.cached(), number),
    {
        let ghost pred = |b: CachedBlock| b.ptr.number == number;
        let ghost hash_of = |b: CachedBlock| b.ptr.hash;
        let mut out: Vec<BlockHash> = Vec::new();
        let mut i: usize = 0;
        while i < self.blocks.len()
            invariant
                i <= self.blocks@.len(),
                pred == (|b: CachedBlock| b.ptr.number == number),
                hash_of == (|b: CachedBlock| b.ptr.hash),
                out@ == self.blocks@.subrange(0, i as int).filter(pred).map_values(hash_of),
            decreases self.blocks@.len() - i,
        {
            proof {
                lemma_filter_step(self.blocks@, pred, i as int);
            }
            let ghost before = self.blocks@.subrange(0, i as int).filter(pred);
            if self.blocks[i].ptr.number == number {
                out.push(self.blocks[i].ptr.hash);
                assert(before.push(self.blocks@[i as int]).map_values(hash_of) =~= before.map_values(
                    hash_of,
                ).push(self.blocks@[i as int].ptr.hash));
            }
            i = i + 1;
        }
        assert(self.blocks@.subrange(0, self.blocks@.len() as int) =~= self.blocks@);
        out
    }

    /// Removes the blocks with the given hashes from the cache; a hash that
    /// is not cached is no error.  Asking for the genesis block fails and
    /// removes nothing.
    pub fn delete_blocks(&mut self, hashes: &Vec<BlockHash>) -> (r: Result<(), StoreError>)
        requires
            old(self).wf(),
        ensures
            final(self).wf(),
            final(self).head() == old(self).head(),
            final(self).genesis() == old(self).genesis(),
            final(self).chain_name() == old(self).chain_name(),
            final(self).net_version() == old(self).net_version(),
            hashes@.contains(old(self).genesis()) ==> r == Err::<(), StoreError>(
                StoreError::GenesisDeletion,
            ) && final(self).cached() == old(self).cached(),
            !hashes@.contains(old(self).genesis()) ==> r is Ok && final(self).cached() == without(
                old(self).cached(),
                hashes@,
            ),
    {
        if contains_hash(hashes, self.genesis_hash) {
            return Err(StoreError::GenesisDeletion);
        }
        let ghost pred = |b: CachedBlock| !hashes@.contains(b.ptr.hash);
        let ghost s = self.blocks@;
        let mut kept: Vec<CachedBlock> = Vec::new();
        let mut i: usize = 0;
        while i < self.blocks.len()
            invariant
                i <= s.len(),
                self.blocks@ == s,
                pred == (|b: CachedBlock| !hashes@.contains(b.ptr.hash)),
                kept@ == s.subrange(0, i as int).filter(pred),
            decreases s.len() - i,
        {
            proof {
                lemma_filter_step(s, pred, i as int);
            }
            if !contains_hash(hashes, self.blocks[i].ptr.hash) {
                kept.push(self.blocks[i].duplicate());
            }
            i = i + 1;
        }
        assert(s.subrange(0, s.len() as int) =~= s);
        proof {
            lemma_filter_keeps_wf(s, pred, self.genesis_hash);
        }
        self.blocks = kept;
        Ok(())
    }

    /// Removes every cached block; the chain head is left as it was.
    pub fn truncate_block_cache(&mut self)
        ensures
            final(self).wf(),
            final(self).cached() == Seq::<CachedBlock>::empty(),
            final(self).head() == old(self).head(),
            final(self).genesis() == old(self).genesis(),
            final(self).chain_name() == old(self).chain_name(),
            final(self).net_version() == old(self).net_version(),
    {
        self.blocks = Vec::new();
    }
}

} // verus!
