use vstd::prelude::*;

use serde_json::Value;

use crate::block::BlockHash;
use crate::json::{json_diff, json_eq, json_equal, json_is_null, structural_diff};
use crate::range::{min_max_of, range_of, Range, RangeError};
use crate::store::{
    distinct_hashes, hashes_at, lemma_delete_absent_is_noop, selected, without, CachedBlock,
    ChainStore, StoreError,
};

verus! {

/// How a collection that should hold exactly one item failed to.
#[derive(Clone, Copy, Debug, PartialEq, Eq, Structural)]
pub enum SingleItemError {
    Empty,
    Multiple,
}

/// Why a repair step could not be carried out.
#[derive(Clone, Copy, Debug, PartialEq, Eq, Structural)]
pub enum RepairError {
    /// No block hash is cached at this height.
    NoBlockAtNumber(i32),
    /// Several block hashes are cached at this height.
    MultipleBlocksAtNumber(i32),
    /// No block with this hash is cached.
    BlockNotCached(BlockHash),
    /// More than one cached block answers to this hash.
    MultipleCachedBlocks(BlockHash),
    /// The provider knows no block with this hash.
    ProviderBlockMissing(BlockHash),
    /// The provider answered for this hash with a block that reports
    /// another hash.
    ProviderHashMismatch(BlockHash, Option<BlockHash>),
    /// The range expression or its bounds were refused.
    Range(RangeError),
    /// The store has no chain head to close an open range with.
    NoChainHead,
    /// The genesis block was named as the target of a repair; it is never
    /// removed.
    GenesisTargeted,
    /// The chain store refused the change.
    Store(StoreError),
}

/// A block as a provider returned it: the hash it reports for itself and
/// its body as JSON.
#[derive(Debug)]
pub struct ProviderBlock {
    pub hash: Option<BlockHash>,
    pub data: Value,
}

/// The result of checking one cached block against the provider.
#[derive(Debug)]
pub enum RepairOutcome {
    /// The cached block equals the provider's; nothing was changed.
    Equal,
    /// The cached block diverged; this is the structural difference, and the
    /// block was removed from the cache.
    Diverged(Value),
}

/// The one item of `items`, or why there is not exactly one.
pub fn get_single_item<T>(items: Vec<T>) -> (r: Result<T, SingleItemError>)
    ensures
        items@.len() == 0 ==> r == Err::<T, SingleItemError>(SingleItemError::Empty),
        items@.len() == 1 ==> r == Ok::<T, SingleItemError>(items@[0]),
        items@.len() > 1 ==> r == Err::<T, SingleItemError>(SingleItemError::Multiple),
{
    let mut items = items;
    if items.len() == 0 {
        Err(SingleItemError::Empty)
    } else if items.len() > 1 {
        Err(SingleItemError::Multiple)
    } else {
        match items.pop() {
            Some(x) => Ok(x),
            None => Err(SingleItemError::Empty),
        }
    }
}

/// What `resolve_block_hash_from_block_number` gives for `number`.
pub open spec fn resolve_spec(blocks: Seq<CachedBlock>, number: i32) -> Result<BlockHash, RepairError> {
    let hs = hashes_at(blocks, number);
    if number == 0 {
        Err(RepairError::GenesisTargeted)
    } else if hs.len() == 0 {
        Err(RepairError::NoBlockAtNumber(number))
    } else if hs.len() == 1 {
        Ok(hs[0])
    } else {
        Err(RepairError::MultipleBlocksAtNumber(number))
    }
}

/// The one block hash that the store holds at height `number`.  Height 0,
/// genesis, is refused before the store is asked.
pub fn resolve_block_hash_from_block_number(number: i32, store: &ChainStore) -> (r: Result<
    BlockHash,
    RepairError,
>)
    ensures
        r == resolve_spec(store.cached(), number),
{
    if number == 0 {
        return Err(RepairError::GenesisTargeted);
    }
    match get_single_item(store.block_hashes_by_block_number(number)) {
        Ok(h) => Ok(h),
        Err(SingleItemError::Empty) => Err(RepairError::NoBlockAtNumber(number)),
        Err(SingleItemError::Multiple) => Err(RepairError::MultipleBlocksAtNumber(number)),
    }
}

/// The body of the one cached block with hash `hash`.
pub fn fetch_single_cached_block(hash: BlockHash, store: &ChainStore) -> (r: Result<
    Value,
    RepairError,
>)
    ensures
        selected(store.cached(), seq![hash]).len() == 0 ==> r == Err::<Value, RepairError>(
            RepairError::BlockNotCached(hash),
        ),
        selected(store.cached(), seq![hash]).len() == 1 ==> r == Ok::<Value, RepairError>(
            selected(store.cached(), seq![hash])[0].data,
        ),
        selected(store.cached(), seq![hash]).len() > 1 ==> r == Err::<Value, RepairError>(
            RepairError::MultipleCachedBlocks(hash),
        ),
{
    let mut wanted: Vec<BlockHash> = Vec::new();
    wanted.push(hash);
    assert(wanted@ =~= seq![hash]);
    let blocks = store.blocks(&wanted);
    match get_single_item(blocks) {
        Ok(b) => Ok(b.data),
        Err(SingleItemError::Empty) => Err(RepairError::BlockNotCached(hash)),
        Err(SingleItemError::Multiple) => Err(RepairError::MultipleCachedBlocks(hash)),
    }
}

/// The body of the provider's answer for `hash`, refused where the provider
/// had no block or answered with a block that reports another hash.
pub fn check_provider_block(hash: BlockHash, provider_block: Option<ProviderBlock>) -> (r: Result<
    Value,
    RepairError,
>)
    ensures
        match provider_block {
            None => r == Err::<Value, RepairError>(RepairError::ProviderBlockMissing(hash)),
            Some(b) => if b.hash == Some(hash) {
                r == Ok::<Value, RepairError>(b.data)
            } else {
                r == Err::<Value, RepairError>(RepairError::ProviderHashMismatch(hash, b.hash))
            },
        },
{
    match provider_block {
        None => Err(RepairError::ProviderBlockMissing(hash)),
        Some(b) => {
            if b.hash == Some(hash) {
                Ok(b.data)
            } else {
                Err(RepairError::ProviderHashMismatch(hash, b.hash))
            }
        },
    }
}

/// What `diff_block_pair` gives for two block bodies: nothing where they
/// are equal, or where their structural difference is absent or `null`;
/// otherwise that difference.
pub open spec fn diff_of(a: Value, b: Value) -> Option<Value> {
    if json_equal(a, b) {
        None
    } else {
        match json_diff(a, b) {
            None => None,
            Some(d) => if json_is_null(d) {
                None
            } else {
                Some(d)
            },
        }
    }
}

/// The structural difference between two block bodies, or `None` where
/// they do not differ.  A difference that comes out as `null` counts as
/// none.
pub fn diff_block_pair(a: &Value, b: &Value) -> (r: Option<Value>)
    ensures
        r == diff_of(*a, *b),
        *a == *b ==> r is None,
{
    if json_eq(a, b) {
        None
    } else {
        match structural_diff(a, b) {
            None => None,
            Some(d) => {
                if d.is_null() {
                    None
                } else {
                    Some(d)
                }
            },
        }
    }
}

/// Refuses the genesis block as the target of a repair, before anything is
/// fetched for it.
pub fn validate_target(hash: BlockHash, store: &ChainStore) -> (r: Result<(), RepairError>)
    ensures
        hash == store.genesis() ==> r == Err::<(), RepairError>(RepairError::GenesisTargeted),
        hash != store.genesis() ==> r is Ok,
{
    if hash == store.genesis_hash() {
        Err(RepairError::GenesisTargeted)
    } else {
        Ok(())
    }
}

/// The cache after a repair that found a difference: the block is gone.
pub open spec fn after_repair(blocks: Seq<CachedBlock>, hash: BlockHash) -> Seq<CachedBlock> {
    without(blocks, seq![hash])
}

/// A repair that found a difference removes the block with that hash and
/// keeps every other cached block, in order: where the block was cached the
/// cache is one block shorter, otherwise it is unchanged.
pub proof fn lemma_repair_removes_only_target(blocks: Seq<CachedBlock>, hash: BlockHash)
    requires
        distinct_hashes(blocks),
    ensures
        forall|k: int| 0 <= k < after_repair(blocks, hash).len() ==> #[trigger] after_repair(blocks, hash)[k].ptr.hash != hash,
        forall|i: int|
            0 <= i < blocks.len() && blocks[i].ptr.hash != hash ==> after_repair(blocks, hash).contains(
                #[trigger] blocks[i],
            ),
        (exists|i: int| 0 <= i < blocks.len() && blocks[i].ptr.hash == hash) ==> after_repair(blocks, hash).len()
            == blocks.len() - 1,
        (forall|i: int| 0 <= i < blocks.len() ==> blocks[i].ptr.hash != hash) ==> after_repair(blocks, hash)
            == blocks,
    decreases blocks.len(),
{
    let pred = |b: CachedBlock| !seq![hash].contains(b.ptr.hash);
    assert forall|b: CachedBlock| #[trigger] pred(b) == (b.ptr.hash != hash) by {
        if b.ptr.hash == hash {
            assert(seq![hash][0] == hash);
        }
    }
    blocks.filter_lemma(pred);
    if forall|i: int| 0 <= i < blocks.len() ==> blocks[i].ptr.hash != hash {
        lemma_delete_absent_is_noop(blocks, seq![hash]);
    }
    if blocks.len() > 0 {
        let p = blocks.drop_last();
        assert(forall|i: int| 0 <= i < p.len() ==> p[i] == blocks[i]);
        lemma_repair_removes_only_target(p, hash);
        reveal(Seq::filter);
        assert(blocks.filter(pred) == (if pred(blocks.last()) {
            p.filter(pred).push(blocks.last())
        } else {
            p.filter(pred)
        }));
        if exists|i: int| 0 <= i < blocks.len() && blocks[i].ptr.hash == hash {
            let i = choose|i: int| 0 <= i < blocks.len() && blocks[i].ptr.hash == hash;
            if i == blocks.len() - 1 {
                assert forall|j: int| 0 <= j < p.len() implies p[j].ptr.hash != hash by {
                    assert(blocks[j].ptr.hash != blocks[i].ptr.hash);
                }
            } else {
                assert(p[i].ptr.hash == hash);
                assert(blocks.last().ptr.hash != hash) by {
                    assert(blocks[i].ptr.hash != blocks[blocks.len() - 1].ptr.hash);
                }
            }
        }
    }
}

/// Acts on the difference found for the cached block `hash`: none leaves
/// the cache as it is; a difference removes the block, so that it is
/// fetched again.
pub fn apply_difference(hash: BlockHash, store: &mut ChainStore, difference: Option<Value>) -> (r: Result<
    RepairOutcome,
    RepairError,
>)
    requires
        old(store).wf(),
    ensures
        final(store).wf(),
        final(store).head() == old(store).head(),
        final(store).genesis() == old(store).genesis(),
        final(store).chain_name() == old(store).chain_name(),
        final(store).net_version() == old(store).net_version(),
        match difference {
            None => r matches Ok(RepairOutcome::Equal) && final(store).cached() == old(store).cached(),
            Some(d) => if hash == old(store).genesis() {
                r == Err::<RepairOutcome, RepairError>(RepairError::Store(StoreError::GenesisDeletion))
                    && final(store).cached() == old(store).cached()
            } else {
                r matches Ok(RepairOutcome::Diverged(x)) && x == d && final(store).cached()
                    == after_repair(old(store).cached(), hash)
            },
        },
{
    match difference {
        None => Ok(RepairOutcome::Equal),
        Some(diff) => {
            let mut doomed: Vec<BlockHash> = Vec::new();
            doomed.push(hash);
            assert(doomed@ =~= seq![hash]);
            assert(doomed@.contains(store.genesis()) == (hash == store.genesis())) by {
                if hash == store.genesis() {
                    assert(doomed@[0] == hash);
                }
            }
            match store.delete_blocks(&doomed) {
                Ok(()) => Ok(RepairOutcome::Diverged(diff)),
                Err(e) => Err(RepairError::Store(e)),
            }
        },
    }
}

/// Checks the cached block `hash` against the provider's answer for it, and
/// removes it from the cache if the two differ.  The genesis block is
/// refused.
pub fn run(hash: BlockHash, store: &mut ChainStore, provider_block: Option<ProviderBlock>) -> (r: Result<
    RepairOutcome,
    RepairError,
>)
    requires
        old(store).wf(),
    ensures
        final(store).wf(),
        final(store).head() == old(store).head(),
        final(store).genesis() == old(store).genesis(),
        final(store).chain_name() == old(store).chain_name(),
        final(store).net_version() == old(store).net_version(),
        hash == old(store).genesis() ==> r == Err::<RepairOutcome, RepairError>(
            RepairError::GenesisTargeted,
        ),
        hash != old(store).genesis() && selected(old(store).cached(), seq![hash]).len() == 0 ==> r
            == Err::<RepairOutcome, RepairError>(RepairError::BlockNotCached(hash)),
        hash != old(store).genesis() && selected(old(store).cached(), seq![hash]).len() > 1 ==> r
            == Err::<RepairOutcome, RepairError>(RepairError::MultipleCachedBlocks(hash)),
        hash != old(store).genesis() && selected(old(store).cached(), seq![hash]).len() == 1 ==> match provider_block {
            None => r == Err::<RepairOutcome, RepairError>(RepairError::ProviderBlockMissing(hash)),
            Some(b) => if b.hash != Some(hash) {
                r == Err::<RepairOutcome, RepairError>(RepairError::ProviderHashMismatch(hash, b.hash))
            } else {
                match diff_of(selected(old(store).cached(), seq![hash])[0].data, b.data) {
                    None => r matches Ok(RepairOutcome::Equal),
                    Some(d) => r matches Ok(RepairOutcome::Diverged(x)) && x == d,
                }
            },
        },
        match r {
            Ok(RepairOutcome::Diverged(_)) => final(store).cached() == after_repair(
                old(store).cached(),
                hash,
            ),
            _ => final(store).cached() == old(store).cached(),
        },
{
    if let Err(e) = validate_target(hash, store) {
        return Err(e);
    }
    let cached = match fetch_single_cached_block(hash, store) {
        Ok(v) => v,
        Err(e) => { return Err(e); },
    };
    let provided = match check_provider_block(hash, provider_block) {
        Ok(v) => v,
        Err(e) => { return Err(e); },
    };
    apply_difference(hash, store, diff_block_pair(&cached, &provided))
}

/// `c` is white space in Unicode's sense, the set that `char::is_whitespace`
/// accepts.
pub open spec fn is_white_space(c: char) -> bool {
    ||| '\u{9}' <= c && c <= '\u{d}'
    ||| c == ' ' || c == '\u{85}' || c == '\u{a0}' || c == '\u{1680}'
    ||| '\u{2000}' <= c && c <= '\u{200a}'
    ||| c == '\u{2028}' || c == '\u{2029}' || c == '\u{202f}' || c == '\u{205f}' || c == '\u{3000}'
}

/// `s` without its leading white space.
pub open spec fn trim_start_spec(s: Seq<char>) -> Seq<char>
    decreases s.len(),
{
    if s.len() > 0 && is_white_space(s[0]) {
        trim_start_spec(s.drop_first())
    } else {
        s
    }
}

/// `s` without its trailing white space.
pub open spec fn trim_end_spec(s: Seq<char>) -> Seq<char>
    decreases s.len(),
{
    if s.len() > 0 && is_white_space(s.last()) {
        trim_end_spec(s.drop_last())
    } else {
        s
    }
}

/// `s` without its leading and trailing white space.
pub open spec fn trimmed(s: Seq<char>) -> Seq<char> {
    trim_end_spec(trim_start_spec(s))
}

fn white_space(c: char) -> (r: bool)
    ensures
        r == is_white_space(c),
{
    ('\u{9}' <= c && c <= '\u{d}') || c == ' ' || c == '\u{85}' || c == '\u{a0}' || c == '\u{1680}'
        || ('\u{2000}' <= c && c <= '\u{200a}') || c == '\u{2028}' || c == '\u{2029}' || c
        == '\u{202f}' || c == '\u{205f}' || c == '\u{3000}'
}

/// The string without its leading and trailing white space.
pub fn trim(s: &str) -> (r: &str)
    ensures
        r@ == trimmed(s@),
{
    let n = s.unicode_len();
    let mut i: usize = 0;
    assert(s@.subrange(0, n as int) =~= s@);
    while i < n && white_space(s.get_char(i))
        invariant
            n == s@.len(),
            i <= n,
            trim_start_spec(s@.subrange(i as int, n as int)) == trim_start_spec(s@),
        decreases n - i,
    {
        let ghost t = s@.subrange(i as int, n as int);
        assert(t[0] == s@[i as int]);
        assert(t.drop_first() =~= s@.subrange(i + 1, n as int));
        i = i + 1;
    }
    let ghost t = s@.subrange(i as int, n as int);
    if i < n {
        assert(t[0] == s@[i as int]);
    }
    assert(trim_start_spec(t) == t);
    let mut j: usize = n;
    while j > i && white_space(s.get_char(j - 1))
        invariant
            n == s@.len(),
            i <= j <= n,
            t == s@.subrange(i as int, n as int),
            trim_end_spec(s@.subrange(i as int, j as int)) == trim_end_spec(t),
        decreases j - i,
    {
        let ghost u = s@.subrange(i as int, j as int);
        assert(u.last() == s@[j - 1]);
        assert(u.drop_last() =~= s@.subrange(i as int, j - 1));
        j = j - 1;
    }
    let ghost u = s@.subrange(i as int, j as int);
    if j > i {
        assert(u.last() == s@[j - 1]);
    }
    s.substring_char(i, j)
}

/// `c` is the letter `lower`, or `upper`, its capital.
pub open spec fn is_letter(c: char, lower: char, upper: char) -> bool {
    c == lower || c == upper
}

/// `t` is `y` or `yes`, in any mix of case.
pub open spec fn is_yes(t: Seq<char>) -> bool {
    ||| t.len() == 1 && is_letter(t[0], 'y', 'Y')
    ||| t.len() == 3 && is_letter(t[0], 'y', 'Y') && is_letter(t[1], 'e', 'E') && is_letter(
        t[2],
        's',
        'S',
    )
}

/// Whether an answer, already trimmed, says yes.
pub fn is_yes_answer(t: &str) -> (r: bool)
    ensures
        r == is_yes(t@),
{
    let n = t.unicode_len();
    if n == 1 {
        let c0 = t.get_char(0);
        c0 == 'y' || c0 == 'Y'
    } else if n == 3 {
        let c0 = t.get_char(0);
        let c1 = t.get_char(1);
        let c2 = t.get_char(2);
        (c0 == 'y' || c0 == 'Y') && (c1 == 'e' || c1 == 'E') && (c2 == 's' || c2 == 'S')
    } else {
        false
    }
}

/// Whether an answer to the confirmation prompt says yes: `y` or `yes`, in
/// any case, with white space around it.
pub fn confirms(answer: &str) -> (r: bool)
    ensures
        r == is_yes(trimmed(answer@)),
{
    is_yes_answer(trim(answer))
}

/// Empties the block cache if the caller skipped confirmation or answered
/// yes, and says whether it did.
pub fn truncate(store: &mut ChainStore, skip_confirmation: bool, answer: Option<&str>) -> (r: bool)
    requires
        old(store).wf(),
    ensures
        final(store).wf(),
        r == (skip_confirmation || (answer matches Some(a) && is_yes(trimmed(a@)))),
        r ==> final(store).cached() == Seq::<CachedBlock>::empty(),
        !r ==> final(store).cached() == old(store).cached(),
        final(store).head() == old(store).head(),
        final(store).genesis() == old(store).genesis(),
        final(store).chain_name() == old(store).chain_name(),
        final(store).net_version() == old(store).net_version(),
{
    let proceed = skip_confirmation || match answer {
        Some(a) => confirms(a),
        None => false,
    };
    if proceed {
        store.truncate_block_cache();
    }
    proceed
}

/// The height of the chain head, which the store must know.
pub fn find_chain_head(store: &ChainStore) -> (r: Result<i32, RepairError>)
    ensures
        match store.head() {
            None => r == Err::<i32, RepairError>(RepairError::NoChainHead),
            Some(h) => r == Ok::<i32, RepairError>(h),
        },
{
    match store.chain_head_block() {
        None => Err(RepairError::NoChainHead),
        Some(h) => Ok(h),
    }
}

/// What `range_bounds` gives for the expression `range` and the chain head
/// `head`.
pub open spec fn range_bounds_spec(range: Seq<char>, head: Option<i32>) -> Result<(i32, i32), RepairError> {
    match range_of(range) {
        Err(e) => Err(RepairError::Range(e)),
        Ok(rg) => match min_max_of(rg) {
            Err(e) => Err(RepairError::Range(e)),
            Ok((min, Some(max))) => Ok((min, max)),
            Ok((min, None)) => match head {
                None => Err(RepairError::NoChainHead),
                Some(h) => Ok((min, h)),
            },
        },
    }
}

/// The first and last block numbers that a range expression asks to
/// repair, an open upper bound closed by the store's chain head.
pub fn range_bounds(range: &str, store: &ChainStore) -> (r: Result<(i32, i32), RepairError>)
    ensures
        r == range_bounds_spec(range@, store.head()),
{
    let rg = match Range::parse(range) {
        Ok(rg) => rg,
        Err(e) => { return Err(RepairError::Range(e)); },
    };
    let (min, max) = match rg.min_max() {
        Ok(mm) => mm,
        Err(e) => { return Err(RepairError::Range(e)); },
    };
    match max {
        Some(x) => Ok((min, x)),
        None => match find_chain_head(store) {
            Err(e) => Err(e),
            Ok(h) => Ok((min, h)),
        },
    }
}

/// A repair over a range of heights, taken one height at a time from the
/// lowest up.
pub struct RangeRepair {
    next: i64,
    max: i64,
}

impl RangeRepair {
    /// The next height to visit.
    pub closed spec fn next_number(&self) -> int {
        self.next as int
    }

    /// The last height to visit.
    pub closed spec fn last_number(&self) -> int {
        self.max as int
    }

    pub closed spec fn wf(&self) -> bool {
        i32::MIN <= self.next <= i32::MAX + 1 && i32::MIN <= self.max <= i32::MAX
    }

    /// The heights `min` to `max`, both included.
    pub fn new(min: i32, max: i32) -> (r: RangeRepair)
        ensures
            r.wf(),
            r.next_number() == min,
            r.last_number() == max,
    {
        RangeRepair { next: min as i64, max: max as i64 }
    }

    /// The heights that the range expression `range` asks to repair, an open
    /// upper bound closed by the store's chain head.
    pub fn from_expression(range: &str, store: &ChainStore) -> (r: Result<RangeRepair, RepairError>)
        ensures
            match range_bounds_spec(range@, store.head()) {
                Ok((min, max)) => r matches Ok(rr) && rr.wf() && rr.next_number() == min
                    && rr.last_number() == max,
                Err(e) => r matches Err(e2) && e2 == e,
            },
    {
        match range_bounds(range, store) {
            Ok((min, max)) => Ok(RangeRepair::new(min, max)),
            Err(e) => Err(e),
        }
    }

    /// The next height and the block hash that the store holds for it, or
    /// `None` once the last height has been visited.
    pub fn next_block(&mut self, store: &ChainStore) -> (r: Option<(i32, Result<BlockHash, RepairError>)>)
        requires
            old(self).wf(),
        ensures
            final(self).wf(),
            final(self).last_number() == old(self).last_number(),
            old(self).next_number() > old(self).last_number() ==> r is None && final(self).next_number()
                == old(self).next_number(),
            old(self).next_number() <= old(self).last_number() ==> {
                &&& final(self).next_number() == old(self).next_number() + 1
                &&& r matches Some((n, h)) && n == old(self).next_number() && h == resolve_spec(
                    store.cached(),
                    n,
                )
            },
    {
        if self.next > self.max {
            return None;
        }
        let n = self.next as i32;
        self.next = self.next + 1;
        Some((n, resolve_block_hash_from_block_number(n, store)))
    }
}

} // verus!
