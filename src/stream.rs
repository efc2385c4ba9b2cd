use vstd::prelude::*;

use crate::block::{Block, BlockPtr, BlockWithTriggers, Trigger};

verus! {

/// An opaque resumption token handed out by a provider, or none where the
/// provider cannot resume.
#[derive(Clone, Copy, Debug, PartialEq, Eq, Structural)]
pub enum Cursor {
    Absent,
    Token(u64),
}

/// What the stream asks a subscriber to do next.
#[derive(Debug)]
pub enum BlockStreamEvent {
    /// Apply this block as the new head.
    ProcessBlock(BlockWithTriggers, Cursor),
    /// Roll back to this ancestor, which becomes the new head.
    Revert(BlockPtr, Cursor),
}

/// The mathematical form of an event.
pub enum EventModel {
    Process((Block, Seq<Trigger>)),
    Revert(BlockPtr),
}

impl BlockStreamEvent {
    pub open spec fn model(&self) -> EventModel {
        match self {
            BlockStreamEvent::ProcessBlock(b, _) => EventModel::Process(b@),
            BlockStreamEvent::Revert(p, _) => EventModel::Revert(*p),
        }
    }
}

/// Faults that end a stream instance; the subscriber restarts from a
/// checkpoint.
#[derive(Clone, Copy, Debug, PartialEq, Eq, Structural)]
pub enum StreamError {
    /// A revert was needed while the head had no parent: the target would
    /// precede genesis.
    RevertPastGenesis,
    /// The ancestor that a revert lands on is not known, so its own parent
    /// cannot be determined.
    AncestorNotFound(BlockPtr),
    /// The pointer to resume from is not among the known blocks.
    UnknownStartBlock(BlockPtr),
}

/// The state that the stream carries from one step to the next.
pub struct StreamState {
    pub next: int,
    pub current: Option<BlockPtr>,
    pub current_parent: Option<BlockPtr>,
}

/// The first position in `chain` of a block with pointer `p`, if any.
pub open spec fn find_ptr(chain: Seq<(Block, Seq<Trigger>)>, p: BlockPtr) -> Option<int>
    decreases chain.len(),
{
    if chain.len() == 0 {
        None
    } else if chain.last().0.ptr == p && find_ptr(chain.drop_last(), p).is_none() {
        Some(chain.len() - 1)
    } else {
        find_ptr(chain.drop_last(), p)
    }
}

/// `find_ptr` gives the first position of a block with pointer `p`, and
/// `None` only where no block has it.
pub proof fn lemma_find_ptr(chain: Seq<(Block, Seq<Trigger>)>, p: BlockPtr)
    ensures
        match find_ptr(chain, p) {
            None => forall|k: int| 0 <= k < chain.len() ==> chain[k].0.ptr != p,
            Some(i) => 0 <= i < chain.len() && chain[i].0.ptr == p && forall|k: int|
                0 <= k < i ==> chain[k].0.ptr != p,
        },
    decreases chain.len(),
{
    if chain.len() > 0 {
        let prefix = chain.drop_last();
        lemma_find_ptr(prefix, p);
        assert(forall|k: int| 0 <= k < prefix.len() ==> prefix[k] == chain[k]);
    }
}

/// One step of the stream: `None` once every candidate has been consumed,
/// otherwise what is emitted and the state that follows.
pub open spec fn step(chain: Seq<(Block, Seq<Trigger>)>, s: StreamState) -> Option<
    (Result<EventModel, StreamError>, StreamState),
> {
    decide(chain, skip_applied(chain, s))
}

/// The state after passing over candidates that are already the current
/// head: applying one again would be a no-op, so no event is due for it.
pub open spec fn skip_applied(chain: Seq<(Block, Seq<Trigger>)>, s: StreamState) -> StreamState
    decreases chain.len() - s.next,
{
    if 0 <= s.next < chain.len() && s.current == Some(chain[s.next].0.ptr) {
        skip_applied(chain, StreamState { next: s.next + 1, ..s })
    } else {
        s
    }
}

/// The event due for the candidate at `s.next`, which is not the current
/// head.
pub open spec fn decide(chain: Seq<(Block, Seq<Trigger>)>, s: StreamState) -> Option<
    (Result<EventModel, StreamError>, StreamState),
> {
    if s.next < 0 || s.next >= chain.len() {
        None
    } else {
        let cand = chain[s.next];
        if cand.0.parent_ptr == s.current {
            Some(
                (
                    Ok(EventModel::Process(cand)),
                    StreamState {
                        next: s.next + 1,
                        current: Some(cand.0.ptr),
                        current_parent: cand.0.parent_ptr,
                    },
                ),
            )
        } else {
            match s.current_parent {
                None => Some((Err(StreamError::RevertPastGenesis), s)),
                Some(revert_to) => match find_ptr(chain, revert_to) {
                    None => Some((Err(StreamError::AncestorNotFound(revert_to)), s)),
                    Some(j) => Some(
                        (
                            Ok(EventModel::Revert(revert_to)),
                            StreamState {
                                next: s.next,
                                current: Some(revert_to),
                                current_parent: chain[j].0.parent_ptr,
                            },
                        ),
                    ),
                },
            }
        }
    }
}

/// Every block that names a parent sits one height above it.
pub open spec fn well_linked(chain: Seq<(Block, Seq<Trigger>)>) -> bool {
    forall|k: int|
        0 <= k < chain.len() ==> match (#[trigger] chain[k]).0.parent_ptr {
            Some(p) => p.number as int + 1 == chain[k].0.ptr.number as int,
            None => true,
        }
}

proof fn lemma_skip_keeps_head(chain: Seq<(Block, Seq<Trigger>)>, s: StreamState)
    ensures
        skip_applied(chain, s).current == s.current,
        skip_applied(chain, s).current_parent == s.current_parent,
        skip_applied(chain, s).next >= s.next,
        s.next < 0 || s.next >= chain.len() || s.current != Some(chain[s.next].0.ptr) ==> skip_applied(chain, s) == s,
    decreases chain.len() - s.next,
{
    if 0 <= s.next < chain.len() && s.current == Some(chain[s.next].0.ptr) {
        lemma_skip_keeps_head(chain, StreamState { next: s.next + 1, ..s });
    }
}

/// The outputs of `n` steps from state `s`, stopping early when the
/// candidates run out.
pub open spec fn run(chain: Seq<(Block, Seq<Trigger>)>, s: StreamState, n: nat) -> Seq<
    Result<EventModel, StreamError>,
>
    decreases n,
{
    if n == 0 {
        Seq::empty()
    } else {
        match step(chain, s) {
            None => Seq::empty(),
            Some((out, s2)) => seq![out] + run(chain, s2, (n - 1) as nat),
        }
    }
}

/// The candidates from `s.next` on form one line of descent starting at the
/// current head.
pub open spec fn extends_linearly(chain: Seq<(Block, Seq<Trigger>)>, s: StreamState) -> bool {
    &&& 0 <= s.next <= chain.len()
    &&& s.next < chain.len() ==> chain[s.next].0.parent_ptr == s.current
    &&& forall|k: int|
        s.next <= k < chain.len() - 1 ==> #[trigger] chain[k + 1].0.parent_ptr == Some(
            chain[k].0.ptr,
        )
}

/// The parent recorded for the block with pointer `p`, if that block is
/// known.
pub open spec fn known_parent(chain: Seq<(Block, Seq<Trigger>)>, p: BlockPtr) -> Option<
    Option<BlockPtr>,
> {
    match find_ptr(chain, p) {
        None => None,
        Some(j) => Some(chain[j].0.parent_ptr),
    }
}

/// Where every remaining candidate extends the one before it, the stream
/// processes them all, in order, without a single revert, and then waits.
pub proof fn lemma_linear_chain_only_processes(chain: Seq<(Block, Seq<Trigger>)>, s: StreamState)
    requires
        well_linked(chain),
        extends_linearly(chain, s),
    ensures
        run(chain, s, (chain.len() - s.next + 1) as nat) == chain.subrange(
            s.next,
            chain.len() as int,
        ).map_values(|b: (Block, Seq<Trigger>)| Ok::<EventModel, StreamError>(EventModel::Process(b))),
    decreases chain.len() - s.next,
{
    let rest = chain.subrange(s.next, chain.len() as int).map_values(
        |b: (Block, Seq<Trigger>)| Ok::<EventModel, StreamError>(EventModel::Process(b)),
    );
    if s.next == chain.len() {
        assert(rest =~= Seq::empty());
    } else {
        let cand = chain[s.next];
        let s2 = StreamState { next: s.next + 1, current: Some(cand.0.ptr), current_parent: cand.0.parent_ptr };
        assert(chain[s.next] == cand);
        lemma_skip_keeps_head(chain, s);
        assert(step(chain, s) == Some((Ok::<EventModel, StreamError>(EventModel::Process(cand)), s2)));
        if s2.next < chain.len() {
            assert(chain[s.next + 1].0.parent_ptr == Some(chain[s.next].0.ptr));
        }
        lemma_linear_chain_only_processes(chain, s2);
        let tail = chain.subrange(s2.next, chain.len() as int).map_values(
            |b: (Block, Seq<Trigger>)| Ok::<EventModel, StreamError>(EventModel::Process(b)),
        );
        assert(rest =~= seq![Ok::<EventModel, StreamError>(EventModel::Process(cand))] + tail);
    }
}

/// At a fork, where `path` lists the ancestors of the current head from its
/// parent down to the common ancestor with the next candidate, the stream
/// reverts to each of them in turn, stops at the common ancestor, and then
/// processes the candidate.
pub proof fn lemma_fork_reverts_to_common_ancestor(
    chain: Seq<(Block, Seq<Trigger>)>,
    s: StreamState,
    path: Seq<BlockPtr>,
)
    requires
        0 <= s.next < chain.len(),
        path.len() >= 1,
        chain[s.next].0.parent_ptr != s.current,
        s.current != Some(chain[s.next].0.ptr),
        forall|i: int| 0 <= i < path.len() ==> #[trigger] path[i] != chain[s.next].0.ptr,
        s.current_parent == Some(path[0]),
        forall|i: int| 0 <= i < path.len() ==> #[trigger] known_parent(chain, path[i]).is_some(),
        forall|i: int|
            0 <= i < path.len() - 1 ==> known_parent(chain, #[trigger] path[i]) == Some(
                Some(path[i + 1]),
            ),
        forall|i: int| 0 <= i < path.len() - 1 ==> chain[s.next].0.parent_ptr != Some(#[trigger] path[i]),
        chain[s.next].0.parent_ptr == Some(path.last()),
    ensures
        run(chain, s, (path.len() + 1) as nat) == path.map_values(
            |p: BlockPtr| Ok::<EventModel, StreamError>(EventModel::Revert(p)),
        ) + seq![Ok::<EventModel, StreamError>(EventModel::Process(chain[s.next]))],
    decreases path.len(),
{
    let p0 = path[0];
    assert(known_parent(chain, path[0]).is_some());
    let j = find_ptr(chain, p0).unwrap();
    let s2 = StreamState { next: s.next, current: Some(p0), current_parent: chain[j].0.parent_ptr };
    lemma_skip_keeps_head(chain, s);
    assert(path[0] != chain[s.next].0.ptr);
    lemma_skip_keeps_head(chain, s2);
    assert(step(chain, s) == Some((Ok::<EventModel, StreamError>(EventModel::Revert(p0)), s2)));
    let reverts = path.map_values(|p: BlockPtr| Ok::<EventModel, StreamError>(EventModel::Revert(p)));
    let process = seq![Ok::<EventModel, StreamError>(EventModel::Process(chain[s.next]))];
    if path.len() == 1 {
        let s3 = StreamState { next: s.next + 1, current: Some(chain[s.next].0.ptr), current_parent: chain[s.next].0.parent_ptr };
        assert(path.last() == path[0]);
        assert(step(chain, s2) == Some((Ok::<EventModel, StreamError>(EventModel::Process(chain[s.next])), s3)));
        assert(run(chain, s3, 0) =~= Seq::empty());
        assert(run(chain, s2, 1) =~= process);
        assert(reverts =~= seq![Ok::<EventModel, StreamError>(EventModel::Revert(p0))]);
    } else {
        let rest = path.drop_first();
        assert(known_parent(chain, path[0]) == Some(Some(path[1])));
        assert(chain[s.next].0.parent_ptr != Some(path[0]));
        assert forall|i: int| 0 <= i < rest.len() implies #[trigger] known_parent(chain, rest[i]).is_some() by {
            assert(rest[i] == path[i + 1]);
            assert(known_parent(chain, path[i + 1]).is_some());
        }
        assert forall|i: int| 0 <= i < rest.len() - 1 implies known_parent(chain, #[trigger] rest[i]) == Some(Some(rest[i + 1])) by {
            assert(rest[i] == path[i + 1]);
            assert(known_parent(chain, path[i + 1]) == Some(Some(path[i + 2])));
        }
        assert forall|i: int| 0 <= i < rest.len() - 1 implies chain[s.next].0.parent_ptr != Some(#[trigger] rest[i]) by {
            assert(rest[i] == path[i + 1]);
        }
        assert forall|i: int| 0 <= i < rest.len() implies #[trigger] rest[i] != chain[s.next].0.ptr by {
            assert(rest[i] == path[i + 1]);
        }
        assert(rest.last() == path.last());
        lemma_fork_reverts_to_common_ancestor(chain, s2, rest);
        let rest_reverts = rest.map_values(|p: BlockPtr| Ok::<EventModel, StreamError>(EventModel::Revert(p)));
        assert(reverts + process =~= seq![Ok::<EventModel, StreamError>(EventModel::Revert(p0))] + (rest_reverts + process));
    }
}

/// A revert only ever lands on the parent of the current head; where the
/// head has no parent, a needed revert is reported as a fault and no event
/// is produced.
pub proof fn lemma_no_revert_past_genesis(chain: Seq<(Block, Seq<Trigger>)>, s: StreamState)
    ensures
        step(chain, s) matches Some((Ok(EventModel::Revert(p)), _)) ==> s.current_parent == Some(p),
        0 <= s.next < chain.len() && chain[s.next].0.parent_ptr != s.current && s.current != Some(
            chain[s.next].0.ptr,
        ) && s.current_parent is None ==> step(chain, s) == Some(
            (Err::<EventModel, StreamError>(StreamError::RevertPastGenesis), s),
        ),
{
    lemma_skip_keeps_head(chain, s);
}

/// A stream over a fixed sequence of chain heads.  If the next head does
/// not extend the current one, reverts are emitted until it does; a head
/// that already is the current one is passed over without an event.
pub struct BlockStream {
    chain: Vec<BlockWithTriggers>,
    next: usize,
    current_ptr: Option<BlockPtr>,
    current_parent_ptr: Option<BlockPtr>,
}

impl BlockStream {
    pub closed spec fn chain(&self) -> Seq<(Block, Seq<Trigger>)> {
        self.chain@.map_values(|b: BlockWithTriggers| b@)
    }

    pub closed spec fn state(&self) -> StreamState {
        StreamState {
            next: self.next as int,
            current: self.current_ptr,
            current_parent: self.current_parent_ptr,
        }
    }

    pub closed spec fn wf(&self) -> bool {
        self.next <= self.chain@.len()
    }

    /// Where the block with pointer `p` stands in the chain, the first such
    /// place.
    fn position_of(&self, p: BlockPtr) -> (r: Option<usize>)
        ensures
            match r {
                None => find_ptr(self.chain(), p).is_none(),
                Some(i) => i < self.chain@.len() && find_ptr(self.chain(), p) == Some(i as int),
            },
    {
        proof {
            lemma_find_ptr(self.chain(), p);
        }
        let mut i: usize = 0;
        while i < self.chain.len()
            invariant
                i <= self.chain@.len(),
                self.chain().len() == self.chain@.len(),
                forall|k: int| 0 <= k < i ==> self.chain()[k].0.ptr != p,
            decreases self.chain@.len() - i,
        {
            if self.chain[i].block.ptr == p {
                proof {
                    lemma_find_ptr(self.chain(), p);
                }
                assert(self.chain()[i as int].0.ptr == p);
                return Some(i);
            }
            i = i + 1;
        }
        None
    }

    /// A stream over `chain` that resumes after the block `current`, or
    /// starts before the first block where `current` is `None`.
    pub fn new(chain: Vec<BlockWithTriggers>, current: Option<BlockPtr>) -> (r: Result<
        BlockStream,
        StreamError,
    >)
        ensures
            match r {
                Ok(st) => {
                    &&& st.wf()
                    &&& st.chain() == chain@.map_values(|b: BlockWithTriggers| b@)
                    &&& match current {
                        None => st.state() == StreamState {
                            next: 0,
                            current: None,
                            current_parent: None,
                        },
                        Some(p) => find_ptr(st.chain(), p) matches Some(i) && st.state()
                            == StreamState {
                            next: i + 1,
                            current: Some(p),
                            current_parent: st.chain()[i].0.parent_ptr,
                        },
                    }
                },
                Err(e) => current matches Some(p) && e == StreamError::UnknownStartBlock(p)
                    && find_ptr(chain@.map_values(|b: BlockWithTriggers| b@), p).is_none(),
            },
    {
        let st = BlockStream {
            chain,
            next: 0,
            current_ptr: None,
            current_parent_ptr: None,
        };
        match current {
            None => Ok(st),
            Some(p) => match st.position_of(p) {
                None => Err(StreamError::UnknownStartBlock(p)),
                Some(i) => {
                    let n = st.chain.len();
                    let parent = st.chain[i].block.parent_ptr;
                    Ok(BlockStream { next: i + 1, current_ptr: Some(p), current_parent_ptr: parent, ..st })
                },
            },
        }
    }

    /// Takes one step: emits the next event, or `None` when every known
    /// candidate has been applied and the stream waits for new data.
    pub fn advance(&mut self) -> (r: Option<Result<BlockStreamEvent, StreamError>>)
        requires
            old(self).wf(),
        ensures
            final(self).wf(),
            final(self).chain() == old(self).chain(),
            match step(old(self).chain(), old(self).state()) {
                None => r.is_none() && final(self).state() == skip_applied(
                    old(self).chain(),
                    old(self).state(),
                ),
                Some((out, s2)) => r matches Some(res) && final(self).state() == s2 && match res {
                    Ok(ev) => out == Ok::<EventModel, StreamError>(ev.model()),
                    Err(e) => out == Err::<EventModel, StreamError>(e),
                },
            },
    {
        let ghost c = self.chain();
        let ghost s0 = self.state();
        while self.next < self.chain.len() && self.current_ptr == Some(self.chain[self.next].block.ptr)
            invariant
                self.wf(),
                self.chain() == c,
                c.len() == self.chain@.len(),
                skip_applied(c, self.state()) == skip_applied(c, s0),
            decreases self.chain@.len() - self.next,
        {
            assert(c[self.next as int] == self.chain@[self.next as int]@);
            self.next = self.next + 1;
        }
        if self.next < self.chain.len() {
            assert(c[self.next as int] == self.chain@[self.next as int]@);
        }
        assert(skip_applied(c, self.state()) == self.state());
        if self.next >= self.chain.len() {
            return None;
        }
        assert(c[self.next as int] == self.chain@[self.next as int]@);
        let cand_block = self.chain[self.next].block;
        if cand_block.parent_ptr == self.current_ptr {
            let ev = BlockStreamEvent::ProcessBlock(self.chain[self.next].duplicate(), Cursor::Absent);
            self.current_ptr = Some(cand_block.ptr);
            self.current_parent_ptr = cand_block.parent_ptr;
            self.next = self.next + 1;
            Some(Ok(ev))
        } else {
            match self.current_parent_ptr {
                None => Some(Err(StreamError::RevertPastGenesis)),
                Some(revert_to) => match self.position_of(revert_to) {
                    None => Some(Err(StreamError::AncestorNotFound(revert_to))),
                    Some(j) => {
                        assert(c[j as int] == self.chain@[j as int]@);
                        self.current_ptr = Some(revert_to);
                        self.current_parent_ptr = self.chain[j].block.parent_ptr;
                        Some(Ok(BlockStreamEvent::Revert(revert_to, Cursor::Absent)))
                    },
                },
            }
        }
    }
}

} // verus!
