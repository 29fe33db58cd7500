//! The decisions of the persistence writer: which batches of executed blocks
//! it accepts, the writes that commit an accepted batch, and the durable log
//! of committed blocks from which a reorganisation removes blocks again.

use crate::flush::{apply_writes, flush_writes, TrieTableOpView, TrieTablesView};
use crate::nibbles::B256;
use crate::store::{lemma_apply_writes_append, TrieTables};
use crate::table::DatabaseError;
use crate::updates::TrieUpdates;
use vstd::prelude::*;

verus! {

/// An executed, hashed block that is not yet durable, with the trie delta
/// its execution produced.
#[derive(Debug, PartialEq, Eq)]
pub struct ExecutedBlock {
    pub number: u64,
    pub hash: B256,
    pub trie_updates: TrieUpdates,
}

/// Why the writer refused or failed a request.
#[derive(Debug, PartialEq, Eq)]
pub enum PersistenceError {
    /// A batch to save held no block.
    EmptyBatch,
    /// The blocks of a batch do not follow one another by increasing number,
    /// or the batch does not start above the last durable block.
    OutOfOrder,
    /// The durable store failed; nothing of the request was committed.
    Database(DatabaseError),
    /// The writer has stopped: the request could not be delivered, or its
    /// reply never came.
    Unavailable,
}

/// The block numbers of `blocks` strictly increase.
pub open spec fn increasing(blocks: Seq<ExecutedBlock>) -> bool {
    forall|i: int, j: int| 0 <= i < j < blocks.len() ==> #[trigger] blocks[i].number < #[trigger] blocks[j].number
}

/// Each block number of `blocks` is one more than the one before it.
pub open spec fn consecutive(blocks: Seq<ExecutedBlock>) -> bool {
    forall|i: int| 0 < i < blocks.len() ==> #[trigger] blocks[i].number == blocks[i - 1].number + 1
}

/// Checks that a batch can be saved: it is not empty and its blocks follow
/// one another.
pub fn check_batch(blocks: &Vec<ExecutedBlock>) -> (r: Result<(), PersistenceError>)
    ensures
        blocks@.len() == 0 ==> r == Err::<(), PersistenceError>(PersistenceError::EmptyBatch),
        blocks@.len() > 0 && !consecutive(blocks@) ==> r == Err::<(), PersistenceError>(
            PersistenceError::OutOfOrder,
        ),
        blocks@.len() > 0 && consecutive(blocks@) ==> r is Ok,
{
    if blocks.len() == 0 {
        return Err(PersistenceError::EmptyBatch);
    }
    let mut i: usize = 1;
    while i < blocks.len()
        invariant
            1 <= i <= blocks@.len(),
            forall|k: int| 0 < k < i ==> #[trigger] blocks@[k].number == blocks@[k - 1].number + 1,
        decreases blocks.len() - i,
    {
        if blocks[i - 1].number == u64::MAX || blocks[i].number != blocks[i - 1].number + 1 {
            assert(blocks@[i as int].number != blocks@[i - 1].number + 1);
            return Err(PersistenceError::OutOfOrder);
        }
        i = i + 1;
    }
    Ok(())
}

/// One step of committing a batch, naming blocks by their position in it.
#[derive(Debug, PartialEq, Eq)]
pub enum WriteStep {
    /// Insert the sealed block and its senders.
    InsertBlock(usize),
    /// Write the block's state changes and receipts as fresh history.
    WriteState(usize),
    /// Write the block's hashed post-state.
    WriteHashedState(usize),
    /// Flush the block's trie delta.
    FlushTrie(usize),
    /// Update the history indices over the batch's block range.
    UpdateHistoryIndices(u64, u64),
    /// Advance the pipeline checkpoint to the given block.
    UpdatePipelineStages(u64),
}

/// The steps that commit block `i` of a batch spanning `first..=last`.
pub open spec fn block_steps(i: usize, first: u64, last: u64) -> Seq<WriteStep> {
    seq![
        WriteStep::InsertBlock(i),
        WriteStep::WriteState(i),
        WriteStep::WriteHashedState(i),
        WriteStep::FlushTrie(i),
        WriteStep::UpdateHistoryIndices(first, last),
        WriteStep::UpdatePipelineStages(last)
    ]
}

/// The steps that commit the first `n` blocks of a batch spanning
/// `first..=last`, block after block.
pub open spec fn batch_steps(n: nat, first: u64, last: u64) -> Seq<WriteStep>
    decreases n,
{
    if n == 0 {
        Seq::empty()
    } else {
        batch_steps((n - 1) as nat, first, last) + block_steps((n - 1) as usize, first, last)
    }
}

/// The steps that commit a batch inside one transaction, and the hash of
/// its last block, the reply once the transaction is committed. A batch that
/// is empty or out of order is refused before any write.
pub fn plan_save_blocks(blocks: &Vec<ExecutedBlock>) -> (r: Result<
    (Vec<WriteStep>, B256),
    PersistenceError,
>)
    ensures
        blocks@.len() == 0 ==> r matches Err(PersistenceError::EmptyBatch),
        blocks@.len() > 0 && !consecutive(blocks@) ==> r matches Err(PersistenceError::OutOfOrder),
        blocks@.len() > 0 && consecutive(blocks@) ==> (r matches Ok((steps, hash)) && steps@
            == batch_steps(blocks@.len() as nat, blocks@[0].number, blocks@.last().number)
            && hash == blocks@.last().hash),
{
    match check_batch(blocks) {
        Err(e) => return Err(e),
        Ok(()) => {},
    }
    let first = blocks[0].number;
    let last = blocks[blocks.len() - 1].number;
    let mut steps: Vec<WriteStep> = Vec::new();
    let mut i: usize = 0;
    while i < blocks.len()
        invariant
            i <= blocks@.len(),
            steps@ == batch_steps(i as nat, first, last),
        decreases blocks.len() - i,
    {
        let ghost before = steps@;
        steps.push(WriteStep::InsertBlock(i));
        steps.push(WriteStep::WriteState(i));
        steps.push(WriteStep::WriteHashedState(i));
        steps.push(WriteStep::FlushTrie(i));
        steps.push(WriteStep::UpdateHistoryIndices(first, last));
        steps.push(WriteStep::UpdatePipelineStages(last));
        assert(steps@ =~= before + block_steps(i, first, last));
        i = i + 1;
    }
    Ok((steps, blocks[blocks.len() - 1].hash))
}

/// The blocks of `blocks` numbered at most `n`.
pub open spec fn kept_at_or_below(blocks: Seq<ExecutedBlock>, n: u64) -> Seq<ExecutedBlock> {
    blocks.filter(|b: ExecutedBlock| b.number <= n)
}

/// The blocks of `blocks` numbered above `n`.
pub open spec fn above(blocks: Seq<ExecutedBlock>, n: u64) -> Seq<ExecutedBlock> {
    blocks.filter(|b: ExecutedBlock| b.number > n)
}

/// Whether the log `log` takes the batch `blocks`: the batch is not empty,
/// its blocks follow one another, and it starts above the last logged block.
pub open spec fn save_accepted(log: Seq<ExecutedBlock>, blocks: Seq<ExecutedBlock>) -> bool {
    &&& blocks.len() > 0
    &&& consecutive(blocks)
    &&& (log.len() == 0 || log.last().number < blocks[0].number)
}

/// The durable log of committed blocks, in increasing block number.
#[derive(Debug)]
pub struct BlockStore {
    blocks: Vec<ExecutedBlock>,
}

impl View for BlockStore {
    type V = Seq<ExecutedBlock>;

    closed spec fn view(&self) -> Seq<ExecutedBlock> {
        self.blocks@
    }
}

impl BlockStore {
    pub open spec fn wf(&self) -> bool {
        increasing(self@)
    }

    pub fn new() -> (r: BlockStore)
        ensures
            r.wf(),
            r@ == Seq::<ExecutedBlock>::empty(),
    {
        BlockStore { blocks: Vec::new() }
    }

    pub fn len(&self) -> (r: usize)
        ensures
            r == self@.len(),
    {
        self.blocks.len()
    }

    /// The number of the last committed block.
    pub fn tip(&self) -> (r: Option<u64>)
        ensures
            self@.len() == 0 ==> r is None,
            self@.len() > 0 ==> r == Some(self@.last().number),
    {
        if self.blocks.len() == 0 {
            None
        } else {
            Some(self.blocks[self.blocks.len() - 1].number)
        }
    }

    /// The committed block at position `i`.
    pub fn get(&self, i: usize) -> (r: &ExecutedBlock)
        requires
            i < self@.len(),
        ensures
            *r == self@[i as int],
    {
        &self.blocks[i]
    }

    /// Whether [`Self::save_blocks`] would take the batch.
    pub fn accepts(&self, blocks: &Vec<ExecutedBlock>) -> (r: bool)
        ensures
            r == save_accepted(self@, blocks@),
    {
        match check_batch(blocks) {
            Err(_) => false,
            Ok(()) => self.blocks.len() == 0 || self.blocks[self.blocks.len() - 1].number
                < blocks[0].number,
        }
    }

    /// Commits a batch: appends its blocks and replies with the hash of the
    /// last one. A batch that is empty, out of order, or that does not start
    /// above the last committed block is refused and changes nothing.
    pub fn save_blocks(&mut self, blocks: Vec<ExecutedBlock>) -> (r: Result<B256, PersistenceError>)
        requires
            old(self).wf(),
        ensures
            final(self).wf(),
            blocks@.len() == 0 ==> r matches Err(PersistenceError::EmptyBatch),
            blocks@.len() > 0 && !save_accepted(old(self)@, blocks@) ==> r matches Err(
                PersistenceError::OutOfOrder,
            ),
            !save_accepted(old(self)@, blocks@) ==> final(self)@ == old(self)@,
            save_accepted(old(self)@, blocks@) ==> r == Ok::<B256, PersistenceError>(
                blocks@.last().hash,
            ) && final(self)@ == old(self)@ + blocks@,
    {
        match check_batch(&blocks) {
            Err(e) => return Err(e),
            Ok(()) => {},
        }
        if self.blocks.len() > 0 && blocks[0].number <= self.blocks[self.blocks.len() - 1].number {
            return Err(PersistenceError::OutOfOrder);
        }
        let hash = blocks[blocks.len() - 1].hash;
        let ghost old_blocks = self.blocks@;
        let ghost batch = blocks@;
        proof {
            assert forall|i: int, j: int| 0 <= i < j < batch.len() implies #[trigger] batch[i].number
                < #[trigger] batch[j].number by {
                lemma_consecutive_increasing(batch, i, j);
            }
        }
        let mut blocks = blocks;
        self.blocks.append(&mut blocks);
        proof {
            let s = self.blocks@;
            assert(s =~= old_blocks + batch);
            assert forall|i: int, j: int| 0 <= i < j < s.len() implies #[trigger] s[i].number
                < #[trigger] s[j].number by {
                if i < old_blocks.len() && j >= old_blocks.len() {
                    if i < old_blocks.len() - 1 {
                        assert(old_blocks[i].number < old_blocks[old_blocks.len() - 1].number);
                    }
                    if j > old_blocks.len() {
                        assert(batch[0].number < batch[j - old_blocks.len()].number);
                    }
                }
            }
        }
        Ok(hash)
    }

    /// Removes every committed block numbered above `number` and returns
    /// them, in increasing block number.
    pub fn remove_blocks_above(&mut self, number: u64) -> (r: Vec<ExecutedBlock>)
        requires
            old(self).wf(),
        ensures
            final(self).wf(),
            final(self)@ == kept_at_or_below(old(self)@, number),
            r@ == above(old(self)@, number),
    {
        let ghost s = self.blocks@;
        let mut k: usize = self.blocks.len();
        while k > 0 && self.blocks[k - 1].number > number
            invariant
                self.blocks@ == s,
                k <= s.len(),
                forall|j: int| k <= j < s.len() ==> #[trigger] s[j].number > number,
            decreases k,
        {
            k = k - 1;
        }
        let removed = self.blocks.split_off(k);
        proof {
            assert forall|j: int| 0 <= j < k implies #[trigger] s[j].number <= number by {
                if j < k - 1 {
                    assert(s[j].number < s[k - 1].number);
                }
            }
            lemma_filter_split(s, k as int, number);
        }
        removed
    }
}

proof fn lemma_consecutive_increasing(blocks: Seq<ExecutedBlock>, i: int, j: int)
    requires
        consecutive(blocks),
        0 <= i < j < blocks.len(),
    ensures
        blocks[i].number < blocks[j].number,
    decreases j - i,
{
    if j > i + 1 {
        lemma_consecutive_increasing(blocks, i, j - 1);
    }
    assert(blocks[j].number == blocks[j - 1].number + 1);
}

proof fn lemma_filter_split(s: Seq<ExecutedBlock>, k: int, n: u64)
    requires
        0 <= k <= s.len(),
        forall|j: int| 0 <= j < k ==> #[trigger] s[j].number <= n,
        forall|j: int| k <= j < s.len() ==> #[trigger] s[j].number > n,
    ensures
        kept_at_or_below(s, n) == s.take(k),
        above(s, n) == s.skip(k),
    decreases s.len(),
{
    let keep = |b: ExecutedBlock| b.number <= n;
    let drop = |b: ExecutedBlock| b.number > n;
    reveal(Seq::filter);
    if s.len() == 0 {
        assert(s.take(k) =~= s);
        assert(s.skip(k) =~= s);
    } else {
        let t = s.drop_last();
        if k == s.len() {
            lemma_filter_split(t, k - 1, n);
            assert(t.take(k - 1) =~= t);
            assert(s.take(k) =~= s);
            assert(t.skip(k - 1) =~= Seq::<ExecutedBlock>::empty());
            assert(s.skip(k) =~= Seq::<ExecutedBlock>::empty());
        } else {
            lemma_filter_split(t, k, n);
            assert(t.take(k) =~= s.take(k));
            assert(t.skip(k).push(s.last()) =~= s.skip(k));
        }
    }
}

/// Saving a batch and then removing the blocks above the number of its
/// block at position `k` returns the batch's blocks after `k`, in order, and
/// leaves the log as if only the batch's blocks up to `k` had been saved.
pub proof fn lemma_save_then_remove(log: Seq<ExecutedBlock>, batch: Seq<ExecutedBlock>, k: int)
    requires
        increasing(log),
        consecutive(batch),
        0 <= k < batch.len(),
        log.len() == 0 || log.last().number < batch[0].number,
    ensures
        above(log + batch, batch[k].number) == batch.skip(k + 1),
        kept_at_or_below(log + batch, batch[k].number) == log + batch.take(k + 1),
{
    let s = log + batch;
    let n = batch[k].number;
    let cut = log.len() + k + 1;
    assert forall|j: int| 0 <= j < cut implies #[trigger] s[j].number <= n by {
        if j < log.len() {
            assert(s[j] == log[j]);
            if j < log.len() - 1 {
                assert(log[j].number < log[log.len() - 1].number);
            }
            if k > 0 {
                lemma_consecutive_increasing(batch, 0, k);
            }
        } else {
            assert(s[j] == batch[j - log.len()]);
            if j - log.len() < k {
                lemma_consecutive_increasing(batch, j - log.len(), k);
            }
        }
    }
    assert forall|j: int| cut <= j < s.len() implies #[trigger] s[j].number > n by {
        assert(s[j] == batch[j - log.len()]);
        lemma_consecutive_increasing(batch, k, j - log.len());
    }
    lemma_filter_split(s, cut, n);
    assert(s.skip(cut) =~= batch.skip(k + 1));
    assert(s.take(cut) =~= log + batch.take(k + 1));
}

/// A request to the writer, without its reply channel.
#[derive(Debug)]
pub enum PersistenceRequest {
    /// Commit these blocks, ordered by increasing block number.
    SaveBlocks(Vec<ExecutedBlock>),
    /// Remove the committed blocks above this block number.
    RemoveBlocksAbove(u64),
}

/// The writer's answer to a [`PersistenceRequest`].
#[derive(Debug)]
pub enum PersistenceReply {
    /// The hash of the last block of the committed batch, or why the batch
    /// was refused.
    Saved(Result<B256, PersistenceError>),
    /// The removed blocks, in increasing block number.
    Removed(Vec<ExecutedBlock>),
}

/// The trie writes that flush the deltas of `blocks`, block after block.
pub open spec fn log_writes(blocks: Seq<ExecutedBlock>) -> Seq<TrieTableOpView>
    decreases blocks.len(),
{
    if blocks.len() == 0 {
        Seq::empty()
    } else {
        log_writes(blocks.drop_last()) + flush_writes(blocks.last().trie_updates.entries())
    }
}

/// The single writer's state: the log of committed blocks and the trie
/// tables, which are always the tables from before the first logged block
/// with the deltas of the logged blocks flushed over them in order. Each
/// request is handled whole, one after the other; a refused request changes
/// nothing.
#[derive(Debug)]
pub struct Persistence {
    store: BlockStore,
    base: TrieTables,
    tables: TrieTables,
}

impl View for Persistence {
    type V = Seq<ExecutedBlock>;

    closed spec fn view(&self) -> Seq<ExecutedBlock> {
        self.store@
    }
}

impl Persistence {
    pub closed spec fn wf(&self) -> bool {
        &&& self.store.wf()
        &&& self.base.wf()
        &&& self.tables.wf()
        &&& self.tables@ == apply_writes(self.base@, log_writes(self.store@))
    }

    /// A well-formed writer logs blocks in increasing number, and its trie
    /// tables are the base tables with the logged blocks' deltas flushed
    /// over them in order.
    pub proof fn lemma_wf(&self)
        requires
            self.wf(),
        ensures
            increasing(self@),
            self.tables() == apply_writes(self.base(), log_writes(self@)),
    {
    }

    /// The durable trie tables.
    pub closed spec fn tables(&self) -> TrieTablesView {
        self.tables@
    }

    /// The trie tables from before the first logged block.
    pub closed spec fn base(&self) -> TrieTablesView {
        self.base@
    }

    pub fn new() -> (r: Persistence)
        ensures
            r.wf(),
            r@ == Seq::<ExecutedBlock>::empty(),
            r.base().accounts == Map::<Seq<u8>, Seq<u8>>::empty(),
            r.base().storages == Map::<(Seq<u8>, Seq<u8>), Seq<u8>>::empty(),
            r.tables() == r.base(),
    {
        let base = TrieTables::new();
        let tables = TrieTables::new();
        Persistence { store: BlockStore::new(), base, tables }
    }

    /// The committed blocks.
    pub fn store(&self) -> (r: &BlockStore)
        ensures
            r@ == self@,
    {
        &self.store
    }

    /// The durable trie tables.
    pub fn trie_tables(&self) -> (r: &TrieTables)
        ensures
            r@ == self.tables(),
    {
        &self.tables
    }

    /// Handles one request and gives the reply to send back. A committed
    /// batch has each block's trie delta flushed, in order; removing blocks
    /// rebuilds the trie tables from the blocks that stay.
    pub fn handle(&mut self, request: PersistenceRequest) -> (r: PersistenceReply)
        requires
            old(self).wf(),
        ensures
            final(self).wf(),
            increasing(final(self)@),
            final(self).base() == old(self).base(),
            final(self).tables() == apply_writes(final(self).base(), log_writes(final(self)@)),
            match request {
                PersistenceRequest::SaveBlocks(blocks) => !save_accepted(old(self)@, blocks@)
                    ==> final(self).tables() == old(self).tables(),
                PersistenceRequest::RemoveBlocksAbove(_) => true,
            },
            match request {
                PersistenceRequest::SaveBlocks(blocks) => r matches PersistenceReply::Saved(res)
                    && (blocks@.len() == 0 ==> res matches Err(PersistenceError::EmptyBatch)) && (
                blocks@.len() > 0 && !save_accepted(old(self)@, blocks@) ==> res matches Err(
                    PersistenceError::OutOfOrder,
                )) && (!save_accepted(old(self)@, blocks@) ==> final(self)@ == old(self)@) && (
                save_accepted(old(self)@, blocks@) ==> res == Ok::<B256, PersistenceError>(
                    blocks@.last().hash,
                ) && final(self)@ == old(self)@ + blocks@),
                PersistenceRequest::RemoveBlocksAbove(n) => r matches PersistenceReply::Removed(
                    removed,
                ) && removed@ == above(old(self)@, n) && final(self)@ == kept_at_or_below(
                    old(self)@,
                    n,
                ),
            },
    {
        match request {
            PersistenceRequest::SaveBlocks(blocks) => {
                if self.store.accepts(&blocks) {
                    let ghost log = self.store@;
                    let mut i: usize = 0;
                    while i < blocks.len()
                        invariant
                            self.store@ == log,
                            self.store.wf(),
                            self.base.wf(),
                            self.base@ == old(self).base@,
                            self.tables.wf(),
                            i <= blocks@.len(),
                            self.tables@ == apply_writes(
                                self.base@,
                                log_writes(log + blocks@.take(i as int)),
                            ),
                        decreases blocks.len() - i,
                    {
                        let writes = blocks[i].trie_updates.writes();
                        proof {
                            let before = log + blocks@.take(i as int);
                            let after = log + blocks@.take(i as int + 1);
                            assert(after.drop_last() =~= before);
                            lemma_apply_writes_append(
                                self.base@,
                                log_writes(before),
                                flush_writes(blocks@[i as int].trie_updates.entries()),
                            );
                        }
                        self.tables.apply_all(writes);
                        i = i + 1;
                    }
                    assert(blocks@.take(blocks@.len() as int) =~= blocks@);
                }
                PersistenceReply::Saved(self.store.save_blocks(blocks))
            },
            PersistenceRequest::RemoveBlocksAbove(n) => {
                let removed = self.store.remove_blocks_above(n);
                let mut tables = self.base.copy();
                let ghost kept = self.store@;
                let mut i: usize = 0;
                assert(kept.take(0) =~= Seq::<ExecutedBlock>::empty());
                while i < self.store.len()
                    invariant
                        self.store@ == kept,
                        tables.wf(),
                        i <= kept.len(),
                        tables@ == apply_writes(self.base@, log_writes(kept.take(i as int))),
                    decreases kept.len() - i,
                {
                    let writes = self.store.get(i).trie_updates.writes();
                    proof {
                        assert(kept.take(i as int + 1).drop_last() =~= kept.take(i as int));
                        lemma_apply_writes_append(
                            self.base@,
                            log_writes(kept.take(i as int)),
                            flush_writes(kept[i as int].trie_updates.entries()),
                        );
                    }
                    tables.apply_all(writes);
                    i = i + 1;
                }
                assert(kept.take(kept.len() as int) =~= kept);
                self.tables = tables;
                PersistenceReply::Removed(removed)
            },
        }
    }
}

/// Saving a batch and removing the blocks above the number of its block at
/// position `k` leaves the trie tables as saving only the batch's blocks up
/// to `k` would.
pub proof fn lemma_save_then_remove_tables(
    base: TrieTablesView,
    log: Seq<ExecutedBlock>,
    batch: Seq<ExecutedBlock>,
    k: int,
)
    requires
        increasing(log),
        consecutive(batch),
        0 <= k < batch.len(),
        log.len() == 0 || log.last().number < batch[0].number,
    ensures
        apply_writes(base, log_writes(kept_at_or_below(log + batch, batch[k].number)))
            == apply_writes(base, log_writes(log + batch.take(k + 1))),
{
    lemma_save_then_remove(log, batch, k);
}

} // verus!
