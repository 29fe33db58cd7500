use trie_persistence::nibbles::B256;
use trie_persistence::persistence::{
    check_batch, plan_save_blocks, BlockStore, ExecutedBlock, Persistence, PersistenceError,
    PersistenceReply, PersistenceRequest, WriteStep,
};
use trie_persistence::nibbles::{BranchNodeCompact, Nibbles};
use trie_persistence::updates::{TrieKey, TrieOp, TrieUpdates};

fn block(n: u64) -> ExecutedBlock {
    ExecutedBlock { number: n, hash: B256([n as u8; 32]), trie_updates: TrieUpdates::new() }
}

#[test]
fn save_empty_batch_is_refused() {
    let mut store = BlockStore::new();
    store.save_blocks(vec![block(1)]).unwrap();
    assert_eq!(store.save_blocks(vec![]), Err(PersistenceError::EmptyBatch));
    assert_eq!(store.len(), 1);
    assert_eq!(check_batch(&vec![]), Err(PersistenceError::EmptyBatch));
    assert!(matches!(plan_save_blocks(&vec![]), Err(PersistenceError::EmptyBatch)));
}

#[test]
fn save_out_of_order_batch_is_refused() {
    let mut store = BlockStore::new();
    assert_eq!(store.save_blocks(vec![block(3), block(2)]), Err(PersistenceError::OutOfOrder));
    assert_eq!(store.len(), 0);
    store.save_blocks(vec![block(5)]).unwrap();
    assert_eq!(store.save_blocks(vec![block(5), block(6)]), Err(PersistenceError::OutOfOrder));
    assert_eq!(store.tip(), Some(5));
}

#[test]
fn save_then_remove_blocks_above() {
    let mut store = BlockStore::new();
    let reply = store.save_blocks(vec![block(10), block(11), block(12)]);
    assert_eq!(reply, Ok(B256([12; 32])));
    let removed = store.remove_blocks_above(10);
    assert_eq!(removed, vec![block(11), block(12)]);
    let mut only_first = BlockStore::new();
    only_first.save_blocks(vec![block(10)]).unwrap();
    assert_eq!(store.len(), only_first.len());
    assert_eq!(store.get(0), only_first.get(0));
    assert_eq!(store.tip(), Some(10));
    assert!(store.remove_blocks_above(10).is_empty());
}

#[test]
fn plan_commits_blocks_in_order() {
    let (steps, hash) = plan_save_blocks(&vec![block(7), block(8)]).unwrap();
    assert_eq!(hash, B256([8; 32]));
    assert_eq!(steps.len(), 12);
    assert_eq!(
        &steps[0..6],
        &[
            WriteStep::InsertBlock(0),
            WriteStep::WriteState(0),
            WriteStep::WriteHashedState(0),
            WriteStep::FlushTrie(0),
            WriteStep::UpdateHistoryIndices(7, 8),
            WriteStep::UpdatePipelineStages(8),
        ]
    );
    assert_eq!(steps[6], WriteStep::InsertBlock(1));
    assert_eq!(steps[9], WriteStep::FlushTrie(1));
    assert!(matches!(plan_save_blocks(&vec![block(7), block(9)]), Err(PersistenceError::OutOfOrder)));
}

#[test]
fn requests_are_handled_in_order() {
    let mut p = Persistence::new();
    let replies: Vec<PersistenceReply> = vec![
        PersistenceRequest::SaveBlocks(vec![block(1), block(2)]),
        PersistenceRequest::SaveBlocks(vec![]),
        PersistenceRequest::SaveBlocks(vec![block(3)]),
        PersistenceRequest::RemoveBlocksAbove(1),
    ]
    .into_iter()
    .map(|r| p.handle(r))
    .collect();
    assert!(matches!(&replies[0], PersistenceReply::Saved(Ok(h)) if *h == B256([2; 32])));
    assert!(matches!(&replies[1], PersistenceReply::Saved(Err(PersistenceError::EmptyBatch))));
    assert!(matches!(&replies[2], PersistenceReply::Saved(Ok(h)) if *h == B256([3; 32])));
    match &replies[3] {
        PersistenceReply::Removed(b) => assert_eq!(b, &vec![block(2), block(3)]),
        _ => panic!("expected removed blocks"),
    }
    assert_eq!(p.store().tip(), Some(1));
}

fn block_with(n: u64, ops: Vec<(TrieKey, TrieOp)>) -> ExecutedBlock {
    let mut trie_updates = TrieUpdates::new();
    trie_updates.extend(ops);
    ExecutedBlock { number: n, hash: B256([n as u8; 32]), trie_updates }
}

fn chain() -> Vec<ExecutedBlock> {
    let acct = |p: u8| TrieKey::AccountNode(Nibbles(vec![p]));
    let upd = |b: u8| TrieOp::Update(BranchNodeCompact(vec![b]));
    vec![
        block_with(10, vec![(acct(1), upd(1)), (TrieKey::StorageNode(B256([9; 32]), Nibbles(vec![2])), upd(2))]),
        block_with(11, vec![(acct(1), upd(3)), (acct(2), upd(4))]),
        block_with(12, vec![(acct(1), TrieOp::Delete), (TrieKey::StorageTrie(B256([9; 32])), TrieOp::Delete)]),
    ]
}

#[test]
fn remove_blocks_above_restores_trie_tables() {
    let mut all = Persistence::new();
    let mut blocks = chain();
    assert!(matches!(all.handle(PersistenceRequest::SaveBlocks(blocks.drain(..).collect())), PersistenceReply::Saved(Ok(_))));
    assert_eq!(all.trie_tables().accounts().len(), 1);
    let removed = match all.handle(PersistenceRequest::RemoveBlocksAbove(10)) {
        PersistenceReply::Removed(b) => b,
        _ => panic!("expected removed blocks"),
    };
    assert_eq!(removed.iter().map(|b| b.number).collect::<Vec<_>>(), vec![11, 12]);
    let mut first = Persistence::new();
    let b10 = chain().into_iter().next().unwrap();
    assert!(matches!(first.handle(PersistenceRequest::SaveBlocks(vec![b10])), PersistenceReply::Saved(Ok(_))));
    assert_eq!(all.trie_tables(), first.trie_tables());
    assert_eq!(
        all.trie_tables().accounts().get(&Nibbles(vec![1])),
        Some((Nibbles(vec![1]), BranchNodeCompact(vec![1])))
    );
    assert_eq!(all.trie_tables().storage(&B256([9; 32])).len(), 1);
    assert_eq!(all.store().len(), 1);
}

#[test]
fn saved_blocks_flush_their_deltas_in_order() {
    let mut p = Persistence::new();
    let reply = p.handle(PersistenceRequest::SaveBlocks(chain()));
    assert!(matches!(reply, PersistenceReply::Saved(Ok(h)) if h == B256([12; 32])));
    let tables = p.trie_tables();
    assert_eq!(tables.accounts().get(&Nibbles(vec![1])), None);
    assert_eq!(
        tables.accounts().get(&Nibbles(vec![2])),
        Some((Nibbles(vec![2]), BranchNodeCompact(vec![4])))
    );
    assert_eq!(tables.storage(&B256([9; 32])).len(), 0);
}
