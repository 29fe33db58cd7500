//! Flushing a delta: the writes that apply it to the two durable trie tables,
//! in key order, and what those writes do to the tables.

use crate::cursor::{overlay, pending};
use crate::nibbles::{BranchNodeCompact, Nibbles, B256};
use crate::updates::{
    all_valid, lemma_map_of_drop_last, map_of, strictly_sorted, valid_op, TrieKey, TrieKeyView,
    TrieOp, TrieOpView, TrieUpdates,
};
use vstd::prelude::*;

verus! {

/// One write to the durable trie tables.
#[derive(Debug, PartialEq, Eq)]
pub enum TrieTableOp {
    /// Remove the account-trie entry at the path, if there is one.
    DeleteAccountNode(Nibbles),
    /// Insert or replace the account-trie entry at the path.
    UpsertAccountNode(Nibbles, BranchNodeCompact),
    /// Remove the storage-trie entry of the account at the path, if there is one.
    DeleteStorageNode(B256, Nibbles),
    /// Insert or replace the storage-trie entry of the account at the path.
    UpsertStorageNode(B256, Nibbles, BranchNodeCompact),
    /// Remove every storage-trie entry of the account.
    DeleteStorageTrie(B256),
}

/// The mathematical value of a [`TrieTableOp`].
pub enum TrieTableOpView {
    DeleteAccountNode(Seq<u8>),
    UpsertAccountNode(Seq<u8>, Seq<u8>),
    DeleteStorageNode(Seq<u8>, Seq<u8>),
    UpsertStorageNode(Seq<u8>, Seq<u8>, Seq<u8>),
    DeleteStorageTrie(Seq<u8>),
}

impl View for TrieTableOp {
    type V = TrieTableOpView;

    open spec fn view(&self) -> TrieTableOpView {
        match self {
            TrieTableOp::DeleteAccountNode(p) => TrieTableOpView::DeleteAccountNode(p@),
            TrieTableOp::UpsertAccountNode(p, n) => TrieTableOpView::UpsertAccountNode(p@, n@),
            TrieTableOp::DeleteStorageNode(a, p) => TrieTableOpView::DeleteStorageNode(a@, p@),
            TrieTableOp::UpsertStorageNode(a, p, n) => TrieTableOpView::UpsertStorageNode(
                a@,
                p@,
                n@,
            ),
            TrieTableOp::DeleteStorageTrie(a) => TrieTableOpView::DeleteStorageTrie(a@),
        }
    }
}

pub open spec fn ops_view(s: Seq<TrieTableOp>) -> Seq<TrieTableOpView> {
    s.map_values(|o: TrieTableOp| o@)
}

/// The writes that flush one pending operation. The root path is never
/// stored, so an update at the root writes nothing, and a storage node at the
/// root is left alone. An existing storage node is removed before its new
/// node is written.
pub open spec fn entry_writes(k: TrieKeyView, op: TrieOpView) -> Seq<TrieTableOpView> {
    match k {
        TrieKeyView::AccountNode(p) => match op {
            TrieOpView::Delete => seq![TrieTableOpView::DeleteAccountNode(p)],
            TrieOpView::Update(n) => if p.len() == 0 {
                Seq::empty()
            } else {
                seq![TrieTableOpView::UpsertAccountNode(p, n)]
            },
        },
        TrieKeyView::StorageTrie(a) => match op {
            TrieOpView::Delete => seq![TrieTableOpView::DeleteStorageTrie(a)],
            TrieOpView::Update(_) => Seq::empty(),
        },
        TrieKeyView::StorageNode(a, p) => if p.len() == 0 {
            Seq::empty()
        } else {
            match op {
                TrieOpView::Delete => seq![TrieTableOpView::DeleteStorageNode(a, p)],
                TrieOpView::Update(n) => seq![
                    TrieTableOpView::DeleteStorageNode(a, p),
                    TrieTableOpView::UpsertStorageNode(a, p, n)
                ],
            }
        },
    }
}

/// The writes that flush the sorted operations `s`, one operation after the
/// other.
pub open spec fn flush_writes(s: Seq<(TrieKeyView, TrieOpView)>) -> Seq<TrieTableOpView>
    decreases s.len(),
{
    if s.len() == 0 {
        Seq::empty()
    } else {
        flush_writes(s.drop_last()) + entry_writes(s.last().0, s.last().1)
    }
}

/// The two durable trie tables: the account trie by path, and the storage
/// tries by hashed account and path.
pub struct TrieTablesView {
    pub accounts: Map<Seq<u8>, Seq<u8>>,
    pub storages: Map<(Seq<u8>, Seq<u8>), Seq<u8>>,
}

pub open spec fn apply_write(t: TrieTablesView, op: TrieTableOpView) -> TrieTablesView {
    match op {
        TrieTableOpView::DeleteAccountNode(p) => TrieTablesView {
            accounts: t.accounts.remove(p),
            storages: t.storages,
        },
        TrieTableOpView::UpsertAccountNode(p, n) => TrieTablesView {
            accounts: t.accounts.insert(p, n),
            storages: t.storages,
        },
        TrieTableOpView::DeleteStorageNode(a, p) => TrieTablesView {
            accounts: t.accounts,
            storages: t.storages.remove((a, p)),
        },
        TrieTableOpView::UpsertStorageNode(a, p, n) => TrieTablesView {
            accounts: t.accounts,
            storages: t.storages.insert((a, p), n),
        },
        TrieTableOpView::DeleteStorageTrie(a) => TrieTablesView {
            accounts: t.accounts,
            storages: Map::new(
                |k: (Seq<u8>, Seq<u8>)| t.storages.contains_key(k) && k.0 != a,
                |k: (Seq<u8>, Seq<u8>)| t.storages[k],
            ),
        },
    }
}

/// The tables after the writes `ops`, one after the other.
pub open spec fn apply_writes(t: TrieTablesView, ops: Seq<TrieTableOpView>) -> TrieTablesView
    decreases ops.len(),
{
    if ops.len() == 0 {
        t
    } else {
        apply_write(apply_writes(t, ops.drop_last()), ops.last())
    }
}

/// What the last of `ops` that touches account path `p` leaves there:
/// nothing touches it (`None`), it is removed (`Some(None)`), or it holds a
/// node.
pub open spec fn account_effect(ops: Seq<TrieTableOpView>, p: Seq<u8>) -> Option<Option<Seq<u8>>>
    decreases ops.len(),
{
    if ops.len() == 0 {
        None
    } else {
        match ops.last() {
            TrieTableOpView::DeleteAccountNode(q) => if q == p {
                Some(None)
            } else {
                account_effect(ops.drop_last(), p)
            },
            TrieTableOpView::UpsertAccountNode(q, n) => if q == p {
                Some(Some(n))
            } else {
                account_effect(ops.drop_last(), p)
            },
            _ => account_effect(ops.drop_last(), p),
        }
    }
}

/// What the last of `ops` that touches storage key `k` leaves there.
pub open spec fn storage_effect(
    ops: Seq<TrieTableOpView>,
    k: (Seq<u8>, Seq<u8>),
) -> Option<Option<Seq<u8>>>
    decreases ops.len(),
{
    if ops.len() == 0 {
        None
    } else {
        match ops.last() {
            TrieTableOpView::DeleteStorageNode(a, p) => if (a, p) == k {
                Some(None)
            } else {
                storage_effect(ops.drop_last(), k)
            },
            TrieTableOpView::UpsertStorageNode(a, p, n) => if (a, p) == k {
                Some(Some(n))
            } else {
                storage_effect(ops.drop_last(), k)
            },
            TrieTableOpView::DeleteStorageTrie(a) => if a == k.0 {
                Some(None)
            } else {
                storage_effect(ops.drop_last(), k)
            },
            _ => storage_effect(ops.drop_last(), k),
        }
    }
}

/// The entry at `k` of `m` after an effect `e` on it.
pub open spec fn after_effect<K>(m: Map<K, Seq<u8>>, k: K, e: Option<Option<Seq<u8>>>) -> Option<
    Seq<u8>,
> {
    match e {
        None => if m.contains_key(k) {
            Some(m[k])
        } else {
            None
        },
        Some(v) => v,
    }
}

pub open spec fn entry_of<K>(m: Map<K, Seq<u8>>, k: K) -> Option<Seq<u8>> {
    if m.contains_key(k) {
        Some(m[k])
    } else {
        None
    }
}

/// Each entry of the tables after `ops` is decided by the last write that
/// touches it, or else is the entry from before.
pub proof fn lemma_apply_writes_pointwise(t: TrieTablesView, ops: Seq<TrieTableOpView>)
    ensures
        forall|p: Seq<u8>| #[trigger]
            entry_of(apply_writes(t, ops).accounts, p) == after_effect(
                t.accounts,
                p,
                account_effect(ops, p),
            ),
        forall|k: (Seq<u8>, Seq<u8>)| #[trigger]
            entry_of(apply_writes(t, ops).storages, k) == after_effect(
                t.storages,
                k,
                storage_effect(ops, k),
            ),
    decreases ops.len(),
{
    if ops.len() > 0 {
        let prev = apply_writes(t, ops.drop_last());
        let now = apply_writes(t, ops);
        lemma_apply_writes_pointwise(t, ops.drop_last());
        assert forall|p: Seq<u8>| #[trigger]
            entry_of(now.accounts, p) == after_effect(t.accounts, p, account_effect(ops, p)) by {
            assert(entry_of(prev.accounts, p) == after_effect(
                t.accounts,
                p,
                account_effect(ops.drop_last(), p),
            ));
        }
        assert forall|k: (Seq<u8>, Seq<u8>)| #[trigger]
            entry_of(now.storages, k) == after_effect(t.storages, k, storage_effect(ops, k)) by {
            assert(entry_of(prev.storages, k) == after_effect(
                t.storages,
                k,
                storage_effect(ops.drop_last(), k),
            ));
        }
    }
}

/// Flushing the same writes twice leaves the tables as flushing them once:
/// a deletion of an absent entry changes nothing, and a second write of a
/// node writes the same node.
pub proof fn lemma_flush_idempotent(t: TrieTablesView, ops: Seq<TrieTableOpView>)
    ensures
        apply_writes(apply_writes(t, ops), ops) == apply_writes(t, ops),
{
    let once = apply_writes(t, ops);
    let twice = apply_writes(once, ops);
    lemma_apply_writes_pointwise(t, ops);
    lemma_apply_writes_pointwise(once, ops);
    assert forall|p: Seq<u8>| #[trigger] twice.accounts.contains_key(p) == once.accounts.contains_key(p)
        && (twice.accounts.contains_key(p) ==> twice.accounts[p] == once.accounts[p]) by {
        assert(entry_of(twice.accounts, p) == entry_of(once.accounts, p));
    }
    assert forall|k: (Seq<u8>, Seq<u8>)| #[trigger] twice.storages.contains_key(k)
        == once.storages.contains_key(k) && (twice.storages.contains_key(k)
        ==> twice.storages[k] == once.storages[k]) by {
        assert(entry_of(twice.storages, k) == entry_of(once.storages, k));
    }
    assert(twice.accounts =~= once.accounts);
    assert(twice.storages =~= once.storages);
}

proof fn lemma_account_effect_append(a: Seq<TrieTableOpView>, b: Seq<TrieTableOpView>, p: Seq<u8>)
    ensures
        account_effect(a + b, p) == if account_effect(b, p) is Some {
            account_effect(b, p)
        } else {
            account_effect(a, p)
        },
    decreases b.len(),
{
    if b.len() == 0 {
        assert(a + b =~= a);
    } else {
        assert((a + b).drop_last() =~= a + b.drop_last());
        lemma_account_effect_append(a, b.drop_last(), p);
    }
}

proof fn lemma_storage_effect_append(
    a: Seq<TrieTableOpView>,
    b: Seq<TrieTableOpView>,
    k: (Seq<u8>, Seq<u8>),
)
    ensures
        storage_effect(a + b, k) == if storage_effect(b, k) is Some {
            storage_effect(b, k)
        } else {
            storage_effect(a, k)
        },
    decreases b.len(),
{
    if b.len() == 0 {
        assert(a + b =~= a);
    } else {
        assert((a + b).drop_last() =~= a + b.drop_last());
        lemma_storage_effect_append(a, b.drop_last(), k);
    }
}

/// What a pending operation leaves at its entry once flushed.
pub open spec fn op_effect(m: Map<TrieKeyView, TrieOpView>, k: TrieKeyView) -> Option<Option<Seq<u8>>> {
    if m.contains_key(k) {
        match m[k] {
            TrieOpView::Delete => Some(None),
            TrieOpView::Update(n) => Some(Some(n)),
        }
    } else {
        None
    }
}

/// The effect of one operation's writes on an account path and a storage
/// entry, neither at the root.
proof fn lemma_entry_effects(k: TrieKeyView, op: TrieOpView, a: Seq<u8>, p: Seq<u8>)
    requires
        p.len() > 0,
    ensures
        account_effect(entry_writes(k, op), p) == if k == TrieKeyView::AccountNode(p) {
            op_effect(map![k => op], k)
        } else {
            None
        },
        k != TrieKeyView::StorageTrie(a) ==> storage_effect(entry_writes(k, op), (a, p)) == if k
            == TrieKeyView::StorageNode(a, p) {
            op_effect(map![k => op], k)
        } else {
            None
        },
{
    let w = entry_writes(k, op);
    let e = Seq::<TrieTableOpView>::empty();
    assert(account_effect(e, p) == None::<Option<Seq<u8>>>);
    assert(storage_effect(e, (a, p)) == None::<Option<Seq<u8>>>);
    assert(map![k => op].contains_key(k));
    if w.len() == 1 {
        assert(w.drop_last() =~= e);
    } else if w.len() == 2 {
        let w1 = w.drop_last();
        assert(w1 =~= seq![w[0]]);
        assert(w1.drop_last() =~= e);
        assert(account_effect(w1, p) == None::<Option<Seq<u8>>>);
        if k != TrieKeyView::StorageNode(a, p) {
            assert(storage_effect(w1, (a, p)) == None::<Option<Seq<u8>>>);
        }
    }
}

proof fn lemma_flush_effects(s: Seq<(TrieKeyView, TrieOpView)>, a: Seq<u8>, p: Seq<u8>)
    requires
        strictly_sorted(s),
        p.len() > 0,
    ensures
        account_effect(flush_writes(s), p) == op_effect(map_of(s), TrieKeyView::AccountNode(p)),
        !map_of(s).contains_key(TrieKeyView::StorageTrie(a)) ==> storage_effect(flush_writes(s), (a, p))
            == op_effect(map_of(s), TrieKeyView::StorageNode(a, p)),
    decreases s.len(),
{
    if s.len() == 0 {
        assert(map_of(s) =~= Map::empty());
    } else {
        let t = s.drop_last();
        let (k, op) = s.last();
        let w = entry_writes(k, op);
        lemma_map_of_drop_last(s);
        lemma_flush_effects(t, a, p);
        lemma_account_effect_append(flush_writes(t), w, p);
        lemma_storage_effect_append(flush_writes(t), w, (a, p));
        lemma_entry_effects(k, op, a, p);
        assert(flush_writes(s) == flush_writes(t) + w);
        if !map_of(s).contains_key(TrieKeyView::StorageTrie(a)) {
            assert(!map_of(t).contains_key(TrieKeyView::StorageTrie(a)));
            assert(k != TrieKeyView::StorageTrie(a));
        }
    }
}

/// Reading through a pending delta shows what the tables hold once the delta
/// is flushed: at every account path but the root, which is never stored,
/// and at every storage path but the root of an account whose whole storage
/// trie is not being deleted.
pub proof fn lemma_overlay_matches_flush(
    t: TrieTablesView,
    u: Seq<(TrieKeyView, TrieOpView)>,
    a: Seq<u8>,
    p: Seq<u8>,
)
    requires
        strictly_sorted(u),
        p.len() > 0,
    ensures
        entry_of(overlay(pending(u, None), t.accounts), p) == entry_of(
            apply_writes(t, flush_writes(u)).accounts,
            p,
        ),
        !map_of(u).contains_key(TrieKeyView::StorageTrie(a)) ==> entry_of(
            overlay(pending(u, Some(a)), storage_trie(t.storages, a)),
            p,
        ) == entry_of(apply_writes(t, flush_writes(u)).storages, (a, p)),
{
    lemma_flush_effects(u, a, p);
    lemma_apply_writes_pointwise(t, flush_writes(u));
    assert(entry_of(apply_writes(t, flush_writes(u)).accounts, p) == after_effect(
        t.accounts,
        p,
        account_effect(flush_writes(u), p),
    ));
    assert(entry_of(apply_writes(t, flush_writes(u)).storages, (a, p)) == after_effect(
        t.storages,
        (a, p),
        storage_effect(flush_writes(u), (a, p)),
    ));
}

/// The storage trie of `account` in the storage table.
pub open spec fn storage_trie(storages: Map<(Seq<u8>, Seq<u8>), Seq<u8>>, account: Seq<u8>) -> Map<
    Seq<u8>,
    Seq<u8>,
> {
    Map::new(|p: Seq<u8>| storages.contains_key((account, p)), |p: Seq<u8>| storages[(account, p)])
}

fn push_write(out: &mut Vec<TrieTableOp>, op: TrieTableOp)
    ensures
        ops_view(final(out)@) == ops_view(old(out)@).push(op@),
{
    let ghost before = out@;
    out.push(op);
    assert(ops_view(out@) =~= ops_view(before).push(op@));
}

impl TrieUpdates {
    /// The writes that flush the delta to the durable trie tables, in key
    /// order; an empty delta writes nothing.
    pub fn flush(self) -> (r: Vec<TrieTableOp>)
        ensures
            ops_view(r@) == flush_writes(self.entries()),
    {
        self.writes()
    }

    /// The writes that [`Self::flush`] makes, leaving the delta in place.
    pub fn writes(&self) -> (r: Vec<TrieTableOp>)
        ensures
            ops_view(r@) == flush_writes(self.entries()),
    {
        proof {
            use_type_invariant(self);
        }
        let ghost ev = self.entries();
        let mut out: Vec<TrieTableOp> = Vec::new();
        let mut i: usize = 0;
        while i < self.len()
            invariant
                i <= ev.len(),
                ev == self.entries(),
                all_valid(ev),
                ops_view(out@) == flush_writes(ev.take(i as int)),
            decreases ev.len() - i,
        {
            let ghost before = ops_view(out@);
            assert(ev.take(i as int + 1).drop_last() =~= ev.take(i as int));
            assert(valid_op(ev[i as int].0, ev[i as int].1));
            match self.entry(i) {
                (TrieKey::AccountNode(p), TrieOp::Delete) => {
                    push_write(&mut out, TrieTableOp::DeleteAccountNode(p.clone()));
                },
                (TrieKey::AccountNode(p), TrieOp::Update(n)) => {
                    if !p.is_empty() {
                        push_write(&mut out, TrieTableOp::UpsertAccountNode(p.clone(), n.clone()));
                    }
                },
                (TrieKey::StorageTrie(a), _) => {
                    push_write(&mut out, TrieTableOp::DeleteStorageTrie(*a));
                },
                (TrieKey::StorageNode(a, p), op) => {
                    if !p.is_empty() {
                        push_write(&mut out, TrieTableOp::DeleteStorageNode(*a, p.clone()));
                        if let TrieOp::Update(n) = op {
                            push_write(
                                &mut out,
                                TrieTableOp::UpsertStorageNode(*a, p.clone(), n.clone()),
                            );
                        }
                    }
                },
            }
            assert(ops_view(out@) =~= before + entry_writes(ev[i as int].0, ev[i as int].1));
            i = i + 1;
        }
        assert(ev.take(ev.len() as int) =~= ev);
        out
    }
}

} // verus!
