//! Overlay cursors: ordered reads of a durable trie table with a pending
//! delta laid over it. For any path that the delta holds, the delta decides:
//! an update shadows the durable node, a deletion hides it.

use crate::nibbles::{
    cmp_bytes, lemma_seq_lt_asymmetric, lemma_seq_lt_irreflexive, lemma_seq_lt_total,
    lemma_seq_lt_transitive, lemma_seq_successor, seq_le, seq_lt, BranchNodeCompact, Nibbles, B256,
};
use crate::table::{
    exact_in, first_at_or_after, found_view, DatabaseError, MemoryTrieCursor, TrieCursor, TrieTable,
};
use crate::updates::{
    key_lt, lemma_key_lt_transitive, lemma_map_of_sorted, map_of,
    strictly_sorted, TrieKey, TrieKeyView, TrieOp, TrieOpView, TrieUpdatesSorted,
};
use std::cmp::Ordering;
use vstd::prelude::*;

verus! {

/// The key of the node at `path`: in the account trie when no account is
/// given, else in that account's storage trie.
pub open spec fn scoped_key(account: Option<Seq<u8>>, path: Seq<u8>) -> TrieKeyView {
    match account {
        Some(a) => TrieKeyView::StorageNode(a, path),
        None => TrieKeyView::AccountNode(path),
    }
}

/// Whether `k` is a node key of the trie that `account` names.
pub open spec fn in_scope(k: TrieKeyView, account: Option<Seq<u8>>) -> bool {
    match (k, account) {
        (TrieKeyView::AccountNode(_), None) => true,
        (TrieKeyView::StorageNode(a, _), Some(b)) => a == b,
        _ => false,
    }
}

pub open spec fn path_of(k: TrieKeyView) -> Seq<u8> {
    match k {
        TrieKeyView::AccountNode(p) => p,
        TrieKeyView::StorageNode(_, p) => p,
        TrieKeyView::StorageTrie(_) => Seq::empty(),
    }
}

/// The pending operations of the delta `s` on the trie that `account` names,
/// by path.
pub open spec fn pending(
    s: Seq<(TrieKeyView, TrieOpView)>,
    account: Option<Seq<u8>>,
) -> Map<Seq<u8>, TrieOpView> {
    Map::new(
        |p: Seq<u8>| map_of(s).contains_key(scoped_key(account, p)),
        |p: Seq<u8>| map_of(s)[scoped_key(account, p)],
    )
}

/// The durable table `durable` as seen through the pending operations
/// `pending`: a pending update replaces the durable node, a pending deletion
/// removes it, a path with nothing pending keeps its durable node.
pub open spec fn overlay(
    pending: Map<Seq<u8>, TrieOpView>,
    durable: Map<Seq<u8>, Seq<u8>>,
) -> Map<Seq<u8>, Seq<u8>> {
    Map::new(
        |p: Seq<u8>|
            if pending.contains_key(p) {
                pending[p] is Update
            } else {
                durable.contains_key(p)
            },
        |p: Seq<u8>|
            match (pending.contains_key(p), pending[p]) {
                (true, TrieOpView::Update(n)) => n,
                _ => durable[p],
            },
    )
}

proof fn lemma_scoped_order(account: Option<Seq<u8>>, p: Seq<u8>, q: Seq<u8>)
    ensures
        key_lt(scoped_key(account, p), scoped_key(account, q)) == seq_lt(p, q),
{
    if let Some(a) = account {
        lemma_seq_lt_irreflexive(a);
    }
}

/// What the lower bound of `scoped_key(account, target)` in a sorted delta
/// tells: every pending path at or after `target` is at or after the path at
/// that position, which is then in scope.
proof fn lemma_pending_from(
    s: Seq<(TrieKeyView, TrieOpView)>,
    account: Option<Seq<u8>>,
    target: Seq<u8>,
    i: int,
)
    requires
        strictly_sorted(s),
        0 <= i <= s.len(),
        forall|j: int| 0 <= j < i ==> key_lt(#[trigger] s[j].0, scoped_key(account, target)),
        forall|j: int| i <= j < s.len() ==> !key_lt(#[trigger] s[j].0, scoped_key(account, target)),
    ensures
        i < s.len() && in_scope(s[i].0, account) ==> {
            &&& s[i].0 == scoped_key(account, path_of(s[i].0))
            &&& seq_le(target, path_of(s[i].0))
            &&& pending(s, account).contains_key(path_of(s[i].0))
            &&& pending(s, account)[path_of(s[i].0)] == s[i].1
        },
        forall|q: Seq<u8>| #[trigger]
            pending(s, account).contains_key(q) && seq_le(target, q) ==> i < s.len() && in_scope(
                s[i].0,
                account,
            ) && seq_le(path_of(s[i].0), q),
{
    lemma_map_of_sorted(s);
    if i < s.len() && in_scope(s[i].0, account) {
        let p = path_of(s[i].0);
        lemma_scoped_order(account, p, target);
        if p != target {
            lemma_seq_lt_total(p, target);
        }
    }
    assert forall|q: Seq<u8>| #[trigger]
        pending(s, account).contains_key(q) && seq_le(target, q) implies i < s.len() && in_scope(
        s[i].0,
        account,
    ) && seq_le(path_of(s[i].0), q) by {
        let k = scoped_key(account, q);
        let j = choose|j: int| 0 <= j < s.len() && s[j].0 == k;
        lemma_scoped_order(account, q, target);
        if j < i {
            lemma_seq_lt_asymmetric(q, target);
        }
        if j > i {
            assert(key_lt(s[i].0, s[j].0));
            if let Some(a) = account {
                if let TrieKeyView::StorageNode(b, r) = s[i].0 {
                    if b != a {
                        lemma_seq_lt_total(a, b);
                        if seq_lt(b, a) {
                            lemma_seq_lt_asymmetric(b, a);
                        }
                        lemma_seq_lt_asymmetric(a, b);
                    }
                }
            }
            if in_scope(s[i].0, account) {
                lemma_scoped_order(account, path_of(s[i].0), q);
            }
        }
    }
}

/// Looks up `key` in the trie that `account` names, with the delta over the
/// durable cursor.
fn overlay_seek_exact<C: TrieCursor>(
    cursor: &mut C,
    trie_updates: &TrieUpdatesSorted,
    account: Option<B256>,
    key: Nibbles,
) -> (r: Result<Option<(Nibbles, BranchNodeCompact)>, DatabaseError>)
    requires
        trie_updates.wf(),
    ensures
        final(cursor).entries() == old(cursor).entries(),
        r matches Ok(o) ==> found_view(o) == exact_in(
            overlay(
                pending(trie_updates@, account_view(account)),
                old(cursor).entries(),
            ),
            key@,
        ),
        pending(trie_updates@, account_view(account)).contains_key(key@) ==> r is Ok,
        final(cursor).never_fails() == old(cursor).never_fails(),
        old(cursor).never_fails() ==> r is Ok,
{
    let ghost acc = account_view(account);
    let ghost m = overlay(pending(trie_updates@, acc), cursor.entries());
    let found = match account {
        Some(a) => trie_updates.find_storage_node(&a, &key),
        None => trie_updates.find_account_node(&key),
    };
    match found {
        Some((_, TrieOp::Update(node))) => {
            assert(m.contains_key(key@));
            Ok(Some((key, node)))
        },
        Some((_, TrieOp::Delete)) => {
            assert(!m.contains_key(key@));
            Ok(None)
        },
        None => {
            assert(!pending(trie_updates@, acc).contains_key(key@));
            cursor.seek_exact(key)
        },
    }
}

pub open spec fn account_view(account: Option<B256>) -> Option<Seq<u8>> {
    match account {
        Some(a) => Some(a@),
        None => None,
    }
}

/// The first entry at or after `key` in the trie that `account` names, with
/// the delta over the durable cursor: the two ordered sources are merged, the
/// delta winning on equal paths, and deleted paths are stepped over.
fn overlay_seek<C: TrieCursor>(
    cursor: &mut C,
    trie_updates: &TrieUpdatesSorted,
    account: Option<B256>,
    key: Nibbles,
) -> (r: Result<Option<(Nibbles, BranchNodeCompact)>, DatabaseError>)
    requires
        trie_updates.wf(),
    ensures
        final(cursor).entries() == old(cursor).entries(),
        final(cursor).never_fails() == old(cursor).never_fails(),
        old(cursor).never_fails() ==> r is Ok,
        r matches Ok(o) ==> first_at_or_after(
            overlay(
                pending(trie_updates@, account_view(account)),
                old(cursor).entries(),
            ),
            key@,
            found_view(o),
        ),
{
    let ghost s = trie_updates@;
    let ghost acc = account_view(account);
    let ghost pend = pending(s, acc);
    let ghost durable = cursor.entries();
    let ghost m = overlay(pend, durable);
    let mut target = key.clone();
    let mut i = match account {
        Some(a) => trie_updates.lower_bound(&TrieKey::StorageNode(a, target.clone())),
        None => trie_updates.lower_bound(&TrieKey::AccountNode(target.clone())),
    };
    loop
        invariant
            trie_updates.wf(),
            s == trie_updates@,
            acc == account_view(account),
            pend == pending(s, acc),
            m == overlay(pend, durable),
            cursor.entries() == durable,
            durable == old(cursor).entries(),
            cursor.never_fails() == old(cursor).never_fails(),
            0 <= i <= s.len(),
            forall|j: int| 0 <= j < i ==> key_lt(#[trigger] s[j].0, scoped_key(acc, target@)),
            forall|j: int| i <= j < s.len() ==> !key_lt(#[trigger] s[j].0, scoped_key(acc, target@)),
            seq_le(key@, target@),
            forall|q: Seq<u8>| #[trigger] m.contains_key(q) && seq_le(key@, q) ==> seq_le(target@, q),
        decreases s.len() - i,
    {
        proof {
            lemma_pending_from(s, acc, target@, i as int);
        }
        let durable_entry = match cursor.seek(target.clone()) {
            Ok(d) => d,
            Err(e) => return Err(e),
        };
        // the pending candidate: the entry at `i`, if it is a node of this trie
        let mut candidate: Option<&Nibbles> = None;
        if i < trie_updates.len() {
            let entry = trie_updates.get(i);
            candidate = match account {
                Some(a) => match entry.0.as_storage_node_key() {
                    Some((b, p)) => if a.same_as(b) {
                        Some(p)
                    } else {
                        None
                    },
                    None => None,
                },
                None => entry.0.as_account_node_key(),
            };
        }
        assert(candidate is Some <==> (i < s.len() && in_scope(s[i as int].0, acc)));
        assert(candidate matches Some(p) ==> p@ == path_of(s[i as int].0));
        match candidate {
            None => {
                proof {
                    match found_view(durable_entry) {
                        Some((d, n)) => {
                            assert(!pend.contains_key(d));
                            assert(m.contains_key(d));
                            lemma_le_trans(key@, target@, d);
                            assert forall|q: Seq<u8>| #[trigger]
                                m.contains_key(q) && seq_le(key@, q) implies seq_le(d, q) by {
                                assert(durable.contains_key(q));
                            }
                        },
                        None => {
                            assert forall|q: Seq<u8>| #[trigger] m.contains_key(q) implies !seq_le(
                                key@,
                                q,
                            ) by {
                                if seq_le(key@, q) {
                                    assert(durable.contains_key(q));
                                }
                            }
                        },
                    }
                }
                return Ok(durable_entry);
            },
            Some(p) => {
                let durable_first = match &durable_entry {
                    Some((d, _)) => matches!(cmp_bytes(d.as_slice(), p.as_slice()), Ordering::Less),
                    None => false,
                };
                if durable_first {
                    proof {
                        let d = found_view(durable_entry)->Some_0.0;
                        assert(seq_lt(d, p@));
                        lemma_seq_lt_asymmetric(d, p@);
                        assert(!pend.contains_key(d));
                        assert(m.contains_key(d));
                        lemma_le_trans(key@, target@, d);
                        assert forall|q: Seq<u8>| #[trigger]
                            m.contains_key(q) && seq_le(key@, q) implies seq_le(d, q) by {
                            if pend.contains_key(q) {
                                lemma_lt_le_trans(d, p@, q);
                            } else {
                                assert(durable.contains_key(q));
                            }
                        }
                    }
                    return Ok(durable_entry);
                }
                proof {
                    // no durable path lies at or after the target and before `p`
                    assert forall|q: Seq<u8>| #[trigger]
                        durable.contains_key(q) && seq_le(target@, q) implies seq_le(p@, q) by {
                        let d = found_view(durable_entry)->Some_0.0;
                        if d != p@ {
                            lemma_seq_lt_total(d, p@);
                        }
                        lemma_le_trans(p@, d, q);
                    }
                }
                let op = &trie_updates.get(i).1;
                match op {
                    TrieOp::Update(node) => {
                        proof {
                            assert(m.contains_key(p@));
                            lemma_le_trans(key@, target@, p@);
                        }
                        return Ok(Some((p.clone(), node.clone())));
                    },
                    TrieOp::Delete => {
                        let next = p.successor();
                        proof {
                            lemma_seq_successor(p@, p@);
                            lemma_le_trans(key@, target@, p@);
                            lemma_le_trans(key@, p@, next@);
                            assert forall|q: Seq<u8>| #[trigger]
                                m.contains_key(q) && seq_le(key@, q) implies seq_le(next@, q) by {
                                lemma_seq_successor(p@, q);
                                if q == p@ {
                                    assert(pend.contains_key(q));
                                } else if !seq_lt(p@, q) {
                                    lemma_seq_lt_total(p@, q);
                                    if pend.contains_key(q) {
                                        lemma_seq_lt_asymmetric(q, p@);
                                    } else {
                                        lemma_seq_lt_asymmetric(q, p@);
                                    }
                                }
                            }
                            let ii = i as int;
                            assert forall|j: int| 0 <= j < ii + 1 implies key_lt(
                                #[trigger] s[j].0,
                                scoped_key(acc, next@),
                            ) by {
                                lemma_scoped_order(acc, p@, next@);
                                if j < ii {
                                    assert(key_lt(s[j].0, s[ii].0));
                                    lemma_key_lt_transitive(s[j].0, s[ii].0, scoped_key(acc, next@));
                                }
                            }
                            assert forall|j: int| ii + 1 <= j < s.len() implies !key_lt(
                                #[trigger] s[j].0,
                                scoped_key(acc, next@),
                            ) by {
                                assert(key_lt(s[ii].0, s[j].0));
                                lemma_scoped_between(acc, p@, s[j].0);
                            }
                        }
                        target = next;
                        i = i + 1;
                    },
                }
            },
        }
    }
}

proof fn lemma_le_trans(a: Seq<u8>, b: Seq<u8>, c: Seq<u8>)
    requires
        seq_le(a, b),
        seq_le(b, c),
    ensures
        seq_le(a, c),
{
    if a != b && b != c {
        lemma_seq_lt_transitive(a, b, c);
    }
}

proof fn lemma_lt_le_trans(a: Seq<u8>, b: Seq<u8>, c: Seq<u8>)
    requires
        seq_lt(a, b),
        seq_le(b, c),
    ensures
        seq_lt(a, c),
{
    if b != c {
        lemma_seq_lt_transitive(a, b, c);
    }
}

/// No key lies strictly between `scoped_key(account, p)` and the key of
/// its successor path.
proof fn lemma_scoped_between(account: Option<Seq<u8>>, p: Seq<u8>, k: TrieKeyView)
    requires
        key_lt(scoped_key(account, p), k),
    ensures
        !key_lt(k, scoped_key(account, p.push(0))),
{
    lemma_seq_successor(p, path_of(k));
    match account {
        Some(a) => {
            if let TrieKeyView::StorageNode(b, r) = k {
                if b != a {
                    if seq_lt(a, b) {
                        lemma_seq_lt_asymmetric(a, b);
                    }
                } else {
                    lemma_seq_lt_irreflexive(a);
                    lemma_seq_lt_irreflexive(r);
                    if seq_lt(r, p.push(0)) {
                        lemma_seq_lt_asymmetric(r, p.push(0));
                    }
                }
            }
        },
        None => {
            if let TrieKeyView::AccountNode(r) = k {
                lemma_seq_lt_irreflexive(r);
                if seq_lt(r, p.push(0)) {
                    lemma_seq_lt_asymmetric(r, p.push(0));
                }
            }
        },
    }
}

/// Reads the account trie: durable entries with the pending delta laid over
/// them, the delta always taking precedence.
pub struct InMemoryAccountTrieCursor<'a, C> {
    cursor: C,
    trie_updates: &'a TrieUpdatesSorted,
    last_key: Option<TrieKey>,
}

impl<'a, C: TrieCursor> InMemoryAccountTrieCursor<'a, C> {
    /// Whether the durable cursor underneath cannot fail.
    pub closed spec fn durable_never_fails(&self) -> bool {
        self.cursor.never_fails()
    }

    /// The pending operations on this cursor's trie, by path.
    pub closed spec fn pending_ops(&self) -> Map<Seq<u8>, TrieOpView> {
        pending(self.trie_updates@, None)
    }

    /// The key of the entry that the last successful lookup found.
    pub closed spec fn last_key(&self) -> Option<TrieKeyView> {
        match self.last_key {
            Some(k) => Some(k@),
            None => None,
        }
    }

    pub fn new(cursor: C, trie_updates: &'a TrieUpdatesSorted) -> (r: Self)
        ensures
            r.entries() == overlay(pending(trie_updates@, None), cursor.entries()),
            r.pending_ops() == pending(trie_updates@, None),
            r.durable_never_fails() == cursor.never_fails(),
            r.last_key() is None,
    {
        InMemoryAccountTrieCursor { cursor, trie_updates, last_key: None }
    }
}

impl<'a, C: TrieCursor> TrieCursor for InMemoryAccountTrieCursor<'a, C> {
    closed spec fn entries(&self) -> Map<Seq<u8>, Seq<u8>> {
        overlay(pending(self.trie_updates@, None), self.cursor.entries())
    }

    open spec fn never_fails(&self) -> bool {
        self.durable_never_fails()
    }

    fn seek_exact(&mut self, key: Nibbles) -> (r: Result<
        Option<(Nibbles, BranchNodeCompact)>,
        DatabaseError,
    >)
        ensures
            old(self).pending_ops().contains_key(key@) ==> r is Ok,
            final(self).pending_ops() == old(self).pending_ops(),
            r matches Ok(Some((p, _))) ==> final(self).last_key() == Some(TrieKeyView::AccountNode(p@)),
    {
        proof {
            use_type_invariant(self.trie_updates);
        }
        let r = overlay_seek_exact(&mut self.cursor, self.trie_updates, None, key);
        if let Ok(found) = &r {
            self.last_key = match found {
                Some((p, _)) => Some(TrieKey::AccountNode(p.clone())),
                None => None,
            };
        }
        r
    }

    fn seek(&mut self, key: Nibbles) -> (r: Result<Option<(Nibbles, BranchNodeCompact)>, DatabaseError>)
        ensures
            final(self).pending_ops() == old(self).pending_ops(),
            r matches Ok(Some((p, _))) ==> final(self).last_key() == Some(TrieKeyView::AccountNode(p@)),
    {
        proof {
            use_type_invariant(self.trie_updates);
        }
        let r = overlay_seek(&mut self.cursor, self.trie_updates, None, key);
        if let Ok(found) = &r {
            self.last_key = match found {
                Some((p, _)) => Some(TrieKey::AccountNode(p.clone())),
                None => None,
            };
        }
        r
    }

    fn current(&mut self) -> (r: Result<Option<TrieKey>, DatabaseError>)
        ensures
            old(self).last_key() matches Some(k) ==> (r matches Ok(Some(x)) && x@ == k),
    {
        match &self.last_key {
            Some(k) => Ok(Some(k.clone())),
            None => self.cursor.current(),
        }
    }
}

/// Reads the storage trie of one hashed account: durable entries with the
/// account's pending storage nodes laid over them, the delta always taking
/// precedence.
pub struct InMemoryStorageTrieCursor<'a, C> {
    cursor: C,
    trie_updates: &'a TrieUpdatesSorted,
    hashed_address: B256,
    last_key: Option<TrieKey>,
}

impl<'a, C: TrieCursor> InMemoryStorageTrieCursor<'a, C> {
    /// Whether the durable cursor underneath cannot fail.
    pub closed spec fn durable_never_fails(&self) -> bool {
        self.cursor.never_fails()
    }

    /// The hashed account whose storage trie the cursor reads.
    pub closed spec fn account(&self) -> Seq<u8> {
        self.hashed_address@
    }

    /// The pending operations on this cursor's trie, by path.
    pub closed spec fn pending_ops(&self) -> Map<Seq<u8>, TrieOpView> {
        pending(self.trie_updates@, Some(self.hashed_address@))
    }

    /// The key of the entry that the last successful lookup found.
    pub closed spec fn last_key(&self) -> Option<TrieKeyView> {
        match self.last_key {
            Some(k) => Some(k@),
            None => None,
        }
    }

    pub fn new(cursor: C, hashed_address: B256, trie_updates: &'a TrieUpdatesSorted) -> (r: Self)
        ensures
            r.entries() == overlay(
                pending(trie_updates@, Some(hashed_address@)),
                cursor.entries(),
            ),
            r.pending_ops() == pending(trie_updates@, Some(hashed_address@)),
            r.account() == hashed_address@,
            r.durable_never_fails() == cursor.never_fails(),
            r.last_key() is None,
    {
        InMemoryStorageTrieCursor { cursor, trie_updates, hashed_address, last_key: None }
    }
}

impl<'a, C: TrieCursor> TrieCursor for InMemoryStorageTrieCursor<'a, C> {
    closed spec fn entries(&self) -> Map<Seq<u8>, Seq<u8>> {
        overlay(pending(self.trie_updates@, Some(self.hashed_address@)), self.cursor.entries())
    }

    open spec fn never_fails(&self) -> bool {
        self.durable_never_fails()
    }

    fn seek_exact(&mut self, key: Nibbles) -> (r: Result<
        Option<(Nibbles, BranchNodeCompact)>,
        DatabaseError,
    >)
        ensures
            old(self).pending_ops().contains_key(key@) ==> r is Ok,
            final(self).pending_ops() == old(self).pending_ops(),
            final(self).account() == old(self).account(),
            r matches Ok(Some((p, _))) ==> final(self).last_key() == Some(TrieKeyView::StorageNode(final(self).account(), p@)),
    {
        proof {
            use_type_invariant(self.trie_updates);
        }
        let r = overlay_seek_exact(&mut self.cursor, self.trie_updates, Some(self.hashed_address), key);
        if let Ok(found) = &r {
            self.last_key = match found {
                Some((p, _)) => Some(TrieKey::StorageNode(self.hashed_address, p.clone())),
                None => None,
            };
        }
        r
    }

    fn seek(&mut self, key: Nibbles) -> (r: Result<Option<(Nibbles, BranchNodeCompact)>, DatabaseError>)
        ensures
            final(self).pending_ops() == old(self).pending_ops(),
            final(self).account() == old(self).account(),
            r matches Ok(Some((p, _))) ==> final(self).last_key() == Some(TrieKeyView::StorageNode(final(self).account(), p@)),
    {
        proof {
            use_type_invariant(self.trie_updates);
        }
        let r = overlay_seek(&mut self.cursor, self.trie_updates, Some(self.hashed_address), key);
        if let Ok(found) = &r {
            self.last_key = match found {
                Some((p, _)) => Some(TrieKey::StorageNode(self.hashed_address, p.clone())),
                None => None,
            };
        }
        r
    }

    fn current(&mut self) -> (r: Result<Option<TrieKey>, DatabaseError>)
        ensures
            old(self).last_key() matches Some(k) ==> (r matches Ok(Some(x)) && x@ == k),
    {
        match &self.last_key {
            Some(k) => Ok(Some(k.clone())),
            None => self.cursor.current(),
        }
    }
}

/// Makes durable cursors over the account trie and the storage tries.
pub trait TrieCursorFactory {
    type AccountTrieCursor: TrieCursor;

    type StorageTrieCursor: TrieCursor;

    /// The entries of the account trie.
    spec fn account_entries(&self) -> Map<Seq<u8>, Seq<u8>>;

    /// The entries of the storage trie of a hashed account.
    spec fn storage_entries(&self, hashed_address: Seq<u8>) -> Map<Seq<u8>, Seq<u8>>;

    /// Whether the factory and the cursors it makes cannot fail.
    spec fn never_fails(&self) -> bool;

    fn account_trie_cursor(&self) -> (r: Result<Self::AccountTrieCursor, DatabaseError>)
        ensures
            r matches Ok(c) ==> c.entries() == self.account_entries(),
            self.never_fails() ==> (r matches Ok(c) && c.never_fails()),
    ;

    fn storage_trie_cursor(&self, hashed_address: B256) -> (r: Result<
        Self::StorageTrieCursor,
        DatabaseError,
    >)
        ensures
            r matches Ok(c) ==> c.entries() == self.storage_entries(hashed_address@),
            self.never_fails() ==> (r matches Ok(c) && c.never_fails()),
    ;
}

/// Makes overlay cursors: those of `cursor_factory` with `trie_updates` laid
/// over them.
pub struct InMemoryTrieCursorFactory<'a, CF> {
    cursor_factory: CF,
    trie_updates: &'a TrieUpdatesSorted,
}

impl<'a, CF: TrieCursorFactory> InMemoryTrieCursorFactory<'a, CF> {
    /// Whether the durable factory underneath cannot fail.
    pub closed spec fn durable_never_fails(&self) -> bool {
        self.cursor_factory.never_fails()
    }

    pub fn new(cursor_factory: CF, trie_updates: &'a TrieUpdatesSorted) -> (r: Self)
        ensures
            forall|a: Seq<u8>| #[trigger]
                r.storage_entries(a) == overlay(
                    pending(trie_updates@, Some(a)),
                    cursor_factory.storage_entries(a),
                ),
            r.account_entries() == overlay(
                pending(trie_updates@, None),
                cursor_factory.account_entries(),
            ),
            r.never_fails() == cursor_factory.never_fails(),
    {
        InMemoryTrieCursorFactory { cursor_factory, trie_updates }
    }
}

impl<'a, CF: TrieCursorFactory> TrieCursorFactory for InMemoryTrieCursorFactory<'a, CF> {
    type AccountTrieCursor = InMemoryAccountTrieCursor<'a, CF::AccountTrieCursor>;

    type StorageTrieCursor = InMemoryStorageTrieCursor<'a, CF::StorageTrieCursor>;

    closed spec fn account_entries(&self) -> Map<Seq<u8>, Seq<u8>> {
        overlay(pending(self.trie_updates@, None), self.cursor_factory.account_entries())
    }

    open spec fn never_fails(&self) -> bool {
        self.durable_never_fails()
    }

    closed spec fn storage_entries(&self, hashed_address: Seq<u8>) -> Map<Seq<u8>, Seq<u8>> {
        overlay(
            pending(self.trie_updates@, Some(hashed_address)),
            self.cursor_factory.storage_entries(hashed_address),
        )
    }

    fn account_trie_cursor(&self) -> (r: Result<Self::AccountTrieCursor, DatabaseError>) {
        proof {
            use_type_invariant(self.trie_updates);
        }
        match self.cursor_factory.account_trie_cursor() {
            Ok(cursor) => Ok(InMemoryAccountTrieCursor::new(cursor, self.trie_updates)),
            Err(e) => Err(e),
        }
    }

    fn storage_trie_cursor(&self, hashed_address: B256) -> (r: Result<
        Self::StorageTrieCursor,
        DatabaseError,
    >) {
        proof {
            use_type_invariant(self.trie_updates);
        }
        match self.cursor_factory.storage_trie_cursor(hashed_address) {
            Ok(cursor) => Ok(
                InMemoryStorageTrieCursor::new(cursor, hashed_address, self.trie_updates),
            ),
            Err(e) => Err(e),
        }
    }
}

/// The storage trie of `account` among `storages`: the first table listed
/// for it, or an empty one.
pub open spec fn storage_of(storages: Seq<(B256, TrieTable)>, account: Seq<u8>) -> Map<
    Seq<u8>,
    Seq<u8>,
>
    decreases storages.len(),
{
    if storages.len() == 0 {
        Map::empty()
    } else if storages[0].0@ == account {
        storages[0].1@
    } else {
        storage_of(storages.skip(1), account)
    }
}

/// Durable cursors over trie tables held in memory: the account trie and
/// the storage tries of some accounts.
pub struct MemoryTrieCursorFactory {
    accounts: TrieTable,
    storages: Vec<(B256, TrieTable)>,
}

impl MemoryTrieCursorFactory {
    #[verifier::type_invariant]
    closed spec fn inv(&self) -> bool {
        &&& self.accounts.wf()
        &&& forall|i: int| 0 <= i < self.storages@.len() ==> (#[trigger] self.storages@[i]).1.wf()
    }

    pub fn new(accounts: TrieTable, storages: Vec<(B256, TrieTable)>) -> (r: Self)
        requires
            accounts.wf(),
            forall|i: int| 0 <= i < storages@.len() ==> (#[trigger] storages@[i]).1.wf(),
        ensures
            r.account_entries() == accounts@,
            forall|a: Seq<u8>| #[trigger] r.storage_entries(a) == storage_of(storages@, a),
    {
        MemoryTrieCursorFactory { accounts, storages }
    }
}

impl TrieCursorFactory for MemoryTrieCursorFactory {
    type AccountTrieCursor = MemoryTrieCursor;

    type StorageTrieCursor = MemoryTrieCursor;

    closed spec fn account_entries(&self) -> Map<Seq<u8>, Seq<u8>> {
        self.accounts@
    }

    open spec fn never_fails(&self) -> bool {
        true
    }

    closed spec fn storage_entries(&self, hashed_address: Seq<u8>) -> Map<Seq<u8>, Seq<u8>> {
        storage_of(self.storages@, hashed_address)
    }

    fn account_trie_cursor(&self) -> (r: Result<Self::AccountTrieCursor, DatabaseError>)
        ensures
            r is Ok,
    {
        proof {
            use_type_invariant(self);
        }
        let table = self.accounts.clone();
        assert(table@ == self.accounts@);
        Ok(MemoryTrieCursor::new(table, None))
    }

    fn storage_trie_cursor(&self, hashed_address: B256) -> (r: Result<
        Self::StorageTrieCursor,
        DatabaseError,
    >)
        ensures
            r is Ok,
    {
        proof {
            use_type_invariant(self);
        }
        let ghost s = self.storages@;
        assert(s.skip(0) =~= s);
        let mut i: usize = 0;
        while i < self.storages.len()
            invariant
                s == self.storages@,
                i <= s.len(),
                forall|j: int| 0 <= j < s.len() ==> (#[trigger] s[j]).1.wf(),
                storage_of(s, hashed_address@) == storage_of(s.skip(i as int), hashed_address@),
            decreases self.storages.len() - i,
        {
            if self.storages[i].0.same_as(&hashed_address) {
                assert(s.skip(i as int)[0] == s[i as int]);
                let table = self.storages[i].1.clone();
                assert(table@ == s[i as int].1@);
                return Ok(MemoryTrieCursor::new(table, Some(hashed_address)));
            }
            assert(s.skip(i as int).skip(1) =~= s.skip(i as int + 1));
            i = i + 1;
        }
        let table = TrieTable::new();
        Ok(MemoryTrieCursor::new(table, Some(hashed_address)))
    }
}

} // verus!
