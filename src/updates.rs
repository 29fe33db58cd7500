//! The trie delta model: keys of trie entities, the operation pending on each,
//! the aggregated delta of a block or batch, and its sorted snapshot.

use crate::nibbles::{
    cmp_bytes, lemma_seq_lt_irreflexive, lemma_seq_lt_total,
    lemma_seq_lt_transitive, seq_lt, BranchNodeCompact, Nibbles, B256,
};
use std::cmp::Ordering;
use vstd::prelude::*;

verus! {

/// The key of a trie entity.
#[derive(Debug, PartialEq, Eq, PartialOrd, Ord, Hash)]
pub enum TrieKey {
    /// A node in the account trie.
    AccountNode(Nibbles),
    /// A node in the storage trie of the given hashed account.
    StorageNode(B256, Nibbles),
    /// The whole storage trie of the given hashed account.
    StorageTrie(B256),
}

/// The mathematical value of a [`TrieKey`].
pub enum TrieKeyView {
    AccountNode(Seq<u8>),
    StorageNode(Seq<u8>, Seq<u8>),
    StorageTrie(Seq<u8>),
}

impl View for TrieKey {
    type V = TrieKeyView;

    open spec fn view(&self) -> TrieKeyView {
        match self {
            TrieKey::AccountNode(p) => TrieKeyView::AccountNode(p@),
            TrieKey::StorageNode(a, p) => TrieKeyView::StorageNode(a@, p@),
            TrieKey::StorageTrie(a) => TrieKeyView::StorageTrie(a@),
        }
    }
}

impl Clone for TrieKey {
    fn clone(&self) -> (r: Self)
        ensures
            r@ == self@,
    {
        match self {
            TrieKey::AccountNode(p) => TrieKey::AccountNode(p.clone()),
            TrieKey::StorageNode(a, p) => TrieKey::StorageNode(*a, p.clone()),
            TrieKey::StorageTrie(a) => TrieKey::StorageTrie(*a),
        }
    }
}

/// The order of trie keys: account nodes, then storage nodes, then whole
/// storage tries; within a kind by hashed account, then by path.
pub open spec fn key_lt(a: TrieKeyView, b: TrieKeyView) -> bool {
    match (a, b) {
        (TrieKeyView::AccountNode(p), TrieKeyView::AccountNode(q)) => seq_lt(p, q),
        (TrieKeyView::AccountNode(_), _) => true,
        (TrieKeyView::StorageNode(x, p), TrieKeyView::StorageNode(y, q)) => seq_lt(x, y) || (x
            == y && seq_lt(p, q)),
        (TrieKeyView::StorageNode(_, _), TrieKeyView::StorageTrie(_)) => true,
        (TrieKeyView::StorageTrie(x), TrieKeyView::StorageTrie(y)) => seq_lt(x, y),
        _ => false,
    }
}

pub proof fn lemma_key_lt_irreflexive(a: TrieKeyView)
    ensures
        !key_lt(a, a),
{
    match a {
        TrieKeyView::AccountNode(p) => lemma_seq_lt_irreflexive(p),
        TrieKeyView::StorageNode(x, p) => {
            lemma_seq_lt_irreflexive(x);
            lemma_seq_lt_irreflexive(p);
        },
        TrieKeyView::StorageTrie(x) => lemma_seq_lt_irreflexive(x),
    }
}

pub proof fn lemma_key_lt_transitive(a: TrieKeyView, b: TrieKeyView, c: TrieKeyView)
    requires
        key_lt(a, b),
        key_lt(b, c),
    ensures
        key_lt(a, c),
{
    match (a, b, c) {
        (TrieKeyView::AccountNode(p), TrieKeyView::AccountNode(q), TrieKeyView::AccountNode(r)) => {
            lemma_seq_lt_transitive(p, q, r);
        },
        (
            TrieKeyView::StorageNode(x, p),
            TrieKeyView::StorageNode(y, q),
            TrieKeyView::StorageNode(z, r),
        ) => {
            if seq_lt(x, y) && seq_lt(y, z) {
                lemma_seq_lt_transitive(x, y, z);
            }
            if x == y && y == z {
                lemma_seq_lt_transitive(p, q, r);
            }
        },
        (TrieKeyView::StorageTrie(x), TrieKeyView::StorageTrie(y), TrieKeyView::StorageTrie(z)) => {
            lemma_seq_lt_transitive(x, y, z);
        },
        _ => {},
    }
}

pub proof fn lemma_key_lt_asymmetric(a: TrieKeyView, b: TrieKeyView)
    requires
        key_lt(a, b),
    ensures
        !key_lt(b, a),
        a != b,
{
    lemma_key_lt_irreflexive(a);
    if key_lt(b, a) {
        lemma_key_lt_transitive(a, b, a);
    }
}

pub proof fn lemma_key_lt_total(a: TrieKeyView, b: TrieKeyView)
    requires
        a != b,
    ensures
        key_lt(a, b) || key_lt(b, a),
{
    match (a, b) {
        (TrieKeyView::AccountNode(p), TrieKeyView::AccountNode(q)) => lemma_seq_lt_total(p, q),
        (TrieKeyView::StorageNode(x, p), TrieKeyView::StorageNode(y, q)) => {
            if x != y {
                lemma_seq_lt_total(x, y);
            } else {
                lemma_seq_lt_total(p, q);
            }
        },
        (TrieKeyView::StorageTrie(x), TrieKeyView::StorageTrie(y)) => lemma_seq_lt_total(x, y),
        _ => {},
    }
}

/// Compares two trie keys in the order of [`key_lt`].
pub fn cmp_keys(a: &TrieKey, b: &TrieKey) -> (r: Ordering)
    ensures
        (r == Ordering::Less) == key_lt(a@, b@),
        (r == Ordering::Equal) == (a@ == b@),
        (r == Ordering::Greater) == key_lt(b@, a@),
{
    proof {
        if a@ != b@ {
            lemma_key_lt_total(a@, b@);
            if key_lt(a@, b@) {
                lemma_key_lt_asymmetric(a@, b@);
            } else {
                lemma_key_lt_asymmetric(b@, a@);
            }
        } else {
            lemma_key_lt_irreflexive(a@);
        }
    }
    match (a, b) {
        (TrieKey::AccountNode(p), TrieKey::AccountNode(q)) => cmp_bytes(p.as_slice(), q.as_slice()),
        (TrieKey::AccountNode(_), _) => Ordering::Less,
        (TrieKey::StorageNode(x, p), TrieKey::StorageNode(y, q)) => {
            match cmp_bytes(x.as_slice(), y.as_slice()) {
                Ordering::Equal => cmp_bytes(p.as_slice(), q.as_slice()),
                o => o,
            }
        },
        (TrieKey::StorageNode(_, _), TrieKey::AccountNode(_)) => Ordering::Greater,
        (TrieKey::StorageNode(_, _), TrieKey::StorageTrie(_)) => Ordering::Less,
        (TrieKey::StorageTrie(x), TrieKey::StorageTrie(y)) => cmp_bytes(x.as_slice(), y.as_slice()),
        (TrieKey::StorageTrie(_), _) => Ordering::Greater,
    }
}

impl TrieKey {
    /// The path of an account node key.
    pub fn as_account_node_key(&self) -> (r: Option<&Nibbles>)
        ensures
            match self@ {
                TrieKeyView::AccountNode(p) => r matches Some(n) && n@ == p,
                _ => r is None,
            },
    {
        if let TrieKey::AccountNode(nibbles) = self {
            Some(nibbles)
        } else {
            None
        }
    }

    /// The hashed account and path of a storage node key.
    pub fn as_storage_node_key(&self) -> (r: Option<(&B256, &Nibbles)>)
        ensures
            match self@ {
                TrieKeyView::StorageNode(a, p) => r matches Some((x, n)) && x@ == a && n@ == p,
                _ => r is None,
            },
    {
        if let TrieKey::StorageNode(key, subkey) = self {
            Some((key, subkey))
        } else {
            None
        }
    }

    /// The hashed account of a storage trie key.
    pub fn as_storage_trie_key(&self) -> (r: Option<&B256>)
        ensures
            match self@ {
                TrieKeyView::StorageTrie(a) => r matches Some(x) && x@ == a,
                _ => r is None,
            },
    {
        if let TrieKey::StorageTrie(key) = self {
            Some(key)
        } else {
            None
        }
    }
}

/// The operation pending on a trie entity.
#[derive(Debug, PartialEq, Eq)]
pub enum TrieOp {
    /// Delete the entry.
    Delete,
    /// Replace the entry with the given node.
    Update(BranchNodeCompact),
}

/// The mathematical value of a [`TrieOp`].
pub enum TrieOpView {
    Delete,
    Update(Seq<u8>),
}

impl View for TrieOp {
    type V = TrieOpView;

    open spec fn view(&self) -> TrieOpView {
        match self {
            TrieOp::Delete => TrieOpView::Delete,
            TrieOp::Update(n) => TrieOpView::Update(n@),
        }
    }
}

impl Clone for TrieOp {
    fn clone(&self) -> (r: Self)
        ensures
            r@ == self@,
    {
        match self {
            TrieOp::Delete => TrieOp::Delete,
            TrieOp::Update(n) => TrieOp::Update(n.clone()),
        }
    }
}

impl TrieOp {
    /// Whether the operation is an update.
    pub fn is_update(&self) -> (r: bool)
        ensures
            r == (self@ is Update),
    {
        matches!(self, TrieOp::Update(..))
    }

    /// The updated node, if the operation is an update.
    pub fn as_update(&self) -> (r: Option<&BranchNodeCompact>)
        ensures
            match self@ {
                TrieOpView::Update(n) => r matches Some(x) && x@ == n,
                TrieOpView::Delete => r is None,
            },
    {
        if let TrieOp::Update(node) = self {
            Some(node)
        } else {
            None
        }
    }

    /// The updated node, taken out of the operation, if it is an update.
    pub fn into_update(self) -> (r: Option<BranchNodeCompact>)
        ensures
            match self@ {
                TrieOpView::Update(n) => r matches Some(x) && x@ == n,
                TrieOpView::Delete => r is None,
            },
    {
        if let TrieOp::Update(node) = self {
            Some(node)
        } else {
            None
        }
    }
}

/// The mathematical values of a sequence of key/operation pairs.
pub open spec fn entries_view(s: Seq<(TrieKey, TrieOp)>) -> Seq<(TrieKeyView, TrieOpView)> {
    s.map_values(|e: (TrieKey, TrieOp)| (e.0@, e.1@))
}

/// The keys of `s` are strictly increasing in the order of [`key_lt`].
pub open spec fn strictly_sorted(s: Seq<(TrieKeyView, TrieOpView)>) -> bool {
    forall|i: int, j: int| 0 <= i < j < s.len() ==> key_lt(#[trigger] s[i].0, #[trigger] s[j].0)
}

/// A whole storage trie can only be deleted, never updated.
pub open spec fn valid_op(k: TrieKeyView, op: TrieOpView) -> bool {
    !(k is StorageTrie && op is Update)
}

pub open spec fn all_valid(s: Seq<(TrieKeyView, TrieOpView)>) -> bool {
    forall|i: int| 0 <= i < s.len() ==> valid_op(#[trigger] s[i].0, s[i].1)
}

/// The map from each key of `s` to its operation.
pub open spec fn map_of(s: Seq<(TrieKeyView, TrieOpView)>) -> Map<TrieKeyView, TrieOpView> {
    Map::new(
        |k: TrieKeyView| exists|i: int| 0 <= i < s.len() && s[i].0 == k,
        |k: TrieKeyView| s[choose|i: int| 0 <= i < s.len() && s[i].0 == k].1,
    )
}

/// `m` after writing the pairs of `s` one after the other; a later pair
/// overwrites an earlier one with the same key.
pub open spec fn insert_all(
    m: Map<TrieKeyView, TrieOpView>,
    s: Seq<(TrieKeyView, TrieOpView)>,
) -> Map<TrieKeyView, TrieOpView>
    decreases s.len(),
{
    if s.len() == 0 {
        m
    } else {
        insert_all(m, s.drop_last()).insert(s.last().0, s.last().1)
    }
}

/// In a sorted sequence each pair is the entry of its key.
pub proof fn lemma_map_of_sorted(s: Seq<(TrieKeyView, TrieOpView)>)
    requires
        strictly_sorted(s),
    ensures
        forall|i: int|
            0 <= i < s.len() ==> #[trigger] map_of(s).contains_key(s[i].0) && map_of(s)[s[i].0]
                == s[i].1,
        forall|k: TrieKeyView|
            #[trigger] map_of(s).contains_key(k) ==> exists|i: int| 0 <= i < s.len() && s[i].0 == k,
{
    assert forall|i: int| 0 <= i < s.len() implies #[trigger] map_of(s).contains_key(s[i].0)
        && map_of(s)[s[i].0] == s[i].1 by {
        let k = s[i].0;
        assert(0 <= i < s.len() && s[i].0 == k);
        let j = choose|j: int| 0 <= j < s.len() && s[j].0 == k;
        if j < i {
            lemma_key_lt_irreflexive(k);
            assert(key_lt(s[j].0, s[i].0));
        } else if i < j {
            lemma_key_lt_irreflexive(k);
            assert(key_lt(s[i].0, s[j].0));
        }
    }
}

/// A sorted sequence lists its map's entries, one pair per key: dropping its
/// last pair drops that key from the map.
pub proof fn lemma_map_of_drop_last(s: Seq<(TrieKeyView, TrieOpView)>)
    requires
        strictly_sorted(s),
        s.len() > 0,
    ensures
        strictly_sorted(s.drop_last()),
        map_of(s) == map_of(s.drop_last()).insert(s.last().0, s.last().1),
{
    let t = s.drop_last();
    assert(strictly_sorted(t)) by {
        assert forall|i: int, j: int| 0 <= i < j < t.len() implies key_lt(
            #[trigger] t[i].0,
            #[trigger] t[j].0,
        ) by {
            assert(t[i] == s[i] && t[j] == s[j]);
        }
    }
    lemma_map_of_sorted(s);
    lemma_map_of_sorted(t);
    let r = map_of(t).insert(s.last().0, s.last().1);
    assert forall|k: TrieKeyView| #[trigger] map_of(s).contains_key(k) == r.contains_key(k) by {
        if map_of(s).contains_key(k) {
            let i = choose|i: int| 0 <= i < s.len() && s[i].0 == k;
            if i < t.len() {
                assert(t[i] == s[i]);
            }
        }
        if map_of(t).contains_key(k) {
            let i = choose|i: int| 0 <= i < t.len() && t[i].0 == k;
            assert(t[i] == s[i]);
        }
    }
    assert forall|k: TrieKeyView| #[trigger] map_of(s).contains_key(k) implies map_of(s)[k]
        == r[k] by {
        let i = choose|i: int| 0 <= i < s.len() && s[i].0 == k;
        if i < t.len() {
            assert(t[i] == s[i]);
            assert(key_lt(s[i].0, s[s.len() - 1].0));
            lemma_key_lt_irreflexive(k);
        }
    }
    assert(map_of(s) =~= r);
}

/// Writing a delta `d2`, given as its sorted entries, over a delta `d1`: every
/// key of `d2` ends with `d2`'s operation, every other key keeps `d1`'s.
pub proof fn lemma_extend_last_write_wins(
    d1: Map<TrieKeyView, TrieOpView>,
    d2: Seq<(TrieKeyView, TrieOpView)>,
)
    requires
        strictly_sorted(d2),
    ensures
        insert_all(d1, d2) == d1.union_prefer_right(map_of(d2)),
        forall|k: TrieKeyView| #[trigger]
            map_of(d2).contains_key(k) ==> insert_all(d1, d2).contains_key(k) && insert_all(
                d1,
                d2,
            )[k] == map_of(d2)[k],
    decreases d2.len(),
{
    if d2.len() == 0 {
        assert(map_of(d2) =~= Map::empty());
        assert(d1.union_prefer_right(map_of(d2)) =~= d1);
    } else {
        lemma_map_of_drop_last(d2);
        lemma_extend_last_write_wins(d1, d2.drop_last());
        assert(insert_all(d1, d2) =~= d1.union_prefer_right(map_of(d2)));
    }
}

/// The aggregation of pending trie operations: at most one per key, the
/// latest write winning. Kept in key order.
#[derive(Debug, PartialEq, Eq)]
pub struct TrieUpdates {
    trie_operations: Vec<(TrieKey, TrieOp)>,
}

impl View for TrieUpdates {
    type V = Map<TrieKeyView, TrieOpView>;

    open spec fn view(&self) -> Map<TrieKeyView, TrieOpView> {
        map_of(self.entries())
    }
}

/// Copies a sequence of key/operation pairs.
fn copy_entries(v: &Vec<(TrieKey, TrieOp)>) -> (r: Vec<(TrieKey, TrieOp)>)
    ensures
        entries_view(r@) == entries_view(v@),
{
    let mut r: Vec<(TrieKey, TrieOp)> = Vec::with_capacity(v.len());
    let mut i: usize = 0;
    while i < v.len()
        invariant
            i <= v@.len(),
            r@.len() == i,
            entries_view(r@) == entries_view(v@).take(i as int),
        decreases v.len() - i,
    {
        let key = v[i].0.clone();
        let op = v[i].1.clone();
        let ghost r0 = r@;
        r.push((key, op));
        proof {
            assert forall|j: int| 0 <= j <= i implies #[trigger] entries_view(r@)[j] == entries_view(
                v@,
            )[j] by {
                if j < i {
                    assert(r@[j] == r0[j]);
                    assert(entries_view(r0)[j] == entries_view(v@).take(i as int)[j]);
                }
            }
        }
        i = i + 1;
        assert(entries_view(r@) =~= entries_view(v@).take(i as int));
    }
    assert(entries_view(v@).take(v@.len() as int) =~= entries_view(v@));
    r
}

/// Records `op` for `key` in the sorted pairs `ops`, replacing any operation
/// pending on it.
fn insert_sorted(ops: &mut Vec<(TrieKey, TrieOp)>, key: TrieKey, op: TrieOp)
    requires
        strictly_sorted(entries_view(old(ops)@)),
        all_valid(entries_view(old(ops)@)),
        valid_op(key@, op@),
    ensures
        strictly_sorted(entries_view(final(ops)@)),
        all_valid(entries_view(final(ops)@)),
        map_of(entries_view(final(ops)@)) == map_of(entries_view(old(ops)@)).insert(key@, op@),
{
    let ghost s0 = entries_view(ops@);
    proof {
        lemma_map_of_sorted(s0);
    }
    let mut i: usize = 0;
    while i < ops.len() && matches!(
        cmp_keys(&ops[i].0, &key),
        Ordering::Less
    )
        invariant
            entries_view(ops@) == s0,
            i <= s0.len(),
            forall|j: int| 0 <= j < i ==> key_lt(#[trigger] s0[j].0, key@),
        decreases ops.len() - i,
    {
        i = i + 1;
    }
    if i < ops.len() && matches!(
        cmp_keys(&ops[i].0, &key),
        Ordering::Equal
    ) {
        ops.set(i, (key, op));
        proof {
            let s1 = entries_view(ops@);
            assert(s1 =~= s0.update(i as int, (key@, op@)));
            assert forall|a: int| 0 <= a < s1.len() implies valid_op(#[trigger] s1[a].0, s1[a].1) by {
                if a != i {
                    assert(s1[a] == s0[a]);
                }
            }
            assert forall|a: int| 0 <= a < s1.len() implies #[trigger] s1[a].0 == s0[a].0 by {}
            assert forall|a: int, b: int| 0 <= a < b < s1.len() implies key_lt(
                #[trigger] s1[a].0,
                #[trigger] s1[b].0,
            ) by {
                assert(s1[a].0 == s0[a].0 && s1[b].0 == s0[b].0);
            }
            lemma_map_of_sorted(s1);
            assert forall|k: TrieKeyView| #[trigger]
                map_of(s1).contains_key(k) == map_of(s0).insert(key@, op@).contains_key(k) by {
                if map_of(s1).contains_key(k) {
                    let j = choose|j: int| 0 <= j < s1.len() && s1[j].0 == k;
                    assert(s1[j].0 == s0[j].0);
                }
                if map_of(s0).contains_key(k) {
                    let j = choose|j: int| 0 <= j < s0.len() && s0[j].0 == k;
                    assert(s1[j].0 == s0[j].0);
                }
                if k == key@ {
                    assert(s1[i as int].0 == k);
                }
            }
            assert forall|k: TrieKeyView| #[trigger]
                map_of(s1).contains_key(k) implies map_of(s1)[k] == map_of(s0).insert(
                key@,
                op@,
            )[k] by {
                let j = choose|j: int| 0 <= j < s1.len() && s1[j].0 == k;
                if j < i {
                    assert(s1[j] == s0[j]);
                    lemma_key_lt_asymmetric(s0[j].0, s0[i as int].0);
                } else if j > i {
                    assert(s1[j] == s0[j]);
                    lemma_key_lt_asymmetric(s0[i as int].0, s0[j].0);
                }
            }
            assert(map_of(s1) =~= map_of(s0).insert(key@, op@));
        }
        return ;
    }
    let ghost pos = i as int;
    proof {
        assert forall|j: int| pos <= j < s0.len() implies key_lt(key@, #[trigger] s0[j].0) by {
            if j > pos {
                assert(key_lt(s0[pos].0, s0[j].0));
                lemma_key_lt_transitive(key@, s0[pos].0, s0[j].0);
            }
        }
    }
    ops.insert(i, (key, op));
    proof {
        let s1 = entries_view(ops@);
        assert(s1 =~= s0.insert(pos, (key@, op@)));
        assert forall|a: int| 0 <= a < s1.len() implies valid_op(#[trigger] s1[a].0, s1[a].1) by {
            if a < pos {
                assert(s1[a] == s0[a]);
            } else if a > pos {
                assert(s1[a] == s0[a - 1]);
            }
        }
        assert forall|a: int, b: int| 0 <= a < b < s1.len() implies key_lt(
            #[trigger] s1[a].0,
            #[trigger] s1[b].0,
        ) by {
            if a < pos && b > pos {
                assert(s1[a] == s0[a] && s1[b] == s0[b - 1]);
            } else if a > pos {
                assert(s1[a] == s0[a - 1] && s1[b] == s0[b - 1]);
            } else if b < pos {
                assert(s1[a] == s0[a] && s1[b] == s0[b]);
            }
        }
        lemma_map_of_sorted(s1);
        assert forall|k: TrieKeyView| #[trigger]
            map_of(s1).contains_key(k) == map_of(s0).insert(key@, op@).contains_key(k) by {
            if map_of(s1).contains_key(k) {
                let j = choose|j: int| 0 <= j < s1.len() && s1[j].0 == k;
                if j < pos {
                    assert(s1[j] == s0[j]);
                } else if j > pos {
                    assert(s1[j] == s0[j - 1]);
                }
            }
            if map_of(s0).contains_key(k) {
                let j = choose|j: int| 0 <= j < s0.len() && s0[j].0 == k;
                if j < pos {
                    assert(s1[j] == s0[j]);
                } else {
                    assert(s1[j + 1] == s0[j]);
                }
            }
            if k == key@ {
                assert(s1[pos].0 == k);
            }
        }
        assert forall|k: TrieKeyView| #[trigger] map_of(s1).contains_key(k) implies map_of(
            s1,
        )[k] == map_of(s0).insert(key@, op@)[k] by {
            let j = choose|j: int| 0 <= j < s1.len() && s1[j].0 == k;
            if j < pos {
                assert(s1[j] == s0[j]);
                lemma_key_lt_asymmetric(s0[j].0, key@);
            } else if j > pos {
                assert(s1[j] == s0[j - 1]);
                lemma_key_lt_asymmetric(key@, s0[j - 1].0);
            }
        }
        assert(map_of(s1) =~= map_of(s0).insert(key@, op@));
    }
}

impl TrieUpdates {
    /// The pending operations, in key order.
    pub closed spec fn entries(&self) -> Seq<(TrieKeyView, TrieOpView)> {
        entries_view(self.trie_operations@)
    }

    /// The delta is kept in strictly increasing key order and holds no
    /// update of a whole storage trie.
    #[verifier::type_invariant]
    pub open spec fn wf(&self) -> bool {
        strictly_sorted(self.entries()) && all_valid(self.entries())
    }

    /// An empty delta.
    pub fn new() -> (r: TrieUpdates)
        ensures
            r.wf(),
            r@ == Map::<TrieKeyView, TrieOpView>::empty(),
    {
        let r = TrieUpdates { trie_operations: Vec::new() };
        assert(r@ =~= Map::<TrieKeyView, TrieOpView>::empty());
        r
    }

    /// The pending operation at position `i` in key order.
    pub fn entry(&self, i: usize) -> (r: &(TrieKey, TrieOp))
        requires
            i < self.entries().len(),
        ensures
            r.0@ == self.entries()[i as int].0,
            r.1@ == self.entries()[i as int].1,
    {
        &self.trie_operations[i]
    }

    /// Number of keys with a pending operation.
    pub fn len(&self) -> (r: usize)
        ensures
            r == self.entries().len(),
    {
        self.trie_operations.len()
    }

    pub fn is_empty(&self) -> (r: bool)
        ensures
            r == (self@ == Map::<TrieKeyView, TrieOpView>::empty()),
    {
        proof {
            use_type_invariant(self);
            lemma_map_of_sorted(self.entries());
            if self.entries().len() > 0 {
                assert(self@.contains_key(self.entries()[0].0));
            } else {
                assert(self@ =~= Map::<TrieKeyView, TrieOpView>::empty());
            }
        }
        self.trie_operations.len() == 0
    }

    /// Records `op` for `key`, replacing any operation pending on it.
    fn insert(&mut self, key: TrieKey, op: TrieOp)
        requires
            valid_op(key@, op@),
        ensures
            final(self)@ == old(self)@.insert(key@, op@),
    {
        proof {
            use_type_invariant(&*self);
        }
        let mut ops: Vec<(TrieKey, TrieOp)> = Vec::new();
        std::mem::swap(&mut self.trie_operations, &mut ops);
        insert_sorted(&mut ops, key, op);
        self.trie_operations = ops;
    }
}

/// Account-trie updates as key/operation pairs.
pub open spec fn account_updates(s: Seq<(Nibbles, BranchNodeCompact)>) -> Seq<(TrieKeyView, TrieOpView)> {
    s.map_values(
        |e: (Nibbles, BranchNodeCompact)|
            (TrieKeyView::AccountNode(e.0@), TrieOpView::Update(e.1@)),
    )
}

/// Storage-trie updates of one hashed account as key/operation pairs.
pub open spec fn storage_updates(
    account: Seq<u8>,
    s: Seq<(Nibbles, BranchNodeCompact)>,
) -> Seq<(TrieKeyView, TrieOpView)> {
    s.map_values(
        |e: (Nibbles, BranchNodeCompact)|
            (TrieKeyView::StorageNode(account, e.0@), TrieOpView::Update(e.1@)),
    )
}

/// Deletions of the given keys as key/operation pairs.
pub open spec fn deletions(s: Seq<TrieKey>) -> Seq<(TrieKeyView, TrieOpView)> {
    s.map_values(|k: TrieKey| (k@, TrieOpView::Delete))
}

/// Deletions of the whole storage tries of the given accounts.
pub open spec fn storage_trie_deletions(s: Seq<B256>) -> Seq<(TrieKeyView, TrieOpView)> {
    s.map_values(|a: B256| (TrieKeyView::StorageTrie(a@), TrieOpView::Delete))
}

proof fn lemma_insert_all_step(
    m: Map<TrieKeyView, TrieOpView>,
    t: Seq<(TrieKeyView, TrieOpView)>,
    i: int,
)
    requires
        0 <= i < t.len(),
    ensures
        insert_all(m, t.take(i + 1)) == insert_all(m, t.take(i)).insert(t[i].0, t[i].1),
{
    assert(t.take(i + 1).drop_last() =~= t.take(i));
}

/// A sorted snapshot lists exactly the entries of its map, each key once, in
/// strictly increasing key order: a permutation of the delta's entries.
pub proof fn lemma_sorted_is_permutation(s: Seq<(TrieKeyView, TrieOpView)>)
    requires
        strictly_sorted(s),
    ensures
        forall|i: int, j: int| 0 <= i < j < s.len() ==> key_lt(#[trigger] s[i].0, #[trigger] s[j].0),
        forall|i: int, j: int| 0 <= i < s.len() && 0 <= j < s.len() && i != j ==> #[trigger] s[i].0 != #[trigger] s[j].0,
        forall|i: int|
            0 <= i < s.len() ==> #[trigger] map_of(s).contains_key(s[i].0) && map_of(s)[s[i].0]
                == s[i].1,
        forall|k: TrieKeyView| #[trigger]
            map_of(s).contains_key(k) ==> exists|i: int|
                0 <= i < s.len() && s[i] == (k, map_of(s)[k]),
{
    lemma_map_of_sorted(s);
    assert forall|i: int, j: int| 0 <= i < s.len() && 0 <= j < s.len() && i != j implies #[trigger] s[i].0 != #[trigger] s[j].0 by {
        if i < j {
            lemma_key_lt_asymmetric(s[i].0, s[j].0);
        } else {
            lemma_key_lt_asymmetric(s[j].0, s[i].0);
        }
    }
    assert forall|k: TrieKeyView| #[trigger]
        map_of(s).contains_key(k) implies exists|i: int|
            0 <= i < s.len() && s[i] == (k, map_of(s)[k]) by {
        let i = choose|i: int| 0 <= i < s.len() && s[i].0 == k;
        assert(s[i] == (k, map_of(s)[k]));
    }
}

/// A delta in key order, fixed once made; overlay cursors read it.
#[derive(Debug, PartialEq, Eq)]
pub struct TrieUpdatesSorted {
    trie_operations: Vec<(TrieKey, TrieOp)>,
}

impl View for TrieUpdatesSorted {
    type V = Seq<(TrieKeyView, TrieOpView)>;

    closed spec fn view(&self) -> Seq<(TrieKeyView, TrieOpView)> {
        entries_view(self.trie_operations@)
    }
}

impl TrieUpdatesSorted {
    /// A snapshot is in strictly increasing key order and holds no update
    /// of a whole storage trie.
    #[verifier::type_invariant]
    pub open spec fn wf(&self) -> bool {
        strictly_sorted(self@) && all_valid(self@)
    }

    pub fn len(&self) -> (r: usize)
        ensures
            r == self@.len(),
    {
        self.trie_operations.len()
    }

    /// The entry at position `i`.
    pub fn get(&self, i: usize) -> (r: &(TrieKey, TrieOp))
        requires
            i < self@.len(),
        ensures
            r.0@ == self@[i as int].0,
            r.1@ == self@[i as int].1,
    {
        &self.trie_operations[i]
    }

    /// The position of the first entry whose key is not below `target`.
    pub fn lower_bound(&self, target: &TrieKey) -> (r: usize)
        ensures
            r <= self@.len(),
            forall|j: int| 0 <= j < r ==> key_lt(#[trigger] self@[j].0, target@),
            forall|j: int| r <= j < self@.len() ==> !key_lt(#[trigger] self@[j].0, target@),
    {
        proof {
            use_type_invariant(self);
        }
        let mut lo: usize = 0;
        let mut hi: usize = self.trie_operations.len();
        while lo < hi
            invariant
                strictly_sorted(self@),
                lo <= hi <= self@.len(),
                forall|j: int| 0 <= j < lo ==> key_lt(#[trigger] self@[j].0, target@),
                forall|j: int| hi <= j < self@.len() ==> !key_lt(#[trigger] self@[j].0, target@),
            decreases hi - lo,
        {
            let mid = lo + (hi - lo) / 2;
            let ghost m = mid as int;
            if matches!(cmp_keys(&self.trie_operations[mid].0, target), Ordering::Less) {
                proof {
                    assert forall|j: int| 0 <= j < m + 1 implies key_lt(#[trigger] self@[j].0, target@) by {
                        if j < m {
                            lemma_key_lt_transitive(self@[j].0, self@[m].0, target@);
                        }
                    }
                }
                lo = mid + 1;
            } else {
                proof {
                    assert forall|j: int| m <= j < self@.len() implies !key_lt(#[trigger] self@[j].0, target@) by {
                        if j > m && key_lt(self@[j].0, target@) {
                            lemma_key_lt_transitive(self@[m].0, self@[j].0, target@);
                        }
                    }
                }
                hi = mid;
            }
        }
        let i = lo;
        i
    }

    /// The pending entry of `key`, found with [`Self::lower_bound`].
    fn find(&self, key: &TrieKey) -> (r: Option<(TrieKey, TrieOp)>)
        ensures
            match r {
                Some((k, op)) => k@ == key@ && map_of(self@).contains_key(key@) && map_of(
                    self@,
                )[key@] == op@,
                None => !map_of(self@).contains_key(key@),
            },
    {
        proof {
            use_type_invariant(self);
            lemma_map_of_sorted(self@);
        }
        let i = self.lower_bound(key);
        if i < self.trie_operations.len() && matches!(
            cmp_keys(&self.trie_operations[i].0, key),
            Ordering::Equal
        ) {
            Some((self.trie_operations[i].0.clone(), self.trie_operations[i].1.clone()))
        } else {
            proof {
                if map_of(self@).contains_key(key@) {
                    let j = choose|j: int| 0 <= j < self@.len() && self@[j].0 == key@;
                    lemma_key_lt_irreflexive(key@);
                    if j > i {
                        assert(key_lt(self@[i as int].0, self@[j].0));
                        lemma_key_lt_total(self@[i as int].0, key@);
                    }
                }
            }
            None
        }
    }

    /// The pending entry of the account node at `key`.
    pub fn find_account_node(&self, key: &Nibbles) -> (r: Option<(TrieKey, TrieOp)>)
        ensures
            match r {
                Some((k, op)) => k@ == TrieKeyView::AccountNode(key@) && map_of(
                    self@,
                ).contains_key(k@) && map_of(self@)[k@] == op@,
                None => !map_of(self@).contains_key(TrieKeyView::AccountNode(key@)),
            },
    {
        self.find(&TrieKey::AccountNode(key.clone()))
    }

    /// The pending entry of the storage node at `key` of the given account.
    pub fn find_storage_node(&self, hashed_address: &B256, key: &Nibbles) -> (r: Option<
        (TrieKey, TrieOp),
    >)
        ensures
            match r {
                Some((k, op)) => k@ == TrieKeyView::StorageNode(hashed_address@, key@) && map_of(
                    self@,
                ).contains_key(k@) && map_of(self@)[k@] == op@,
                None => !map_of(self@).contains_key(
                    TrieKeyView::StorageNode(hashed_address@, key@),
                ),
            },
    {
        self.find(&TrieKey::StorageNode(*hashed_address, key.clone()))
    }
}

impl TrieUpdates {
    /// Merges `updates` in, one after the other; a later operation on a key
    /// replaces an earlier one.
    pub fn extend(&mut self, updates: Vec<(TrieKey, TrieOp)>)
        requires
            all_valid(entries_view(updates@)),
        ensures
            final(self)@ == insert_all(old(self)@, entries_view(updates@)),
    {
        let ghost t = entries_view(updates@);
        let mut i: usize = 0;
        while i < updates.len()
            invariant
                i <= updates@.len(),
                t == entries_view(updates@),
                all_valid(t),
                self@ == insert_all(old(self)@, t.take(i as int)),
            decreases updates.len() - i,
        {
            proof {
                lemma_insert_all_step(old(self)@, t, i as int);
            }
            let key = updates[i].0.clone();
            let op = updates[i].1.clone();
            assert(valid_op(t[i as int].0, t[i as int].1));
            self.insert(key, op);
            i = i + 1;
        }
        assert(t.take(t.len() as int) =~= t);
    }

    /// Records each account node of `updates` as updated.
    pub fn extend_with_account_updates(&mut self, updates: Vec<(Nibbles, BranchNodeCompact)>)
        ensures
            final(self)@ == insert_all(old(self)@, account_updates(updates@)),
    {
        let ghost t = account_updates(updates@);
        let mut i: usize = 0;
        while i < updates.len()
            invariant
                i <= updates@.len(),
                t == account_updates(updates@),
                self@ == insert_all(old(self)@, t.take(i as int)),
            decreases updates.len() - i,
        {
            proof {
                lemma_insert_all_step(old(self)@, t, i as int);
            }
            self.insert(TrieKey::AccountNode(updates[i].0.clone()), TrieOp::Update(updates[i].1.clone()));
            i = i + 1;
        }
        assert(t.take(t.len() as int) =~= t);
    }

    /// Records each storage node of `updates`, in the storage trie of
    /// `hashed_address`, as updated.
    fn extend_with_storage_updates(
        &mut self,
        hashed_address: B256,
        updates: Vec<(Nibbles, BranchNodeCompact)>,
    )
        ensures
            final(self)@ == insert_all(old(self)@, storage_updates(hashed_address@, updates@)),
    {
        let ghost t = storage_updates(hashed_address@, updates@);
        let mut i: usize = 0;
        while i < updates.len()
            invariant
                i <= updates@.len(),
                t == storage_updates(hashed_address@, updates@),
                self@ == insert_all(old(self)@, t.take(i as int)),
            decreases updates.len() - i,
        {
            proof {
                lemma_insert_all_step(old(self)@, t, i as int);
            }
            self.insert(
                TrieKey::StorageNode(hashed_address, updates[i].0.clone()),
                TrieOp::Update(updates[i].1.clone()),
            );
            i = i + 1;
        }
        assert(t.take(t.len() as int) =~= t);
    }

    /// Records each of `keys` as deleted.
    fn extend_with_deletions(&mut self, keys: Vec<TrieKey>)
        ensures
            final(self)@ == insert_all(old(self)@, deletions(keys@)),
    {
        let ghost t = deletions(keys@);
        let mut i: usize = 0;
        while i < keys.len()
            invariant
                i <= keys@.len(),
                t == deletions(keys@),
                self@ == insert_all(old(self)@, t.take(i as int)),
            decreases keys.len() - i,
        {
            proof {
                lemma_insert_all_step(old(self)@, t, i as int);
            }
            self.insert(keys[i].clone(), TrieOp::Delete);
            i = i + 1;
        }
        assert(t.take(t.len() as int) =~= t);
    }

    /// Records the whole storage trie of each of `accounts` as deleted.
    fn extend_with_storage_trie_deletions(&mut self, accounts: Vec<B256>)
        ensures
            final(self)@ == insert_all(old(self)@, storage_trie_deletions(accounts@)),
    {
        let ghost t = storage_trie_deletions(accounts@);
        let mut i: usize = 0;
        while i < accounts.len()
            invariant
                i <= accounts@.len(),
                t == storage_trie_deletions(accounts@),
                self@ == insert_all(old(self)@, t.take(i as int)),
            decreases accounts.len() - i,
        {
            proof {
                lemma_insert_all_step(old(self)@, t, i as int);
            }
            self.insert(TrieKey::StorageTrie(accounts[i]), TrieOp::Delete);
            i = i + 1;
        }
        assert(t.take(t.len() as int) =~= t);
    }

    /// Merges the result of recomputing the state trie: the keys the trie
    /// walk found deleted, then the account nodes the hash builder produced,
    /// then the deleted storage tries of destroyed accounts, each overriding
    /// what came before it.
    pub fn finalize_state_updates(
        &mut self,
        walker_deleted_keys: Vec<TrieKey>,
        hash_builder_updates: Vec<(Nibbles, BranchNodeCompact)>,
        destroyed_accounts: Vec<B256>,
    )
        ensures
            final(self)@ == insert_all(
                insert_all(
                    insert_all(old(self)@, deletions(walker_deleted_keys@)),
                    account_updates(hash_builder_updates@),
                ),
                storage_trie_deletions(destroyed_accounts@),
            ),
    {
        self.extend_with_deletions(walker_deleted_keys);
        self.extend_with_account_updates(hash_builder_updates);
        self.extend_with_storage_trie_deletions(destroyed_accounts);
    }

    /// Merges the result of recomputing the storage trie of one account: the
    /// keys the trie walk found deleted, then the storage nodes the hash
    /// builder produced.
    pub fn finalize_storage_updates(
        &mut self,
        hashed_address: B256,
        walker_deleted_keys: Vec<TrieKey>,
        hash_builder_updates: Vec<(Nibbles, BranchNodeCompact)>,
    )
        ensures
            final(self)@ == insert_all(
                insert_all(old(self)@, deletions(walker_deleted_keys@)),
                storage_updates(hashed_address@, hash_builder_updates@),
            ),
    {
        self.extend_with_deletions(walker_deleted_keys);
        self.extend_with_storage_updates(hashed_address, hash_builder_updates);
    }

    /// A sorted snapshot of the delta.
    pub fn sorted(&self) -> (r: TrieUpdatesSorted)
        ensures
            r.wf(),
            r@ == self.entries(),
            map_of(r@) == self@,
    {
        proof {
            use_type_invariant(self);
        }
        TrieUpdatesSorted { trie_operations: copy_entries(&self.trie_operations) }
    }

    /// Turns the delta into its sorted snapshot.
    pub fn into_sorted(self) -> (r: TrieUpdatesSorted)
        ensures
            r.wf(),
            r@ == self.entries(),
            map_of(r@) == self@,
    {
        proof {
            use_type_invariant(&self);
        }
        TrieUpdatesSorted { trie_operations: self.trie_operations }
    }

    /// The pending operations, in key order.
    pub fn into_entries(self) -> (r: Vec<(TrieKey, TrieOp)>)
        ensures
            entries_view(r@) == self.entries(),
            strictly_sorted(entries_view(r@)),
            all_valid(entries_view(r@)),
            map_of(entries_view(r@)) == self@,
    {
        proof {
            use_type_invariant(&self);
        }
        self.trie_operations
    }
}

} // verus!
