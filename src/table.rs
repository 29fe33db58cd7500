//! Ordered trie tables and the cursor capability over them: the durable side
//! that overlay cursors read through. [`TrieTable`] is an in-memory table
//! with the same contract as a durable one.

use crate::nibbles::{
    cmp_bytes, lemma_seq_lt_asymmetric, lemma_seq_lt_irreflexive, lemma_seq_lt_total,
    lemma_seq_lt_transitive, seq_le, seq_lt, BranchNodeCompact, Nibbles, B256,
};
use crate::updates::TrieKey;
use std::cmp::Ordering;
use vstd::prelude::*;

verus! {

/// A failure of the durable store.
#[derive(Debug, PartialEq, Eq)]
pub struct DatabaseError(pub String);

/// The path and node that a lookup found, as values.
pub open spec fn found_view(o: Option<(Nibbles, BranchNodeCompact)>) -> Option<(Seq<u8>, Seq<u8>)> {
    match o {
        Some((p, n)) => Some((p@, n@)),
        None => None,
    }
}

/// The entry of `key` in the table `m`, if any.
pub open spec fn exact_in(m: Map<Seq<u8>, Seq<u8>>, key: Seq<u8>) -> Option<(Seq<u8>, Seq<u8>)> {
    if m.contains_key(key) {
        Some((key, m[key]))
    } else {
        None
    }
}

/// `o` is the first entry of `m` at or after `key`, or nothing if `m` has no
/// path at or after `key`.
pub open spec fn first_at_or_after(
    m: Map<Seq<u8>, Seq<u8>>,
    key: Seq<u8>,
    o: Option<(Seq<u8>, Seq<u8>)>,
) -> bool {
    match o {
        Some((p, n)) => {
            &&& m.contains_key(p)
            &&& m[p] == n
            &&& seq_le(key, p)
            &&& forall|q: Seq<u8>| #[trigger] m.contains_key(q) && seq_le(key, q) ==> seq_le(p, q)
        },
        None => forall|q: Seq<u8>| #[trigger] m.contains_key(q) ==> !seq_le(key, q),
    }
}

/// An ordered read cursor over one trie table: paths to nodes.
pub trait TrieCursor {
    /// The entries of the table.
    spec fn entries(&self) -> Map<Seq<u8>, Seq<u8>>;

    /// Whether the cursor reads a store that cannot fail, such as one held
    /// in memory.
    spec fn never_fails(&self) -> bool;

    /// The entry at exactly `key`.
    fn seek_exact(&mut self, key: Nibbles) -> (r: Result<
        Option<(Nibbles, BranchNodeCompact)>,
        DatabaseError,
    >)
        ensures
            final(self).entries() == old(self).entries(),
            final(self).never_fails() == old(self).never_fails(),
            old(self).never_fails() ==> r is Ok,
            r matches Ok(o) ==> found_view(o) == exact_in(old(self).entries(), key@),
    ;

    /// The first entry at or after `key`.
    fn seek(&mut self, key: Nibbles) -> (r: Result<Option<(Nibbles, BranchNodeCompact)>, DatabaseError>)
        ensures
            final(self).entries() == old(self).entries(),
            final(self).never_fails() == old(self).never_fails(),
            old(self).never_fails() ==> r is Ok,
            r matches Ok(o) ==> first_at_or_after(old(self).entries(), key@, found_view(o)),
    ;

    /// The key of the entry the cursor stands on.
    fn current(&mut self) -> (r: Result<Option<TrieKey>, DatabaseError>)
        ensures
            final(self).entries() == old(self).entries(),
            final(self).never_fails() == old(self).never_fails(),
            old(self).never_fails() ==> r is Ok,
    ;
}

/// Paths of `s` strictly increase.
pub open spec fn paths_sorted(s: Seq<(Seq<u8>, Seq<u8>)>) -> bool {
    forall|i: int, j: int| 0 <= i < j < s.len() ==> seq_lt(#[trigger] s[i].0, #[trigger] s[j].0)
}

/// The table that lists the entries of `s`.
pub open spec fn table_of(s: Seq<(Seq<u8>, Seq<u8>)>) -> Map<Seq<u8>, Seq<u8>> {
    Map::new(
        |k: Seq<u8>| exists|i: int| 0 <= i < s.len() && s[i].0 == k,
        |k: Seq<u8>| s[choose|i: int| 0 <= i < s.len() && s[i].0 == k].1,
    )
}

pub open spec fn rows_view(s: Seq<(Nibbles, BranchNodeCompact)>) -> Seq<(Seq<u8>, Seq<u8>)> {
    s.map_values(|e: (Nibbles, BranchNodeCompact)| (e.0@, e.1@))
}

proof fn lemma_table_of_sorted(s: Seq<(Seq<u8>, Seq<u8>)>)
    requires
        paths_sorted(s),
    ensures
        forall|i: int|
            0 <= i < s.len() ==> #[trigger] table_of(s).contains_key(s[i].0) && table_of(s)[s[i].0]
                == s[i].1,
{
    assert forall|i: int| 0 <= i < s.len() implies #[trigger] table_of(s).contains_key(s[i].0)
        && table_of(s)[s[i].0] == s[i].1 by {
        let k = s[i].0;
        assert(0 <= i < s.len() && s[i].0 == k);
        let j = choose|j: int| 0 <= j < s.len() && s[j].0 == k;
        lemma_seq_lt_irreflexive(k);
        if j < i {
            assert(seq_lt(s[j].0, s[i].0));
        } else if i < j {
            assert(seq_lt(s[i].0, s[j].0));
        }
    }
}

/// An ordered table of trie nodes held in memory.
#[derive(Debug, PartialEq, Eq)]
pub struct TrieTable {
    rows: Vec<(Nibbles, BranchNodeCompact)>,
}

impl View for TrieTable {
    type V = Map<Seq<u8>, Seq<u8>>;

    open spec fn view(&self) -> Map<Seq<u8>, Seq<u8>> {
        table_of(self.rows())
    }
}

impl TrieTable {
    /// The entries, in path order.
    pub closed spec fn rows(&self) -> Seq<(Seq<u8>, Seq<u8>)> {
        rows_view(self.rows@)
    }

    pub open spec fn wf(&self) -> bool {
        paths_sorted(self.rows())
    }

    /// An empty table.
    pub fn new() -> (r: TrieTable)
        ensures
            r.wf(),
            r@ == Map::<Seq<u8>, Seq<u8>>::empty(),
    {
        let r = TrieTable { rows: Vec::new() };
        assert(r@ =~= Map::<Seq<u8>, Seq<u8>>::empty());
        r
    }

    pub fn len(&self) -> (r: usize)
        ensures
            r == self.rows().len(),
    {
        self.rows.len()
    }

    /// The position of the first entry whose path is not below `key`.
    fn lower_bound(&self, key: &Nibbles) -> (r: usize)
        requires
            self.wf(),
        ensures
            r <= self.rows().len(),
            forall|j: int| 0 <= j < r ==> seq_lt(#[trigger] self.rows()[j].0, key@),
            forall|j: int| r <= j < self.rows().len() ==> seq_le(key@, #[trigger] self.rows()[j].0),
    {
        let ghost s = self.rows();
        let mut lo: usize = 0;
        let mut hi: usize = self.rows.len();
        while lo < hi
            invariant
                self.wf(),
                s == self.rows(),
                lo <= hi <= s.len(),
                forall|j: int| 0 <= j < lo ==> seq_lt(#[trigger] s[j].0, key@),
                forall|j: int| hi <= j < s.len() ==> seq_le(key@, #[trigger] s[j].0),
            decreases hi - lo,
        {
            let mid = lo + (hi - lo) / 2;
            let ghost m = mid as int;
            assert(s[m] == (self.rows@[m].0@, self.rows@[m].1@));
            if matches!(cmp_bytes(self.rows[mid].0.as_slice(), key.as_slice()), Ordering::Less) {
                proof {
                    assert forall|j: int| 0 <= j < m + 1 implies seq_lt(#[trigger] s[j].0, key@) by {
                        if j < m {
                            lemma_seq_lt_transitive(s[j].0, s[m].0, key@);
                        }
                    }
                }
                lo = mid + 1;
            } else {
                proof {
                    if s[m].0 != key@ {
                        lemma_seq_lt_total(s[m].0, key@);
                    }
                    assert forall|j: int| m <= j < s.len() implies seq_le(key@, #[trigger] s[j].0) by {
                        if j > m {
                            assert(seq_lt(s[m].0, s[j].0));
                            if s[m].0 != key@ {
                                lemma_seq_lt_transitive(key@, s[m].0, s[j].0);
                            }
                        }
                    }
                }
                hi = mid;
            }
        }
        let i = lo;
        i
    }

    /// The entry at exactly `key`.
    pub fn get(&self, key: &Nibbles) -> (r: Option<(Nibbles, BranchNodeCompact)>)
        requires
            self.wf(),
        ensures
            found_view(r) == exact_in(self@, key@),
    {
        let ghost s = self.rows();
        proof {
            lemma_table_of_sorted(s);
        }
        let i = self.lower_bound(key);
        if i < self.rows.len() && matches!(
            cmp_bytes(self.rows[i].0.as_slice(), key.as_slice()),
            Ordering::Equal
        ) {
            let p = self.rows[i].0.clone();
            let n = self.rows[i].1.clone();
            assert(s[i as int] == (self.rows@[i as int].0@, self.rows@[i as int].1@));
            Some((p, n))
        } else {
            proof {
                if self@.contains_key(key@) {
                    let j = choose|j: int| 0 <= j < s.len() && s[j].0 == key@;
                    lemma_seq_lt_irreflexive(key@);
                    if j > i {
                        assert(seq_lt(s[i as int].0, s[j].0));
                        lemma_seq_lt_asymmetric(key@, s[i as int].0);
                    }
                }
            }
            None
        }
    }

    /// The first entry at or after `key`.
    pub fn seek(&self, key: &Nibbles) -> (r: Option<(Nibbles, BranchNodeCompact)>)
        requires
            self.wf(),
        ensures
            first_at_or_after(self@, key@, found_view(r)),
    {
        let ghost s = self.rows();
        proof {
            lemma_table_of_sorted(s);
        }
        let i = self.lower_bound(key);
        if i < self.rows.len() {
            proof {
                assert forall|q: Seq<u8>| #[trigger] self@.contains_key(q) && seq_le(key@, q) implies seq_le(s[i as int].0, q) by {
                    let j = choose|j: int| 0 <= j < s.len() && s[j].0 == q;
                    if j < i {
                        lemma_seq_lt_asymmetric(q, key@);
                    } else if j > i {
                        assert(seq_lt(s[i as int].0, s[j].0));
                    }
                }
            }
            let p = self.rows[i].0.clone();
            let n = self.rows[i].1.clone();
            assert(s[i as int] == (self.rows@[i as int].0@, self.rows@[i as int].1@));
            Some((p, n))
        } else {
            proof {
                assert forall|q: Seq<u8>| #[trigger] self@.contains_key(q) implies !seq_le(key@, q) by {
                    let j = choose|j: int| 0 <= j < s.len() && s[j].0 == q;
                    lemma_seq_lt_asymmetric(q, key@);
                }
            }
            None
        }
    }
}


impl TrieTable {
    /// Inserts or replaces the entry at `path`.
    pub fn upsert(&mut self, path: Nibbles, node: BranchNodeCompact)
        requires
            old(self).wf(),
        ensures
            final(self).wf(),
            final(self)@ == old(self)@.insert(path@, node@),
    {
        let ghost s0 = self.rows();
        proof {
            lemma_table_of_sorted(s0);
        }
        let i = self.lower_bound(&path);
        let ghost pos = i as int;
        if i < self.rows.len() && matches!(
            cmp_bytes(self.rows[i].0.as_slice(), path.as_slice()),
            Ordering::Equal
        ) {
            self.rows.set(i, (path, node));
            proof {
                let s1 = self.rows();
                assert(s1 =~= s0.update(pos, (path@, node@)));
                assert forall|a: int| 0 <= a < s1.len() implies #[trigger] s1[a].0 == s0[a].0 by {}
                assert forall|a: int, b: int| 0 <= a < b < s1.len() implies seq_lt(
                    #[trigger] s1[a].0,
                    #[trigger] s1[b].0,
                ) by {
                    assert(s1[a].0 == s0[a].0 && s1[b].0 == s0[b].0);
                }
                lemma_table_of_sorted(s1);
                assert forall|k: Seq<u8>| #[trigger]
                    table_of(s1).contains_key(k) == table_of(s0).insert(path@, node@).contains_key(k) by {
                    if table_of(s1).contains_key(k) {
                        let j = choose|j: int| 0 <= j < s1.len() && s1[j].0 == k;
                        assert(s1[j].0 == s0[j].0);
                    }
                    if table_of(s0).contains_key(k) {
                        let j = choose|j: int| 0 <= j < s0.len() && s0[j].0 == k;
                        assert(s1[j].0 == s0[j].0);
                    }
                    if k == path@ {
                        assert(s1[pos].0 == k);
                    }
                }
                assert forall|k: Seq<u8>| #[trigger] table_of(s1).contains_key(k) implies table_of(
                    s1,
                )[k] == table_of(s0).insert(path@, node@)[k] by {
                    let j = choose|j: int| 0 <= j < s1.len() && s1[j].0 == k;
                    if j < pos {
                        assert(s1[j] == s0[j]);
                        lemma_seq_lt_asymmetric(s0[j].0, s0[pos].0);
                    } else if j > pos {
                        assert(s1[j] == s0[j]);
                        lemma_seq_lt_asymmetric(s0[pos].0, s0[j].0);
                    }
                }
                assert(table_of(s1) =~= table_of(s0).insert(path@, node@));
            }
            return ;
        }
        proof {
            assert forall|j: int| pos <= j < s0.len() implies seq_lt(path@, #[trigger] s0[j].0) by {
                if s0[j].0 == path@ {
                    if j > pos {
                        assert(seq_lt(s0[pos].0, s0[j].0));
                        lemma_seq_lt_asymmetric(s0[pos].0, path@);
                    }
                }
            }
        }
        self.rows.insert(i, (path, node));
        proof {
            let s1 = self.rows();
            assert(s1 =~= s0.insert(pos, (path@, node@)));
            assert forall|a: int, b: int| 0 <= a < b < s1.len() implies seq_lt(
                #[trigger] s1[a].0,
                #[trigger] s1[b].0,
            ) by {
                if a < pos && b > pos {
                    assert(s1[a] == s0[a] && s1[b] == s0[b - 1]);
                    lemma_seq_lt_transitive(s0[a].0, path@, s0[b - 1].0);
                } else if a > pos {
                    assert(s1[a] == s0[a - 1] && s1[b] == s0[b - 1]);
                } else if b < pos {
                    assert(s1[a] == s0[a] && s1[b] == s0[b]);
                }
            }
            lemma_table_of_sorted(s1);
            assert forall|k: Seq<u8>| #[trigger]
                table_of(s1).contains_key(k) == table_of(s0).insert(path@, node@).contains_key(k) by {
                if table_of(s1).contains_key(k) {
                    let j = choose|j: int| 0 <= j < s1.len() && s1[j].0 == k;
                    if j < pos {
                        assert(s1[j] == s0[j]);
                    } else if j > pos {
                        assert(s1[j] == s0[j - 1]);
                    }
                }
                if table_of(s0).contains_key(k) {
                    let j = choose|j: int| 0 <= j < s0.len() && s0[j].0 == k;
                    if j < pos {
                        assert(s1[j] == s0[j]);
                    } else {
                        assert(s1[j + 1] == s0[j]);
                    }
                }
                if k == path@ {
                    assert(s1[pos].0 == k);
                }
            }
            assert forall|k: Seq<u8>| #[trigger] table_of(s1).contains_key(k) implies table_of(
                s1,
            )[k] == table_of(s0).insert(path@, node@)[k] by {
                let j = choose|j: int| 0 <= j < s1.len() && s1[j].0 == k;
                if j < pos {
                    assert(s1[j] == s0[j]);
                    lemma_seq_lt_asymmetric(s0[j].0, path@);
                } else if j > pos {
                    assert(s1[j] == s0[j - 1]);
                    lemma_seq_lt_asymmetric(path@, s0[j - 1].0);
                }
            }
            assert(table_of(s1) =~= table_of(s0).insert(path@, node@));
        }
    }

    /// Removes the entry at `path`, if there is one.
    pub fn delete(&mut self, path: &Nibbles)
        requires
            old(self).wf(),
        ensures
            final(self).wf(),
            final(self)@ == old(self)@.remove(path@),
    {
        let ghost s0 = self.rows();
        proof {
            lemma_table_of_sorted(s0);
        }
        let i = self.lower_bound(path);
        let ghost pos = i as int;
        if i < self.rows.len() && matches!(
            cmp_bytes(self.rows[i].0.as_slice(), path.as_slice()),
            Ordering::Equal
        ) {
            self.rows.remove(i);
            proof {
                let s1 = self.rows();
                assert(s1 =~= s0.remove(pos));
                assert forall|a: int, b: int| 0 <= a < b < s1.len() implies seq_lt(
                    #[trigger] s1[a].0,
                    #[trigger] s1[b].0,
                ) by {
                    if a < pos && b >= pos {
                        assert(s1[a] == s0[a] && s1[b] == s0[b + 1]);
                    } else if a >= pos {
                        assert(s1[a] == s0[a + 1] && s1[b] == s0[b + 1]);
                    } else {
                        assert(s1[a] == s0[a] && s1[b] == s0[b]);
                    }
                }
                lemma_table_of_sorted(s1);
                assert forall|k: Seq<u8>| #[trigger]
                    table_of(s1).contains_key(k) == table_of(s0).remove(path@).contains_key(k) by {
                    if table_of(s1).contains_key(k) {
                        let j = choose|j: int| 0 <= j < s1.len() && s1[j].0 == k;
                        if j < pos {
                            assert(s1[j] == s0[j]);
                            lemma_seq_lt_asymmetric(s0[j].0, s0[pos].0);
                        } else {
                            assert(s1[j] == s0[j + 1]);
                            lemma_seq_lt_asymmetric(s0[pos].0, s0[j + 1].0);
                        }
                    }
                    if table_of(s0).contains_key(k) && k != path@ {
                        let j = choose|j: int| 0 <= j < s0.len() && s0[j].0 == k;
                        if j < pos {
                            assert(s1[j] == s0[j]);
                        } else {
                            assert(j != pos);
                            assert(s1[j - 1] == s0[j]);
                        }
                    }
                }
                assert forall|k: Seq<u8>| #[trigger] table_of(s1).contains_key(k) implies table_of(
                    s1,
                )[k] == table_of(s0)[k] by {
                    let j = choose|j: int| 0 <= j < s1.len() && s1[j].0 == k;
                    if j < pos {
                        assert(s1[j] == s0[j]);
                    } else {
                        assert(s1[j] == s0[j + 1]);
                    }
                }
                assert(table_of(s1) =~= table_of(s0).remove(path@));
            }
        } else {
            proof {
                if table_of(s0).contains_key(path@) {
                    let j = choose|j: int| 0 <= j < s0.len() && s0[j].0 == path@;
                    lemma_seq_lt_irreflexive(path@);
                    if j > pos {
                        assert(seq_lt(s0[pos].0, s0[j].0));
                        lemma_seq_lt_asymmetric(path@, s0[pos].0);
                    }
                }
                assert(table_of(s0) =~= table_of(s0).remove(path@));
            }
        }
    }
}

impl Clone for TrieTable {
    fn clone(&self) -> (r: Self)
        ensures
            r.rows() == self.rows(),
    {
        let mut rows: Vec<(Nibbles, BranchNodeCompact)> = Vec::with_capacity(self.rows.len());
        let mut i: usize = 0;
        while i < self.rows.len()
            invariant
                i <= self.rows@.len(),
                rows@.len() == i,
                rows_view(rows@) == rows_view(self.rows@).take(i as int),
            decreases self.rows.len() - i,
        {
            let p = self.rows[i].0.clone();
            let n = self.rows[i].1.clone();
            let ghost r0 = rows@;
            rows.push((p, n));
            proof {
                assert forall|j: int| 0 <= j <= i implies #[trigger] rows_view(rows@)[j]
                    == rows_view(self.rows@)[j] by {
                    if j < i {
                        assert(rows@[j] == r0[j]);
                        assert(rows_view(r0)[j] == rows_view(self.rows@).take(i as int)[j]);
                    }
                }
            }
            i = i + 1;
            assert(rows_view(rows@) =~= rows_view(self.rows@).take(i as int));
        }
        assert(rows_view(self.rows@).take(self.rows@.len() as int) =~= rows_view(self.rows@));
        TrieTable { rows }
    }
}

/// A cursor over a [`TrieTable`]: over the account trie, or over the storage
/// trie of one hashed account.
pub struct MemoryTrieCursor {
    table: TrieTable,
    hashed_address: Option<B256>,
    last: Option<Nibbles>,
}

impl MemoryTrieCursor {
    #[verifier::type_invariant]
    closed spec fn inv(&self) -> bool {
        self.table.wf()
    }

    /// A cursor over `table`, the storage trie of `hashed_address` if one is
    /// given, else the account trie.
    pub fn new(table: TrieTable, hashed_address: Option<B256>) -> (r: MemoryTrieCursor)
        requires
            table.wf(),
        ensures
            r.entries() == table@,
    {
        MemoryTrieCursor { table, hashed_address, last: None }
    }

    fn key_of(&self, path: &Nibbles) -> (r: TrieKey) {
        match self.hashed_address {
            Some(a) => TrieKey::StorageNode(a, path.clone()),
            None => TrieKey::AccountNode(path.clone()),
        }
    }
}

impl TrieCursor for MemoryTrieCursor {
    closed spec fn entries(&self) -> Map<Seq<u8>, Seq<u8>> {
        self.table@
    }

    open spec fn never_fails(&self) -> bool {
        true
    }

    fn seek_exact(&mut self, key: Nibbles) -> (r: Result<
        Option<(Nibbles, BranchNodeCompact)>,
        DatabaseError,
    >)
        ensures
            r is Ok,
    {
        proof {
            use_type_invariant(&*self);
        }
        let r = self.table.get(&key);
        self.last = match &r {
            Some((p, _)) => Some(p.clone()),
            None => None,
        };
        Ok(r)
    }

    fn seek(&mut self, key: Nibbles) -> (r: Result<Option<(Nibbles, BranchNodeCompact)>, DatabaseError>)
        ensures
            r is Ok,
    {
        proof {
            use_type_invariant(&*self);
        }
        let r = self.table.seek(&key);
        self.last = match &r {
            Some((p, _)) => Some(p.clone()),
            None => None,
        };
        Ok(r)
    }

    fn current(&mut self) -> (r: Result<Option<TrieKey>, DatabaseError>)
        ensures
            r is Ok,
    {
        match &self.last {
            Some(p) => Ok(Some(self.key_of(p))),
            None => Ok(None),
        }
    }
}

} // verus!
